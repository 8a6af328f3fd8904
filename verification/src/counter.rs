use vstd::prelude::*;
use crate::point::Point;
use crate::ratio::Ratio;
use crate::wrap::{wrap128, sat64, wadd, wsub, wmul, sadd64, lemma_wrap128_small, lemma_wrap128_add, lemma_wrap128_add_both, lemma_wrap128_mul};

verus! {

// The counter reducer models a monotonically increasing counter that may
// reset to a lower value.  Points must arrive in strictly increasing time
// order.  Each decrease against the previous value is a reset: the value
// seen just before the reset is added to `reset_sum`, so the corrected
// reading of a point is its raw value plus the resets accumulated up to and
// including its own step.  The state keeps the first, second, penultimate
// and last points, regression sums over (timestamp, corrected value), and
// the reset bookkeeping.  Two states over adjacent time ranges splice: the
// boundary pair is examined once, so a reset across the boundary is counted
// exactly once, and the later state's corrected sums are shifted by the
// correction outstanding at the boundary.

/// The time range a counter summary may be extrapolated to.
#[derive(Clone, Copy, PartialEq, Eq, Structural, Debug)]
pub struct CounterBounds {
    pub left: i64,
    pub right: i64,
}

/// Why a counter operation was refused.
#[derive(Clone, Copy, PartialEq, Eq, Structural, Debug)]
pub enum CounterError {
    /// The two states' time ranges touch or overlap, so they cannot splice.
    OverlappingRanges,
    /// A bounds range whose left edge is not below its right edge.
    BadBounds,
    /// A point sequence whose timestamps are not strictly increasing.
    OutOfOrder,
}

/// Mergeable state of the counter reducer over one time range.
#[derive(Clone, Copy, PartialEq, Eq, Structural, Debug)]
pub struct CounterState {
    /// How many points were accumulated, saturating.
    pub n: u64,
    /// The earliest point seen.
    pub first: Point,
    /// The second point in time order; equal to `first` while `n == 1`.
    pub second: Point,
    /// The point just before the last; equal to `first` while `n == 1`.
    pub penultimate: Point,
    /// The latest point seen.
    pub last: Point,
    /// Sum of timestamps, modulo 2^128.
    pub sx: i128,
    /// Sum of corrected values, modulo 2^128.
    pub sy: i128,
    /// Sum of timestamp times corrected value, modulo 2^128.
    pub sxy: i128,
    /// Sum of squared timestamps, modulo 2^128.
    pub sx2: i128,
    /// Sum of the values seen immediately before each reset, modulo 2^128.
    pub reset_sum: i128,
    /// How many resets were seen, saturating.
    pub num_resets: u64,
    /// How many value changes (including resets) were seen, saturating.
    pub num_changes: u64,
    /// The configured extrapolation range, if any.
    pub bounds: Option<CounterBounds>,
}

impl CounterState {
    /// The retained points are consistent with a strictly time-ordered
    /// accumulation.
    pub open spec fn wf(self) -> bool {
        &&& self.n >= 1
        &&& self.first.ts <= self.last.ts
        &&& (self.n == 1 ==> self.second == self.first && self.penultimate == self.first
            && self.last == self.first)
        &&& (self.n >= 2 ==> self.first.ts < self.second.ts && self.second.ts <= self.last.ts
            && self.first.ts <= self.penultimate.ts && self.penultimate.ts < self.last.ts)
        &&& (self.bounds is Some ==> self.bounds->Some_0.left < self.bounds->Some_0.right)
    }
}

/// The state over a single point.
pub open spec fn spec_counter_new(p: Point) -> CounterState {
    CounterState {
        n: 1,
        first: p,
        second: p,
        penultimate: p,
        last: p,
        sx: p.ts as i128,
        sy: p.val as i128,
        sxy: wrap128(p.ts * p.val),
        sx2: wrap128(p.ts * p.ts),
        reset_sum: 0,
        num_resets: 0,
        num_changes: 0,
        bounds: None,
    }
}

/// The state with one later point folded in.
pub open spec fn spec_counter_accum(s: CounterState, p: Point) -> CounterState {
    let reset = p.val < s.last.val;
    let changed = p.val != s.last.val;
    let rs = if reset {
        wrap128(s.reset_sum + s.last.val)
    } else {
        s.reset_sum
    };
    let y = wrap128(p.val + rs);
    CounterState {
        n: sat64(s.n + 1),
        first: s.first,
        second: if s.n == 1 {
            p
        } else {
            s.second
        },
        penultimate: s.last,
        last: p,
        sx: wrap128(s.sx + p.ts),
        sy: wrap128(s.sy + y),
        sxy: wrap128(s.sxy + wrap128(p.ts * y)),
        sx2: wrap128(s.sx2 + wrap128(p.ts * p.ts)),
        reset_sum: rs,
        num_resets: if reset {
            sat64(s.num_resets + 1)
        } else {
            s.num_resets
        },
        num_changes: if changed {
            sat64(s.num_changes + 1)
        } else {
            s.num_changes
        },
        bounds: s.bounds,
    }
}

/// Two adjacent states spliced, `a` entirely before `b`.  The boundary pair
/// `(a.last, b.first)` is examined once: a reset across it is registered
/// exactly once, and all of `b`'s corrected sums shift by the correction
/// outstanding at the boundary.
pub open spec fn spec_counter_splice(a: CounterState, b: CounterState) -> CounterState {
    let reset = b.first.val < a.last.val;
    let changed = b.first.val != a.last.val;
    let c = if reset {
        wrap128(a.reset_sum + a.last.val)
    } else {
        a.reset_sum
    };
    CounterState {
        n: sat64(a.n + b.n),
        first: a.first,
        second: if a.n == 1 {
            b.first
        } else {
            a.second
        },
        penultimate: if b.n == 1 {
            a.last
        } else {
            b.penultimate
        },
        last: b.last,
        sx: wrap128(a.sx + b.sx),
        sy: wrap128(a.sy + wrap128(b.sy + wrap128(b.n * c))),
        sxy: wrap128(a.sxy + wrap128(b.sxy + wrap128(c * b.sx))),
        sx2: wrap128(a.sx2 + b.sx2),
        reset_sum: wrap128(c + b.reset_sum),
        num_resets: sat64(a.num_resets + b.num_resets + if reset {
            1int
        } else {
            0int
        }),
        num_changes: sat64(a.num_changes + b.num_changes + if changed {
            1int
        } else {
            0int
        }),
        bounds: if a.bounds is Some {
            a.bounds
        } else {
            b.bounds
        },
    }
}

impl CounterState {
    /// A state holding one observed point and no bounds.
    pub fn new(p: Point) -> (r: CounterState)
        ensures
            r == spec_counter_new(p),
            r.wf(),
    {
        let ti = p.ts as i128;
        let vi = p.val as i128;
        CounterState {
            n: 1,
            first: p,
            second: p,
            penultimate: p,
            last: p,
            sx: ti,
            sy: vi,
            sxy: wmul(ti, vi),
            sx2: wmul(ti, ti),
            reset_sum: 0,
            num_resets: 0,
            num_changes: 0,
            bounds: None,
        }
    }

    /// Configure the extrapolation range; refused unless the left edge is
    /// below the right edge.
    pub fn with_bounds(self, left: i64, right: i64) -> (r: Result<CounterState, CounterError>)
        requires
            self.wf(),
        ensures
            left < right ==> r == Ok::<CounterState, CounterError>(
                CounterState { bounds: Some(CounterBounds { left, right }), ..self },
            ),
            left >= right ==> r == Err::<CounterState, CounterError>(CounterError::BadBounds),
            r is Ok ==> r->Ok_0.wf(),
    {
        if left < right {
            Ok(CounterState { bounds: Some(CounterBounds { left, right }), ..self })
        } else {
            Err(CounterError::BadBounds)
        }
    }

    /// Fold in the next point in time order.
    pub fn accumulate(&mut self, p: Point)
        requires
            old(self).wf(),
            p.ts > old(self).last.ts,
        ensures
            *final(self) == spec_counter_accum(*old(self), p),
            final(self).wf(),
    {
        let reset = p.val < self.last.val;
        let changed = p.val != self.last.val;
        if reset {
            self.reset_sum = wadd(self.reset_sum, self.last.val as i128);
            self.num_resets = sadd64(self.num_resets, 1);
        }
        if changed {
            self.num_changes = sadd64(self.num_changes, 1);
        }
        let y = wadd(p.val as i128, self.reset_sum);
        let ti = p.ts as i128;
        self.sx = wadd(self.sx, ti);
        self.sy = wadd(self.sy, y);
        self.sxy = wadd(self.sxy, wmul(ti, y));
        self.sx2 = wadd(self.sx2, wmul(ti, ti));
        if self.n == 1 {
            self.second = p;
        }
        self.penultimate = self.last;
        self.last = p;
        self.n = sadd64(self.n, 1);
    }

    /// Splice with another partial state over a disjoint time range; either
    /// order of the two ranges is accepted, and touching or overlapping
    /// ranges are refused.
    pub fn merge(self, other: CounterState) -> (r: Result<CounterState, CounterError>)
        requires
            self.wf(),
            other.wf(),
        ensures
            self.last.ts < other.first.ts ==> r == Ok::<CounterState, CounterError>(
                spec_counter_splice(self, other),
            ),
            other.last.ts < self.first.ts ==> r == Ok::<CounterState, CounterError>(
                spec_counter_splice(other, self),
            ),
            !(self.last.ts < other.first.ts) && !(other.last.ts < self.first.ts) ==> r
                == Err::<CounterState, CounterError>(CounterError::OverlappingRanges),
            r is Ok ==> r->Ok_0.wf(),
    {
        if self.last.ts < other.first.ts {
            Ok(splice(self, other))
        } else if other.last.ts < self.first.ts {
            Ok(splice(other, self))
        } else {
            Err(CounterError::OverlappingRanges)
        }
    }

    /// The observed increase: last corrected value minus first value.
    /// Absent unless at least two points were accumulated.
    pub fn delta(&self) -> (r: Option<i128>)
        requires
            self.wf(),
        ensures
            r == spec_counter_delta(*self),
    {
        if self.n < 2 {
            None
        } else {
            Some(wsub(wadd(self.last.val as i128, self.reset_sum), self.first.val as i128))
        }
    }

    /// The observed increase per unit of time, exact.  Absent unless at
    /// least two points were accumulated.
    pub fn rate(&self) -> (r: Option<Ratio>)
        requires
            self.wf(),
        ensures
            r == spec_counter_rate(*self),
            r is Some ==> r->Some_0.wf(),
    {
        if self.n < 2 {
            None
        } else {
            let num = wsub(wadd(self.last.val as i128, self.reset_sum), self.first.val as i128);
            let den = (self.last.ts as i128) - (self.first.ts as i128);
            Some(Ratio::new(num, den as u128))
        }
    }

    /// Least-squares slope of corrected value over time:
    /// `(n * sxy - sx * sy) / (n * sx2 - sx^2)`.  Absent unless at least two
    /// points were accumulated and the wrapped denominator is positive.
    pub fn regression_slope(&self) -> (r: Option<Ratio>)
        requires
            self.wf(),
        ensures
            r == spec_counter_slope(*self),
            r is Some ==> r->Some_0.wf(),
    {
        if self.n < 2 {
            None
        } else {
            let ni = self.n as i128;
            let den = wsub(wmul(ni, self.sx2), wmul(self.sx, self.sx));
            if den <= 0 {
                None
            } else {
                let num = wsub(wmul(ni, self.sxy), wmul(self.sx, self.sy));
                Some(Ratio::new(num, den as u128))
            }
        }
    }

    /// The increase extrapolated to the configured bounds: the line through
    /// the first two points evaluated at the left edge, the line through the
    /// last two points evaluated at the right edge, both over corrected
    /// values, and their difference taken.  Absent without bounds or below
    /// two points.
    pub fn extrapolated_delta(&self) -> (r: Option<Ratio>)
        requires
            self.wf(),
        ensures
            r == spec_counter_extrapolated_delta(*self),
            r is Some ==> r->Some_0.wf(),
    {
        if self.n < 2 {
            return None;
        }
        let (bl, br) = match self.bounds {
            Some(b) => (b.left, b.right),
            None => {
                return None;
            },
        };
        // Corrected values at the two edges of the observed range.
        let y1 = self.first.val as i128;
        let rs2: i128 = if self.second.val < self.first.val {
            self.first.val as i128
        } else {
            0
        };
        let y2 = (self.second.val as i128) + rs2;
        let last_reset: i128 = if self.last.val < self.penultimate.val {
            self.penultimate.val as i128
        } else {
            0
        };
        let rs_pen = wsub(self.reset_sum, last_reset);
        let y3 = wadd(self.penultimate.val as i128, rs_pen);
        let y4 = wadd(self.last.val as i128, self.reset_sum);
        // Interpolate each edge line at its bound.
        let dl = (self.second.ts as i128) - (self.first.ts as i128);
        let dr = (self.last.ts as i128) - (self.penultimate.ts as i128);
        let vl = wadd(wmul(y1, dl), wmul(wsub(y2, y1), (bl as i128) - (self.first.ts as i128)));
        let vr = wadd(
            wmul(y3, dr),
            wmul(wsub(y4, y3), (br as i128) - (self.penultimate.ts as i128)),
        );
        let num = wsub(wmul(vr, dl), wmul(vl, dr));
        proof {
            assert(1 <= dl * dr <= u128::MAX) by (nonlinear_arith)
                requires 1 <= dl < 0x1_0000_0000_0000_0000i128, 1 <= dr < 0x1_0000_0000_0000_0000i128;
        }
        let den = (dl as u128) * (dr as u128);
        Some(Ratio::new(num, den))
    }

    /// How many resets were observed.
    pub fn resets(&self) -> (r: u64)
        ensures
            r == self.num_resets,
    {
        self.num_resets
    }

    /// How many value changes were observed.
    pub fn changes(&self) -> (r: u64)
        ensures
            r == self.num_changes,
    {
        self.num_changes
    }
}

/// Exec splice of two adjacent states, `a` entirely before `b`.
fn splice(a: CounterState, b: CounterState) -> (r: CounterState)
    requires
        a.wf(),
        b.wf(),
        a.last.ts < b.first.ts,
    ensures
        r == spec_counter_splice(a, b),
        r.wf(),
{
    let reset = b.first.val < a.last.val;
    let changed = b.first.val != a.last.val;
    let c = if reset {
        wadd(a.reset_sum, a.last.val as i128)
    } else {
        a.reset_sum
    };
    CounterState {
        n: sadd64(a.n, b.n),
        first: a.first,
        second: if a.n == 1 {
            b.first
        } else {
            a.second
        },
        penultimate: if b.n == 1 {
            a.last
        } else {
            b.penultimate
        },
        last: b.last,
        sx: wadd(a.sx, b.sx),
        sy: wadd(a.sy, wadd(b.sy, wmul(b.n as i128, c))),
        sxy: wadd(a.sxy, wadd(b.sxy, wmul(c, b.sx))),
        sx2: wadd(a.sx2, b.sx2),
        reset_sum: wadd(c, b.reset_sum),
        num_resets: sadd64(a.num_resets, sadd64(b.num_resets, if reset {
            1
        } else {
            0
        })),
        num_changes: sadd64(a.num_changes, sadd64(b.num_changes, if changed {
            1
        } else {
            0
        })),
        bounds: if a.bounds.is_some() {
            a.bounds
        } else {
            b.bounds
        },
    }
}

/// Observed increase over the whole range, absent below two points.
pub open spec fn spec_counter_delta(s: CounterState) -> Option<i128> {
    if s.n < 2 {
        None
    } else {
        Some(wrap128(wrap128(s.last.val + s.reset_sum) - s.first.val))
    }
}

/// Observed increase per unit of observed time, absent below two points.
pub open spec fn spec_counter_rate(s: CounterState) -> Option<Ratio> {
    if s.n < 2 {
        None
    } else {
        Some(
            Ratio {
                num: wrap128(wrap128(s.last.val + s.reset_sum) - s.first.val),
                den: (s.last.ts - s.first.ts) as u128,
            },
        )
    }
}

/// Least-squares slope over (timestamp, corrected value), absent below two
/// points or when the wrapped denominator is not positive.
pub open spec fn spec_counter_slope(s: CounterState) -> Option<Ratio> {
    if s.n < 2 {
        None
    } else {
        let den = wrap128(wrap128(s.n * s.sx2) - wrap128(s.sx * s.sx));
        if den <= 0 {
            None
        } else {
            Some(
                Ratio {
                    num: wrap128(wrap128(s.n * s.sxy) - wrap128(s.sx * s.sy)),
                    den: den as u128,
                },
            )
        }
    }
}

/// Splicing a single-point state after `a` is exactly accumulating that
/// point: in particular, a reset across the boundary is registered exactly
/// once, by the splice itself.
pub proof fn lemma_counter_splice_single(a: CounterState, p: Point)
    ensures
        spec_counter_splice(a, spec_counter_new(p)) == spec_counter_accum(a, p),
{
    let reset = p.val < a.last.val;
    let c = if reset {
        wrap128(a.reset_sum + a.last.val)
    } else {
        a.reset_sum
    };
    lemma_wrap128_small(c as int);
    lemma_wrap128_small(p.val as int);
    // sy: one corrected value shifts by the whole boundary correction.
    assert(wrap128((p.val as i128) + wrap128(1 * c)) == wrap128(p.val + c));
    // sxy: shifting the single corrected value under the product.
    assert(wrap128(wrap128(p.ts * p.val) + wrap128(c * (p.ts as i128))) == wrap128(
        p.ts * wrap128(p.val + c),
    )) by {
        lemma_wrap128_add_both(p.ts * p.val, c * p.ts);
        lemma_wrap128_mul(p.val + c, p.ts as int);
        vstd::arithmetic::mul::lemma_mul_is_distributive_add(p.ts as int, p.val as int, c as int);
        vstd::arithmetic::mul::lemma_mul_is_commutative(p.ts as int, wrap128(p.val + c) as int);
        vstd::arithmetic::mul::lemma_mul_is_commutative(p.ts as int, (p.val + c) as int);
        vstd::arithmetic::mul::lemma_mul_is_commutative(p.ts as int, p.val as int);
        vstd::arithmetic::mul::lemma_mul_is_commutative(p.ts as int, c as int);
    }
}

/// The corrected-value sum of a splice absorbs one more accumulation.
#[verifier::spinoff_prover]
proof fn lemma_splice_accum_sy(a: CounterState, b: CounterState, p: Point)
    requires
        a.n >= 1,
        1 <= b.n < u64::MAX,
    ensures
        spec_counter_splice(a, spec_counter_accum(b, p)).sy == spec_counter_accum(
            spec_counter_splice(a, b),
            p,
        ).sy,
{
    let cross = b.first.val < a.last.val;
    let c = if cross {
        wrap128(a.reset_sum + a.last.val)
    } else {
        a.reset_sum
    };
    let reset_l = p.val < b.last.val;
    let rsb = if reset_l {
        wrap128(b.reset_sum + b.last.val)
    } else {
        b.reset_sum
    };
    let nc = (b.n * c) as int;
    lemma_splice_accum_reset_sum(a, b, p);
    vstd::arithmetic::mul::lemma_mul_is_distributive_add_other_way(c as int, b.n as int, 1);
    // Left side collapses to one exact sum.
    lemma_wrap128_add(p.val + rsb, b.sy as int);
    lemma_wrap128_add_both(b.sy + p.val + rsb, nc + c);
    lemma_wrap128_add((b.sy + p.val + rsb) + (nc + c), a.sy as int);
    // Right side likewise.
    lemma_wrap128_add(nc, b.sy as int);
    lemma_wrap128_add(b.sy + nc, a.sy as int);
    lemma_wrap128_add(c + rsb, p.val as int);
    lemma_wrap128_add_both(a.sy + (b.sy + nc), p.val + (c + rsb));
}

/// The cross sum of a splice absorbs one more accumulation.
#[verifier::spinoff_prover]
#[verifier::rlimit(100)]
proof fn lemma_splice_accum_sxy(a: CounterState, b: CounterState, p: Point)
    requires
        a.n >= 1,
        1 <= b.n < u64::MAX,
    ensures
        spec_counter_splice(a, spec_counter_accum(b, p)).sxy == spec_counter_accum(
            spec_counter_splice(a, b),
            p,
        ).sxy,
{
    let cross = b.first.val < a.last.val;
    let c = if cross {
        wrap128(a.reset_sum + a.last.val)
    } else {
        a.reset_sum
    };
    let reset_l = p.val < b.last.val;
    let rsb = if reset_l {
        wrap128(b.reset_sum + b.last.val)
    } else {
        b.reset_sum
    };
    let bp = spec_counter_accum(b, p);
    let ab = spec_counter_splice(a, b);
    let ts = p.ts as int;
    let yl = (p.val + rsb) as int;
    let yg = (p.val + c + rsb) as int;
    lemma_splice_accum_reset_sum(a, b, p);
    // The later state's own cross sum, collapsed to one exact sum.
    assert(wrap128(ts * wrap128(yl)) == wrap128(ts * yl)) by {
        vstd::arithmetic::mul::lemma_mul_is_commutative(ts, wrap128(yl) as int);
        lemma_wrap128_mul(yl, ts);
        vstd::arithmetic::mul::lemma_mul_is_commutative(ts, yl);
    }
    assert(bp.sxy == wrap128(b.sxy + ts * yl)) by {
        lemma_wrap128_add(ts * yl, b.sxy as int);
    }
    // The boundary shift applied to the later state's timestamp sum.
    assert(wrap128(c * bp.sx) == wrap128(c * b.sx + c * ts)) by {
        vstd::arithmetic::mul::lemma_mul_is_commutative(c as int, wrap128(b.sx + p.ts) as int);
        lemma_wrap128_mul(b.sx + p.ts, c as int);
        vstd::arithmetic::mul::lemma_mul_is_commutative(c as int, (b.sx + p.ts) as int);
        vstd::arithmetic::mul::lemma_mul_is_distributive_add(c as int, b.sx as int, p.ts as int);
    }
    // The whole left side.
    assert(spec_counter_splice(a, bp).sxy == wrap128(
        a.sxy + b.sxy + ts * yl + c * b.sx + c * ts,
    )) by {
        lemma_wrap128_add_both((b.sxy + ts * yl) as int, (c * b.sx + c * ts) as int);
        lemma_wrap128_add((b.sxy + ts * yl) + (c * b.sx + c * ts), a.sxy as int);
    }
    // The spliced state's cross sum, collapsed.
    assert(ab.sxy == wrap128(a.sxy + b.sxy + c * b.sx)) by {
        lemma_wrap128_add((c * b.sx) as int, b.sxy as int);
        lemma_wrap128_add(b.sxy + c * b.sx, a.sxy as int);
    }
    // The new point's corrected value after the splice.
    let rsg = if p.val < ab.last.val {
        wrap128(ab.reset_sum + ab.last.val)
    } else {
        ab.reset_sum
    };
    assert(rsg == wrap128(c + rsb)) by {
        if reset_l {
            lemma_wrap128_add(c + b.reset_sum, b.last.val as int);
            lemma_wrap128_add(b.reset_sum + b.last.val, c as int);
        }
    }
    assert(wrap128(p.val + rsg) == wrap128(yg)) by {
        lemma_wrap128_add(c + rsb, p.val as int);
    }
    assert(wrap128(ts * wrap128(p.val + rsg)) == wrap128(ts * p.val + ts * c + ts * rsb)) by {
        vstd::arithmetic::mul::lemma_mul_is_commutative(ts, wrap128(yg) as int);
        lemma_wrap128_mul(yg, ts);
        vstd::arithmetic::mul::lemma_mul_is_commutative(ts, yg);
        vstd::arithmetic::mul::lemma_mul_is_distributive_add(ts, (p.val + c) as int, rsb as int);
        vstd::arithmetic::mul::lemma_mul_is_distributive_add(ts, p.val as int, c as int);
    }
    // The whole right side.
    assert(spec_counter_accum(ab, p).sxy == wrap128(
        a.sxy + b.sxy + c * b.sx + ts * p.val + ts * c + ts * rsb,
    )) by {
        lemma_wrap128_add_both(
            (a.sxy + b.sxy + c * b.sx) as int,
            (ts * p.val + ts * c + ts * rsb) as int,
        );
    }
    // Both exact sums are the same integer.
    assert(ts * yl == ts * p.val + ts * rsb) by {
        vstd::arithmetic::mul::lemma_mul_is_distributive_add(ts, p.val as int, rsb as int);
    }
    assert(c * ts == ts * c) by {
        vstd::arithmetic::mul::lemma_mul_is_commutative(c as int, ts);
    }
}

/// The reset bookkeeping of a splice absorbs one more accumulation.
#[verifier::spinoff_prover]
proof fn lemma_splice_accum_reset_sum(a: CounterState, b: CounterState, p: Point)
    requires
        a.n >= 1,
        1 <= b.n < u64::MAX,
    ensures
        spec_counter_splice(a, spec_counter_accum(b, p)).reset_sum == spec_counter_accum(
            spec_counter_splice(a, b),
            p,
        ).reset_sum,
{
    let cross = b.first.val < a.last.val;
    let c = if cross {
        wrap128(a.reset_sum + a.last.val)
    } else {
        a.reset_sum
    };
    if p.val < b.last.val {
        lemma_wrap128_add(b.reset_sum + b.last.val, c as int);
        lemma_wrap128_add(c + b.reset_sum, b.last.val as int);
    }
}

/// Splicing after `a` commutes with accumulating one more point into the
/// later state: the counter can absorb a point either before or after the
/// splice with the same result.
#[verifier::rlimit(100)]
#[verifier::spinoff_prover]
pub proof fn lemma_counter_splice_accum(a: CounterState, b: CounterState, p: Point)
    requires
        a.n >= 1,
        1 <= b.n < u64::MAX,
    ensures
        spec_counter_splice(a, spec_counter_accum(b, p)) == spec_counter_accum(
            spec_counter_splice(a, b),
            p,
        ),
{
    lemma_splice_accum_reset_sum(a, b, p);
    lemma_splice_accum_sy(a, b, p);
    lemma_splice_accum_sxy(a, b, p);
    let lhs = spec_counter_splice(a, spec_counter_accum(b, p));
    let rhs = spec_counter_accum(spec_counter_splice(a, b), p);
    assert(lhs.sx == rhs.sx) by {
        lemma_wrap128_add(b.sx + p.ts, a.sx as int);
        lemma_wrap128_add(a.sx + b.sx, p.ts as int);
    }
    assert(lhs.sx2 == rhs.sx2) by {
        lemma_wrap128_add(b.sx2 + wrap128(p.ts * p.ts), a.sx2 as int);
        lemma_wrap128_add(a.sx2 + b.sx2, wrap128(p.ts * p.ts) as int);
    }
}

/// Accumulating a whole point sequence, in order.
pub open spec fn spec_counter_accum_seq(s: CounterState, pts: Seq<Point>) -> CounterState
    decreases pts.len(),
{
    if pts.len() == 0 {
        s
    } else {
        spec_counter_accum(spec_counter_accum_seq(s, pts.drop_last()), pts.last())
    }
}

/// Increase extrapolated linearly to the configured bounds, using the first
/// two and the last two points, over corrected values.
pub open spec fn spec_counter_extrapolated_delta(s: CounterState) -> Option<Ratio> {
    if s.n < 2 || s.bounds is None {
        None
    } else {
        let b = s.bounds->Some_0;
        let y1 = s.first.val as i128;
        let rs2: i128 = if s.second.val < s.first.val {
            s.first.val as i128
        } else {
            0
        };
        let y2 = s.second.val + rs2;
        let last_reset: i128 = if s.last.val < s.penultimate.val {
            s.penultimate.val as i128
        } else {
            0
        };
        let rs_pen = wrap128(s.reset_sum - last_reset);
        let y3 = wrap128(s.penultimate.val + rs_pen);
        let y4 = wrap128(s.last.val + s.reset_sum);
        let dl = s.second.ts - s.first.ts;
        let dr = s.last.ts - s.penultimate.ts;
        let vl = wrap128(wrap128(y1 * dl) + wrap128(wrap128(y2 - y1) * (b.left - s.first.ts)));
        let vr = wrap128(
            wrap128(y3 * dr) + wrap128(wrap128(y4 - y3) * (b.right - s.penultimate.ts)),
        );
        Some(
            Ratio {
                num: wrap128(wrap128(vr * dl) - wrap128(vl * dr)),
                den: (dl * dr) as u128,
            },
        )
    }
}

} // verus!
