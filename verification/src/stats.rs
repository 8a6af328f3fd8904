use vstd::prelude::*;
use crate::point::Point;
use crate::ratio::Ratio;
use crate::wrap::{
    wrap128, wrap64, wadd, wsub, wmul, wadd64, lemma_wrap128_add, lemma_wrap128_small,
    lemma_wrap64_add,
};

verus! {

// The statistics reducer keeps running sums of the first four powers of the
// values it has seen.  Those moment sums are additive across disjoint
// samples, so partial states merge by field-wise addition, and mean,
// variance and the higher standardized moments all have closed forms over
// the sums.  Sums wrap modulo 2^128 (see `wrap`), which keeps accumulation
// total and keeps merging associative and commutative.

/// Mergeable running moments of a sample of values.
#[derive(Clone, Copy, PartialEq, Eq, Structural, Debug)]
pub struct StatsState {
    /// How many values were accumulated, modulo 2^64.
    pub n: u64,
    /// Sum of the values, modulo 2^128.
    pub sx: i128,
    /// Sum of the squared values, modulo 2^128.
    pub sx2: i128,
    /// Sum of the cubed values, modulo 2^128.
    pub sx3: i128,
    /// Sum of the fourth powers, modulo 2^128.
    pub sx4: i128,
}

/// The square of a value, wrapped.
pub open spec fn spec_pow2(v: int) -> i128 {
    wrap128(v * v)
}

/// The cube of a value, wrapped as it is computed.
pub open spec fn spec_pow3(v: int) -> i128 {
    wrap128(spec_pow2(v) * v)
}

/// The fourth power of a value, wrapped as it is computed.
pub open spec fn spec_pow4(v: int) -> i128 {
    wrap128(spec_pow2(v) * spec_pow2(v))
}

/// The state with one more value folded in.
pub open spec fn spec_accum(s: StatsState, v: i64) -> StatsState {
    StatsState {
        n: wrap64(s.n + 1),
        sx: wrap128(s.sx + v),
        sx2: wrap128(s.sx2 + spec_pow2(v as int)),
        sx3: wrap128(s.sx3 + spec_pow3(v as int)),
        sx4: wrap128(s.sx4 + spec_pow4(v as int)),
    }
}

/// Two partial states combined: moment sums are additive across disjoint
/// samples.
pub open spec fn spec_merge(a: StatsState, b: StatsState) -> StatsState {
    StatsState {
        n: wrap64(a.n + b.n),
        sx: wrap128(a.sx + b.sx),
        sx2: wrap128(a.sx2 + b.sx2),
        sx3: wrap128(a.sx3 + b.sx3),
        sx4: wrap128(a.sx4 + b.sx4),
    }
}

/// The values of a whole timevector folded in, left to right.
pub open spec fn spec_accum_seq(s: StatsState, pts: Seq<Point>) -> StatsState
    decreases pts.len(),
{
    if pts.len() == 0 {
        s
    } else {
        spec_accum(spec_accum_seq(s, pts.drop_last()), pts.last().val)
    }
}

/// The state that has seen nothing.
pub open spec fn spec_stats_empty() -> StatsState {
    StatsState { n: 0, sx: 0, sx2: 0, sx3: 0, sx4: 0 }
}

impl StatsState {
    /// A fresh state that has seen no values.
    pub fn new() -> (r: StatsState)
        ensures
            r == spec_stats_empty(),
    {
        StatsState { n: 0, sx: 0, sx2: 0, sx3: 0, sx4: 0 }
    }

    /// Fold one point's value into the running moments.
    pub fn accumulate(&mut self, p: Point)
        ensures
            *final(self) == spec_accum(*old(self), p.val),
    {
        let vi = p.val as i128;
        let p2 = wmul(vi, vi);
        let p3 = wmul(p2, vi);
        let p4 = wmul(p2, p2);
        self.n = wadd64(self.n, 1);
        self.sx = wadd(self.sx, vi);
        self.sx2 = wadd(self.sx2, p2);
        self.sx3 = wadd(self.sx3, p3);
        self.sx4 = wadd(self.sx4, p4);
    }

    /// Combine with another partial state.
    pub fn merge(self, other: StatsState) -> (r: StatsState)
        ensures
            r == spec_merge(self, other),
    {
        StatsState {
            n: wadd64(self.n, other.n),
            sx: wadd(self.sx, other.sx),
            sx2: wadd(self.sx2, other.sx2),
            sx3: wadd(self.sx3, other.sx3),
            sx4: wadd(self.sx4, other.sx4),
        }
    }

    /// Build a state from every value of a timevector, in order.
    pub fn from_points(pts: &Vec<Point>) -> (r: StatsState)
        ensures
            r == spec_accum_seq(spec_stats_empty(), pts@),
    {
        let mut s = StatsState::new();
        let n = pts.len();
        let mut i: usize = 0;
        while i < n
            invariant
                n == pts@.len(),
                i <= n,
                s == spec_accum_seq(spec_stats_empty(), pts@.take(i as int)),
            decreases n - i,
        {
            s.accumulate(pts[i]);
            proof {
                assert(pts@.take(i + 1).drop_last() =~= pts@.take(i as int));
                assert(pts@.take(i + 1).last() == pts@[i as int]);
            }
            i = i + 1;
        }
        proof {
            assert(pts@.take(n as int) =~= pts@);
        }
        s
    }

    /// How many values were accumulated.
    pub fn num_vals(&self) -> (r: u64)
        ensures
            r == self.n,
    {
        self.n
    }

    /// The running total of the values.
    pub fn sum(&self) -> (r: i128)
        ensures
            r == self.sx,
    {
        self.sx
    }

    /// The mean, absent when nothing was accumulated.
    pub fn average(&self) -> (r: Option<Ratio>)
        ensures
            r == spec_stats_average(*self),
            r is Some ==> r->Some_0.wf(),
    {
        if self.n == 0 {
            None
        } else {
            Some(Ratio::new(self.sx, self.n as u128))
        }
    }

    /// The sample variance, absent below two values.
    pub fn variance(&self) -> (r: Option<Ratio>)
        ensures
            r == spec_stats_variance(*self),
            r is Some ==> r->Some_0.wf(),
    {
        if self.n < 2 {
            None
        } else {
            let num = wsub(wmul(self.n as i128, self.sx2), wmul(self.sx, self.sx));
            let nu = self.n as u128;
            proof {
                assert(2 <= nu * (nu - 1) <= u128::MAX) by (nonlinear_arith)
                    requires 2 <= nu < 0x1_0000_0000_0000_0000u128;
            }
            let den = nu * (nu - 1);
            Some(Ratio::new(num, den))
        }
    }

    /// The squared skewness, absent unless the second central moment is
    /// meaningful and its wrapped cube is positive.
    pub fn skewness_squared(&self) -> (r: Option<Ratio>)
        ensures
            r == spec_stats_skewness_squared(*self),
            r is Some ==> r->Some_0.wf(),
    {
        if self.n < 2 {
            None
        } else {
            let p = self.central2_scaled();
            let den = wmul(wmul(p, p), p);
            if den <= 0 {
                None
            } else {
                let s3 = self.central3_scaled();
                Some(Ratio::new(wmul(s3, s3), den as u128))
            }
        }
    }

    /// The kurtosis (fourth standardized moment), absent unless the second
    /// central moment is meaningful and its wrapped square is positive.
    pub fn kurtosis(&self) -> (r: Option<Ratio>)
        ensures
            r == spec_stats_kurtosis(*self),
            r is Some ==> r->Some_0.wf(),
    {
        if self.n < 2 {
            None
        } else {
            let p = self.central2_scaled();
            let den = wmul(p, p);
            if den <= 0 {
                None
            } else {
                Some(Ratio::new(self.central4_scaled(), den as u128))
            }
        }
    }

    /// `n^2` times the second central moment, wrapped.
    fn central2_scaled(&self) -> (r: i128)
        ensures
            r == spec_central2_scaled(*self),
    {
        wsub(wmul(self.n as i128, self.sx2), wmul(self.sx, self.sx))
    }

    /// `n^3` times the third central moment, wrapped.
    fn central3_scaled(&self) -> (r: i128)
        ensures
            r == spec_central3_scaled(*self),
    {
        let ni = self.n as i128;
        let t1 = wmul(wmul(ni, ni), self.sx3);
        let t2 = wmul(3, wmul(ni, wmul(self.sx, self.sx2)));
        let t3 = wmul(2, wmul(self.sx, wmul(self.sx, self.sx)));
        wadd(wsub(t1, t2), t3)
    }

    /// `n^4` times the fourth central moment, wrapped.
    fn central4_scaled(&self) -> (r: i128)
        ensures
            r == spec_central4_scaled(*self),
    {
        let ni = self.n as i128;
        let n2 = wmul(ni, ni);
        let sxsx = wmul(self.sx, self.sx);
        let q1 = wmul(wmul(n2, ni), self.sx4);
        let q2 = wmul(4, wmul(n2, wmul(self.sx, self.sx3)));
        let q3 = wmul(6, wmul(ni, wmul(sxsx, self.sx2)));
        let q4 = wmul(3, wmul(sxsx, sxsx));
        wadd(wsub(q1, q2), wsub(q3, q4))
    }
}

/// Mean: the sum over the count, exact.
pub open spec fn spec_stats_average(s: StatsState) -> Option<Ratio> {
    if s.n == 0 {
        None
    } else {
        Some(Ratio { num: s.sx, den: s.n as u128 })
    }
}

/// `n * sx2 - sx^2`, which is `n^2` times the second central moment.
pub open spec fn spec_central2_scaled(s: StatsState) -> i128 {
    wrap128(wrap128(s.n * s.sx2) - wrap128(s.sx * s.sx))
}

/// `n^3` times the third central moment:
/// `n^2 * sx3 - 3n * sx * sx2 + 2 * sx^3`.
pub open spec fn spec_central3_scaled(s: StatsState) -> i128 {
    let t1 = wrap128(wrap128(s.n * s.n) * s.sx3);
    let t2 = wrap128(3 * wrap128(s.n * wrap128(s.sx * s.sx2)));
    let t3 = wrap128(2 * wrap128(s.sx * wrap128(s.sx * s.sx)));
    wrap128(wrap128(t1 - t2) + t3)
}

/// `n^4` times the fourth central moment:
/// `n^3 * sx4 - 4n^2 * sx * sx3 + 6n * sx^2 * sx2 - 3 * sx^4`.
pub open spec fn spec_central4_scaled(s: StatsState) -> i128 {
    let n2 = wrap128(s.n * s.n);
    let sxsx = wrap128(s.sx * s.sx);
    let q1 = wrap128(wrap128(n2 * s.n) * s.sx4);
    let q2 = wrap128(4 * wrap128(n2 * wrap128(s.sx * s.sx3)));
    let q3 = wrap128(6 * wrap128(s.n * wrap128(sxsx * s.sx2)));
    let q4 = wrap128(3 * wrap128(sxsx * sxsx));
    wrap128(wrap128(q1 - q2) + wrap128(q3 - q4))
}

/// Sample variance: `(n * sx2 - sx^2) / (n * (n - 1))`, absent below two
/// values.
pub open spec fn spec_stats_variance(s: StatsState) -> Option<Ratio> {
    if s.n < 2 {
        None
    } else {
        Some(Ratio { num: spec_central2_scaled(s), den: (s.n * (s.n - 1)) as u128 })
    }
}

/// Squared skewness: third central moment squared over the second cubed;
/// the `n` scale factors cancel exactly.
pub open spec fn spec_stats_skewness_squared(s: StatsState) -> Option<Ratio> {
    if s.n < 2 {
        None
    } else {
        let p = spec_central2_scaled(s);
        let den = wrap128(wrap128(p * p) * p);
        if den <= 0 {
            None
        } else {
            let s3 = spec_central3_scaled(s);
            Some(Ratio { num: wrap128(s3 * s3), den: den as u128 })
        }
    }
}

/// Kurtosis: fourth central moment over the second squared; the `n` scale
/// factors cancel exactly.
pub open spec fn spec_stats_kurtosis(s: StatsState) -> Option<Ratio> {
    if s.n < 2 {
        None
    } else {
        let p = spec_central2_scaled(s);
        let den = wrap128(p * p);
        if den <= 0 {
            None
        } else {
            Some(Ratio { num: spec_central4_scaled(s), den: den as u128 })
        }
    }
}

/// Merging is commutative: both orders give the same state.
pub proof fn lemma_stats_merge_commutes(a: StatsState, b: StatsState)
    ensures
        spec_merge(a, b) == spec_merge(b, a),
{
}

/// Wrapped addition of three terms associates.
pub proof fn lemma_wrap128_assoc(x: int, y: int, z: int)
    ensures
        wrap128(wrap128(x + y) + z) == wrap128(x + wrap128(y + z)),
{
    lemma_wrap128_add(x + y, z);
    lemma_wrap128_add(y + z, x);
}

/// Wrapped 64-bit addition of three terms associates.
pub proof fn lemma_wrap64_assoc(x: int, y: int, z: int)
    ensures
        wrap64(wrap64(x + y) + z) == wrap64(x + wrap64(y + z)),
{
    lemma_wrap64_add(x + y, z);
    lemma_wrap64_add(y + z, x);
}

/// Merging is associative: any merge tree over the same partials gives the
/// same state.
pub proof fn lemma_stats_merge_associative(a: StatsState, b: StatsState, c: StatsState)
    ensures
        spec_merge(spec_merge(a, b), c) == spec_merge(a, spec_merge(b, c)),
{
    lemma_wrap64_assoc(a.n as int, b.n as int, c.n as int);
    lemma_wrap128_assoc(a.sx as int, b.sx as int, c.sx as int);
    lemma_wrap128_assoc(a.sx2 as int, b.sx2 as int, c.sx2 as int);
    lemma_wrap128_assoc(a.sx3 as int, b.sx3 as int, c.sx3 as int);
    lemma_wrap128_assoc(a.sx4 as int, b.sx4 as int, c.sx4 as int);
}

/// The empty state is the identity of merging.
pub proof fn lemma_stats_merge_empty(a: StatsState)
    ensures
        spec_merge(a, spec_stats_empty()) == a,
        spec_merge(spec_stats_empty(), a) == a,
{
    vstd::arithmetic::div_mod::lemma_small_mod(a.n as nat, crate::wrap::range64() as nat);
    lemma_wrap128_small(a.sx as int);
    lemma_wrap128_small(a.sx2 as int);
    lemma_wrap128_small(a.sx3 as int);
    lemma_wrap128_small(a.sx4 as int);
}

/// Accumulating into a merged state is merging with the accumulated state:
/// accumulation and merging commute.
pub proof fn lemma_stats_merge_accum(a: StatsState, b: StatsState, v: i64)
    ensures
        spec_merge(a, spec_accum(b, v)) == spec_accum(spec_merge(a, b), v),
{
    lemma_wrap64_add(b.n + 1, a.n as int);
    lemma_wrap64_add(a.n + b.n, 1);
    lemma_wrap128_add(b.sx + v, a.sx as int);
    lemma_wrap128_add(a.sx + b.sx, v as int);
    lemma_wrap128_add(b.sx2 + spec_pow2(v as int), a.sx2 as int);
    lemma_wrap128_add(a.sx2 + b.sx2, spec_pow2(v as int) as int);
    lemma_wrap128_add(b.sx3 + spec_pow3(v as int), a.sx3 as int);
    lemma_wrap128_add(a.sx3 + b.sx3, spec_pow3(v as int) as int);
    lemma_wrap128_add(b.sx4 + spec_pow4(v as int), a.sx4 as int);
    lemma_wrap128_add(a.sx4 + b.sx4, spec_pow4(v as int) as int);
}

/// Accumulation is order-insensitive: two values fold in the same whichever
/// arrives first, so the state of a sample does not depend on input order.
pub proof fn lemma_stats_accum_commutes(s: StatsState, v: i64, w: i64)
    ensures
        spec_accum(spec_accum(s, v), w) == spec_accum(spec_accum(s, w), v),
{
    lemma_wrap64_assoc(s.n as int, 1, 1);
    lemma_wrap128_assoc(s.sx as int, v as int, w as int);
    lemma_wrap128_assoc(s.sx as int, w as int, v as int);
    lemma_wrap128_assoc(s.sx2 as int, spec_pow2(v as int) as int, spec_pow2(w as int) as int);
    lemma_wrap128_assoc(s.sx2 as int, spec_pow2(w as int) as int, spec_pow2(v as int) as int);
    lemma_wrap128_assoc(s.sx3 as int, spec_pow3(v as int) as int, spec_pow3(w as int) as int);
    lemma_wrap128_assoc(s.sx3 as int, spec_pow3(w as int) as int, spec_pow3(v as int) as int);
    lemma_wrap128_assoc(s.sx4 as int, spec_pow4(v as int) as int, spec_pow4(w as int) as int);
    lemma_wrap128_assoc(s.sx4 as int, spec_pow4(w as int) as int, spec_pow4(v as int) as int);
}

/// Merging a state with one built from a point sequence is accumulating that
/// sequence into the state.
pub proof fn lemma_stats_merge_seq(a: StatsState, b: StatsState, pts: Seq<Point>)
    ensures
        spec_merge(a, spec_accum_seq(b, pts)) == spec_accum_seq(spec_merge(a, b), pts),
    decreases pts.len(),
{
    if pts.len() > 0 {
        lemma_stats_merge_seq(a, b, pts.drop_last());
        lemma_stats_merge_accum(a, spec_accum_seq(b, pts.drop_last()), pts.last().val);
    }
}

/// Accumulating a concatenation is accumulating each part in turn.
pub proof fn lemma_stats_accum_seq_append(s: StatsState, a: Seq<Point>, b: Seq<Point>)
    ensures
        spec_accum_seq(s, a + b) == spec_accum_seq(spec_accum_seq(s, a), b),
    decreases b.len(),
{
    if b.len() == 0 {
        assert(a + b =~= a);
    } else {
        lemma_stats_accum_seq_append(s, a, b.drop_last());
        assert((a + b).drop_last() =~= a + b.drop_last());
        assert((a + b).last() == b.last());
    }
}

/// Partial aggregation is exact: accumulating two point sequences separately
/// and merging the partial states gives the state of the concatenation.
pub proof fn lemma_stats_partition(s1: Seq<Point>, s2: Seq<Point>)
    ensures
        spec_merge(
            spec_accum_seq(spec_stats_empty(), s1),
            spec_accum_seq(spec_stats_empty(), s2),
        ) == spec_accum_seq(spec_stats_empty(), s1 + s2),
{
    let a = spec_accum_seq(spec_stats_empty(), s1);
    lemma_stats_merge_seq(a, spec_stats_empty(), s2);
    lemma_stats_merge_empty(a);
    lemma_stats_accum_seq_append(spec_stats_empty(), s1, s2);
}

} // verus!

