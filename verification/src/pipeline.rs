use vstd::prelude::*;
use crate::point::Point;
use crate::wrap::{wrapi64, wadd_i64, wsub_i64, wmul_i64};

verus! {

// A pipeline is an ordered chain of transform elements applied to a
// timevector left to right.  Every element except `Sort` maps each point's
// value independently and preserves timestamps, count and order; `Sort`
// reorders points by timestamp ascending, stably.
//
// Values are 64-bit integers, so the rounding elements `Ceil` and `Floor`
// leave every value unchanged; they stay in the closed variant so that a
// chain built around them keeps its shape through fusion.  Arithmetic wraps
// modulo 2^64, which keeps every element total.

/// One transform over a timevector.
#[derive(Clone, Copy, PartialEq, Eq, Structural, Debug)]
pub enum Element {
    /// Add a fixed right-hand operand to every value, wrapping.
    Plus(i64),
    /// Subtract a fixed right-hand operand from every value, wrapping.
    Minus(i64),
    /// Multiply every value by a fixed right-hand operand, wrapping.
    Times(i64),
    /// Absolute value; the minimum value saturates to the maximum.
    Abs,
    /// Round every value up to an integer: the identity on this value domain.
    Ceil,
    /// Round every value down to an integer: the identity on this value domain.
    Floor,
    /// Reorder points by timestamp ascending; equal timestamps keep their
    /// relative input order.
    Sort,
}

/// What a value-mapping element does to one value.
pub open spec fn spec_map_val(e: Element, v: i64) -> i64 {
    match e {
        Element::Plus(rhs) => wrapi64(v + rhs),
        Element::Minus(rhs) => wrapi64(v - rhs),
        Element::Times(rhs) => wrapi64(v * rhs),
        Element::Abs => if v == i64::MIN { i64::MAX } else if v < 0 { (-v) as i64 } else { v },
        Element::Ceil => v,
        Element::Floor => v,
        Element::Sort => v,  // never consulted: Sort reorders and maps no value
    }
}

/// The sequence is ordered by timestamp ascending.
pub open spec fn sorted_by_ts(s: Seq<Point>) -> bool {
    forall|i: int, j: int| 0 <= i < j < s.len() ==> s[i].ts <= s[j].ts
}

/// Insert `p` after every element whose timestamp is at most `p.ts`: the
/// rightmost stable position.
pub open spec fn spec_insert_by_ts(s: Seq<Point>, p: Point) -> Seq<Point>
    decreases s.len(),
{
    if s.len() == 0 {
        seq![p]
    } else if s.last().ts <= p.ts {
        s.push(p)
    } else {
        spec_insert_by_ts(s.drop_last(), p).push(s.last())
    }
}

/// Stable sort by timestamp: insert each point, left to right, at the
/// rightmost position that keeps the result ordered.  Equal timestamps
/// therefore retain their relative input order.
pub open spec fn spec_stable_sort(s: Seq<Point>) -> Seq<Point>
    decreases s.len(),
{
    if s.len() == 0 {
        Seq::empty()
    } else {
        spec_insert_by_ts(spec_stable_sort(s.drop_last()), s.last())
    }
}

/// What one element does to a whole timevector.
pub open spec fn spec_apply(e: Element, s: Seq<Point>) -> Seq<Point> {
    match e {
        Element::Sort => spec_stable_sort(s),
        _ => s.map_values(|p: Point| Point { ts: p.ts, val: spec_map_val(e, p.val) }),
    }
}

/// Evaluate a chain of elements left to right.
pub open spec fn spec_run(elems: Seq<Element>, s: Seq<Point>) -> Seq<Point>
    decreases elems.len(),
{
    if elems.len() == 0 {
        s
    } else {
        spec_apply(elems.last(), spec_run(elems.drop_last(), s))
    }
}

/// Evaluating a concatenated chain is evaluating the first chain, then the
/// second: the fact that lets fusion concatenate element lists.
pub proof fn lemma_run_append(a: Seq<Element>, b: Seq<Element>, s: Seq<Point>)
    ensures
        spec_run(a + b, s) == spec_run(b, spec_run(a, s)),
    decreases b.len(),
{
    if b.len() == 0 {
        assert(a + b =~= a);
    } else {
        lemma_run_append(a, b.drop_last(), s);
        assert((a + b).drop_last() =~= a + b.drop_last());
        assert((a + b).last() == b.last());
    }
}

/// An ordered chain of transform elements.
pub struct Pipeline {
    pub elements: Vec<Element>,
}

impl Pipeline {
    /// A pipeline with no elements: the identity over timevectors.
    pub fn new() -> (r: Pipeline)
        ensures
            r.elements@ =~= Seq::<Element>::empty(),
    {
        Pipeline { elements: Vec::new() }
    }

    /// Attach one more element at the end of the chain.
    pub fn append(&mut self, e: Element)
        ensures
            final(self).elements@ == old(self).elements@.push(e),
    {
        self.elements.push(e);
    }
}

/// Map one value through a value-mapping element.
fn map_val(e: Element, v: i64) -> (r: i64)
    ensures
        r == spec_map_val(e, v),
{
    match e {
        Element::Plus(rhs) => wadd_i64(v, rhs),
        Element::Minus(rhs) => wsub_i64(v, rhs),
        Element::Times(rhs) => wmul_i64(v, rhs),
        Element::Abs => {
            if v == i64::MIN {
                i64::MAX
            } else if v < 0 {
                -v
            } else {
                v
            }
        },
        Element::Ceil => v,
        Element::Floor => v,
        Element::Sort => v,
    }
}

/// Everything at or past index `hi` in `s` has a timestamp above `p.ts`.
spec fn tail_above(s: Seq<Point>, hi: int, p: Point) -> bool {
    forall|k: int| hi <= k < s.len() ==> s[k].ts > p.ts
}

/// Inserting at the first position from the right whose predecessor is not
/// above `p.ts` is what `spec_insert_by_ts` does.
proof fn lemma_insert_position(s: Seq<Point>, p: Point, j: int)
    requires
        0 <= j <= s.len(),
        tail_above(s, j, p),
        j > 0 ==> s[j - 1].ts <= p.ts,
    ensures
        spec_insert_by_ts(s, p) == s.insert(j, p),
    decreases s.len(),
{
    if s.len() == 0 {
        assert(spec_insert_by_ts(s, p) =~= s.insert(0, p));
    } else if s.last().ts <= p.ts {
        assert(j == s.len());
        assert(s.push(p) =~= s.insert(j, p));
    } else {
        assert(j < s.len());
        lemma_insert_position(s.drop_last(), p, j);
        assert(spec_insert_by_ts(s.drop_last(), p).push(s.last()) =~= s.insert(j, p));
    }
}

/// Stable sort by timestamp, by insertion.
fn stable_sort(tv: &Vec<Point>) -> (r: Vec<Point>)
    ensures
        r@ == spec_stable_sort(tv@),
{
    let mut out: Vec<Point> = Vec::new();
    let n = tv.len();
    let mut i: usize = 0;
    while i < n
        invariant
            n == tv@.len(),
            i <= n,
            out@ == spec_stable_sort(tv@.take(i as int)),
        decreases n - i,
    {
        let p = tv[i];
        let mut j: usize = out.len();
        while j > 0 && out[j - 1].ts > p.ts
            invariant
                j <= out@.len(),
                tail_above(out@, j as int, p),
            decreases j,
        {
            j = j - 1;
        }
        proof {
            lemma_insert_position(out@, p, j as int);
            assert(tv@.take(i + 1).drop_last() =~= tv@.take(i as int));
            assert(tv@.take(i + 1).last() == tv@[i as int]);
        }
        out.insert(j, p);
        i = i + 1;
    }
    proof {
        assert(tv@.take(n as int) =~= tv@);
    }
    out
}

/// Apply one element to a whole timevector.
pub fn apply_element(e: &Element, tv: Vec<Point>) -> (r: Vec<Point>)
    ensures
        r@ == spec_apply(*e, tv@),
{
    match e {
        Element::Sort => stable_sort(&tv),
        _ => {
            let mut out: Vec<Point> = Vec::new();
            let n = tv.len();
            let mut i: usize = 0;
            while i < n
                invariant
                    n == tv@.len(),
                    i <= n,
                    !(e is Sort),
                    out@ == tv@.take(i as int).map_values(
                        |p: Point| Point { ts: p.ts, val: spec_map_val(*e, p.val) },
                    ),
                decreases n - i,
            {
                let p = tv[i];
                let v = map_val(*e, p.val);
                out.push(Point { ts: p.ts, val: v });
                proof {
                    assert(tv@.take(i + 1) =~= tv@.take(i as int).push(tv@[i as int]));
                    assert(tv@.take(i + 1).map_values(
                        |q: Point| Point { ts: q.ts, val: spec_map_val(*e, q.val) },
                    ) =~= tv@.take(i as int).map_values(
                        |q: Point| Point { ts: q.ts, val: spec_map_val(*e, q.val) },
                    ).push(Point { ts: p.ts, val: v }));
                }
                i = i + 1;
            }
            proof {
                assert(tv@.take(n as int) =~= tv@);
            }
            out
        },
    }
}

/// Evaluate every element of the chain in order over the timevector.
pub fn run_elements(elements: &Vec<Element>, tv: Vec<Point>) -> (r: Vec<Point>)
    ensures
        r@ == spec_run(elements@, tv@),
{
    let ghost orig = tv@;
    let mut cur = tv;
    let n = elements.len();
    let mut i: usize = 0;
    while i < n
        invariant
            n == elements@.len(),
            i <= n,
            cur@ == spec_run(elements@.take(i as int), orig),
        decreases n - i,
    {
        cur = apply_element(&elements[i], cur);
        proof {
            assert(elements@.take(i + 1).drop_last() =~= elements@.take(i as int));
            assert(elements@.take(i + 1).last() == elements@[i as int]);
        }
        i = i + 1;
    }
    proof {
        assert(elements@.take(n as int) =~= elements@);
    }
    cur
}

/// Evaluate a pipeline over a timevector.
pub fn evaluate(p: &Pipeline, tv: Vec<Point>) -> (r: Vec<Point>)
    ensures
        r@ == spec_run(p.elements@, tv@),
{
    run_elements(&p.elements, tv)
}

} // verus!
