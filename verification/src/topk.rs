use vstd::prelude::*;

verus! {

// A bounded top-K selection aggregate: it retains at most `capacity`
// (key, payload) pairs, keeping the best-keyed ones under a configured
// direction.  A newly arriving item whose key only equals the current worst
// retained key is not admitted: the first-seen of equal keys wins.  Merging
// behaves exactly as inserting every pair of the second state, in its
// retained order, into the first.

/// Which keys count as better: larger ones or smaller ones.
#[derive(Clone, Copy, PartialEq, Eq, Structural, Debug)]
pub enum Direction {
    Largest,
    Smallest,
}

/// Why a top-K operation was refused.
#[derive(Clone, Copy, PartialEq, Eq, Structural, Debug)]
pub enum TopKError {
    /// A capacity of zero retains nothing and is rejected at construction.
    ZeroCapacity,
    /// States built with different capacities or directions cannot merge.
    MismatchedStates,
}

/// `a` is strictly better than `b` under the direction.
pub open spec fn beats(dir: Direction, a: i64, b: i64) -> bool {
    match dir {
        Direction::Largest => a > b,
        Direction::Smallest => a < b,
    }
}

/// The index of the worst retained key; the earliest index among equals.
pub open spec fn spec_worst_index<P>(dir: Direction, s: Seq<(i64, P)>) -> int
    decreases s.len(),
{
    if s.len() <= 1 {
        0
    } else {
        let w = spec_worst_index(dir, s.drop_last());
        if beats(dir, s[w].0, s.last().0) {
            s.len() - 1
        } else {
            w
        }
    }
}

/// The worst index is in range, beats nobody, and every earlier item beats
/// it strictly.
pub proof fn lemma_worst_index_props<P>(dir: Direction, s: Seq<(i64, P)>)
    requires
        s.len() >= 1,
    ensures
        0 <= spec_worst_index(dir, s) < s.len(),
        forall|j: int|
            0 <= j < s.len() ==> !beats(dir, s[spec_worst_index(dir, s)].0, #[trigger] s[j].0),
        forall|j: int|
            0 <= j < spec_worst_index(dir, s) ==> beats(
                dir,
                #[trigger] s[j].0,
                s[spec_worst_index(dir, s)].0,
            ),
    decreases s.len(),
{
    if s.len() > 1 {
        let pre = s.drop_last();
        lemma_worst_index_props(dir, pre);
        let wp = spec_worst_index(dir, pre);
        assert(forall|j: int| 0 <= j < pre.len() ==> pre[j] == #[trigger] s[j]);
        if beats(dir, s[wp].0, s.last().0) {
            let w = s.len() - 1;
            assert forall|j: int| 0 <= j < w implies beats(dir, #[trigger] s[j].0, s[w].0) by {
                assert(!beats(dir, pre[wp].0, pre[j].0));
            }
        }
    }
}

/// One insertion into a retained set at capacity `cap`: admit freely below
/// capacity; at capacity, evict the worst only for a strictly better key.
pub open spec fn spec_topk_insert<P>(
    dir: Direction,
    cap: nat,
    s: Seq<(i64, P)>,
    key: i64,
    payload: P,
) -> Seq<(i64, P)> {
    if s.len() < cap {
        s.push((key, payload))
    } else if s.len() == 0 {
        s
    } else {
        let w = spec_worst_index(dir, s);
        if beats(dir, key, s[w].0) {
            s.remove(w).push((key, payload))
        } else {
            s
        }
    }
}

/// Merging folds the second state's pairs, in retained order, into the
/// first.
pub open spec fn spec_topk_merge<P>(
    dir: Direction,
    cap: nat,
    a: Seq<(i64, P)>,
    b: Seq<(i64, P)>,
) -> Seq<(i64, P)>
    decreases b.len(),
{
    if b.len() == 0 {
        a
    } else {
        spec_topk_insert(
            dir,
            cap,
            spec_topk_merge(dir, cap, a, b.drop_last()),
            b.last().0,
            b.last().1,
        )
    }
}

/// Insert an item after every retained item whose key is better or equal:
/// the rightmost position that keeps the order, so equal keys retain
/// insertion order.
pub open spec fn spec_insert_ranked<P>(dir: Direction, s: Seq<(i64, P)>, item: (i64, P)) -> Seq<
    (i64, P),
>
    decreases s.len(),
{
    if s.len() == 0 {
        seq![item]
    } else if !beats(dir, item.0, s.last().0) {
        s.push(item)
    } else {
        spec_insert_ranked(dir, s.drop_last(), item).push(s.last())
    }
}

/// The retained pairs ordered best key first, ties by insertion order.
pub open spec fn spec_rank_sort<P>(dir: Direction, s: Seq<(i64, P)>) -> Seq<(i64, P)>
    decreases s.len(),
{
    if s.len() == 0 {
        Seq::empty()
    } else {
        spec_insert_ranked(dir, spec_rank_sort(dir, s.drop_last()), s.last())
    }
}

/// Bounded retention of the best-keyed payloads seen so far.
pub struct TopKState<P> {
    /// Fixed at construction; identical across states that merge.
    pub capacity: usize,
    /// Fixed at construction; identical across states that merge.
    pub direction: Direction,
    /// The retained pairs, in insertion order.
    pub kept: Vec<(i64, P)>,
}

impl<P> TopKState<P> {
    /// At most `capacity` pairs are retained, and a state retains anything
    /// only with a positive capacity.
    pub open spec fn wf(self) -> bool {
        self.capacity >= 1 && self.kept@.len() <= self.capacity
    }

    /// A fresh empty state; a capacity of zero is a configuration error.
    pub fn new(capacity: usize, direction: Direction) -> (r: Result<TopKState<P>, TopKError>)
        ensures
            capacity == 0 ==> r == Err::<TopKState<P>, TopKError>(TopKError::ZeroCapacity),
            capacity >= 1 ==> r is Ok && r->Ok_0.capacity == capacity && r->Ok_0.direction
                == direction && r->Ok_0.kept@ =~= Seq::<(i64, P)>::empty() && r->Ok_0.wf(),
    {
        if capacity == 0 {
            Err(TopKError::ZeroCapacity)
        } else {
            Ok(TopKState { capacity, direction, kept: Vec::new() })
        }
    }

    /// The index of the worst retained key.
    fn worst_index(&self) -> (r: usize)
        requires
            self.kept@.len() >= 1,
        ensures
            r == spec_worst_index(self.direction, self.kept@),
    {
        let mut w: usize = 0;
        let mut i: usize = 1;
        let n = self.kept.len();
        while i < n
            invariant
                1 <= i <= n,
                n == self.kept@.len(),
                w < i,
                w == spec_worst_index(self.direction, self.kept@.take(i as int)),
            decreases n - i,
        {
            proof {
                assert(self.kept@.take(i + 1).drop_last() =~= self.kept@.take(i as int));
                assert(self.kept@.take(i + 1).last() == self.kept@[i as int]);
                lemma_worst_index_props(self.direction, self.kept@.take(i + 1));
            }
            if beats_exec(self.direction, self.kept[w].0, self.kept[i].0) {
                w = i;
            }
            i = i + 1;
        }
        proof {
            assert(self.kept@.take(n as int) =~= self.kept@);
        }
        w
    }

    /// Offer one (key, payload) pair to the state.
    pub fn insert(&mut self, key: i64, payload: P)
        requires
            old(self).wf(),
        ensures
            final(self).kept@ == spec_topk_insert(
                old(self).direction,
                old(self).capacity as nat,
                old(self).kept@,
                key,
                payload,
            ),
            final(self).capacity == old(self).capacity,
            final(self).direction == old(self).direction,
            final(self).wf(),
    {
        if self.kept.len() < self.capacity {
            self.kept.push((key, payload));
        } else {
            let w = self.worst_index();
            proof {
                lemma_worst_index_props(self.direction, self.kept@);
            }
            if beats_exec(self.direction, key, self.kept[w].0) {
                self.kept.remove(w);
                self.kept.push((key, payload));
            }
        }
    }

    /// Combine with another state of the same configuration, as though every
    /// pair it retains were inserted here in its retained order.  Merging
    /// states of different configurations is refused and leaves this state
    /// unchanged.
    pub fn merge(&mut self, other: TopKState<P>) -> (r: Result<(), TopKError>)
        requires
            old(self).wf(),
            other.wf(),
        ensures
            final(self).capacity == old(self).capacity,
            final(self).direction == old(self).direction,
            final(self).wf(),
            old(self).capacity == other.capacity && old(self).direction == other.direction ==> r
                is Ok && final(self).kept@ == spec_topk_merge(
                old(self).direction,
                old(self).capacity as nat,
                old(self).kept@,
                other.kept@,
            ),
            !(old(self).capacity == other.capacity && old(self).direction == other.direction)
                ==> r == Err::<(), TopKError>(TopKError::MismatchedStates) && *final(self) == *old(
                self,
            ),
    {
        if !(self.capacity == other.capacity && direction_eq(self.direction, other.direction)) {
            return Err(TopKError::MismatchedStates);
        }
        let ghost b0 = other.kept@;
        let mut rest = other.kept;
        let ghost dir = self.direction;
        let ghost cap = self.capacity as nat;
        let ghost a0 = self.kept@;
        let mut i: usize = 0;
        let n = rest.len();
        while i < n
            invariant
                i <= n,
                n == b0.len(),
                rest@ == b0.skip(i as int),
                self.kept@ == spec_topk_merge(dir, cap, a0, b0.take(i as int)),
                self.capacity as nat == cap,
                self.direction == dir,
                self.wf(),
            decreases n - i,
        {
            let (key, payload) = rest.remove(0);
            proof {
                assert(b0.skip(i as int)[0] == b0[i as int]);
                assert(b0.skip(i as int).remove(0) =~= b0.skip(i + 1));
                assert(b0.take(i + 1).drop_last() =~= b0.take(i as int));
                assert(b0.take(i + 1).last() == b0[i as int]);
            }
            self.insert(key, payload);
            i = i + 1;
        }
        proof {
            assert(b0.take(n as int) =~= b0);
        }
        Ok(())
    }

    /// The retained pairs, best key first, equal keys in insertion order.
    /// Finalizing consumes the state; the result is a pure function of it.
    pub fn finalize(self) -> (r: Vec<(i64, P)>)
        ensures
            r@ == spec_rank_sort(self.direction, self.kept@),
    {
        let dir = self.direction;
        let mut rest = self.kept;
        let ghost k0 = rest@;
        let mut out: Vec<(i64, P)> = Vec::new();
        let n = rest.len();
        let mut i: usize = 0;
        while i < n
            invariant
                i <= n,
                n == k0.len(),
                rest@ == k0.skip(i as int),
                out@ == spec_rank_sort(dir, k0.take(i as int)),
            decreases n - i,
        {
            let item = rest.remove(0);
            proof {
                assert(k0.skip(i as int)[0] == k0[i as int]);
                assert(k0.skip(i as int).remove(0) =~= k0.skip(i + 1));
            }
            let mut j: usize = out.len();
            while j > 0 && beats_exec(dir, item.0, out[j - 1].0)
                invariant
                    j <= out@.len(),
                    forall|k: int| j <= k < out@.len() ==> beats(dir, item.0, #[trigger] out@[k].0),
                decreases j,
            {
                j = j - 1;
            }
            proof {
                lemma_ranked_insert_position(dir, out@, item, j as int);
                assert(k0.take(i + 1).drop_last() =~= k0.take(i as int));
                assert(k0.take(i + 1).last() == k0[i as int]);
            }
            out.insert(j, item);
            i = i + 1;
        }
        proof {
            assert(k0.take(n as int) =~= k0);
        }
        out
    }

    /// How many pairs are retained.
    pub fn len(&self) -> (r: usize)
        ensures
            r == self.kept@.len(),
    {
        self.kept.len()
    }
}

/// Exec comparison mirroring `beats`.
fn beats_exec(dir: Direction, a: i64, b: i64) -> (r: bool)
    ensures
        r == beats(dir, a, b),
{
    match dir {
        Direction::Largest => a > b,
        Direction::Smallest => a < b,
    }
}

/// Exec equality of directions.
fn direction_eq(a: Direction, b: Direction) -> (r: bool)
    ensures
        r == (a == b),
{
    match (a, b) {
        (Direction::Largest, Direction::Largest) => true,
        (Direction::Smallest, Direction::Smallest) => true,
        _ => false,
    }
}

/// Inserting at the first position from the right whose predecessor's key is
/// not beaten is what `spec_insert_ranked` does.
proof fn lemma_ranked_insert_position<P>(dir: Direction, s: Seq<(i64, P)>, item: (i64, P), j: int)
    requires
        0 <= j <= s.len(),
        forall|k: int| j <= k < s.len() ==> beats(dir, item.0, #[trigger] s[k].0),
        j > 0 ==> !beats(dir, item.0, s[j - 1].0),
    ensures
        spec_insert_ranked(dir, s, item) == s.insert(j, item),
    decreases s.len(),
{
    if s.len() == 0 {
        assert(spec_insert_ranked(dir, s, item) =~= s.insert(0, item));
    } else if !beats(dir, item.0, s.last().0) {
        assert(j == s.len());
        assert(s.push(item) =~= s.insert(j, item));
    } else {
        assert(j < s.len());
        lemma_ranked_insert_position(dir, s.drop_last(), item, j);
        assert(spec_insert_ranked(dir, s.drop_last(), item).push(s.last()) =~= s.insert(j, item));
    }
}

} // verus!
