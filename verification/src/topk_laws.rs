use vstd::prelude::*;
use crate::topk::{Direction, beats, spec_topk_insert, spec_topk_merge, spec_worst_index,
    lemma_worst_index_props};
use vstd::set_lib::{lemma_len_subset, lemma_set_disjoint_lens};

verus! {

// The retained set of a bounded top-K state is, whenever no two items share
// a key, exactly the pairs whose key fewer than `capacity` other keys beat.
// That characterization is symmetric in the inputs, so merging is
// commutative and associative on retained sets: the laws at the end of this
// file.  With equal keys the insertion tie-break (first seen wins) makes the
// retained payloads depend on merge order, so the laws assume distinct keys.

/// No two pairs of the set share a key.
pub open spec fn unique_keys<P>(s: Set<(i64, P)>) -> bool {
    forall|x: (i64, P), y: (i64, P)|
        s.contains(x) && s.contains(y) && x != y ==> x.0 != y.0
}

/// No two pairs of the sequence share a key.
pub open spec fn seq_unique_keys<P>(s: Seq<(i64, P)>) -> bool {
    forall|i: int, j: int| 0 <= i < j < s.len() ==> s[i].0 != s[j].0
}

/// The two sequences share no key.
pub open spec fn disjoint_keys<P>(a: Seq<(i64, P)>, b: Seq<(i64, P)>) -> bool {
    forall|i: int, j: int|
        0 <= i < a.len() && 0 <= j < b.len() ==> #[trigger] a[i].0 != #[trigger] b[j].0
}

/// The pairs of `s` whose key strictly beats `k`.
pub open spec fn betters<P>(dir: Direction, s: Set<(i64, P)>, k: i64) -> Set<(i64, P)> {
    s.filter(|x: (i64, P)| beats(dir, x.0, k))
}

/// How many pairs of `s` strictly beat `k`.
pub open spec fn rank<P>(dir: Direction, s: Set<(i64, P)>, k: i64) -> nat {
    betters(dir, s, k).len()
}

/// The pairs that belong to the bounded top of `s`: those beaten by fewer
/// than `cap` pairs.
pub open spec fn top_pairs<P>(dir: Direction, cap: nat, s: Set<(i64, P)>) -> Set<(i64, P)> {
    s.filter(|x: (i64, P)| rank(dir, s, x.0) < cap)
}

/// The smaller of two set sizes.
pub open spec fn min_nat(a: nat, b: nat) -> nat {
    if a <= b {
        a
    } else {
        b
    }
}

/// Ranks only grow when the set grows.
proof fn lemma_rank_mono<P>(dir: Direction, s1: Set<(i64, P)>, s2: Set<(i64, P)>, k: i64)
    requires
        s1.subset_of(s2),
        s2.finite(),
    ensures
        rank(dir, s1, k) <= rank(dir, s2, k),
        betters(dir, s1, k).finite(),
        betters(dir, s2, k).finite(),
{
    s2.lemma_len_filter(|x: (i64, P)| beats(dir, x.0, k));
    assert(betters(dir, s1, k).subset_of(betters(dir, s2, k)));
    lemma_len_subset(betters(dir, s1, k), betters(dir, s2, k));
}

/// In a set with unique keys, every pair's rank is below the set's size.
proof fn lemma_rank_lt_len<P>(dir: Direction, s: Set<(i64, P)>, x: (i64, P))
    requires
        s.finite(),
        unique_keys(s),
        s.contains(x),
    ensures
        rank(dir, s, x.0) < s.len(),
{
    assert(betters(dir, s, x.0).subset_of(s.remove(x))) by {
        assert forall|y: (i64, P)| betters(dir, s, x.0).contains(y) implies s.remove(x).contains(
            y,
        ) by {
            assert(!beats(dir, x.0, x.0));
        }
    }
    lemma_len_subset(betters(dir, s, x.0), s.remove(x));
}

/// A set of at most `cap` pairs with unique keys is its own bounded top.
proof fn lemma_small_top<P>(dir: Direction, cap: nat, s: Set<(i64, P)>)
    requires
        s.finite(),
        unique_keys(s),
        s.len() <= cap,
    ensures
        top_pairs(dir, cap, s) == s,
{
    assert forall|x: (i64, P)| s.contains(x) implies top_pairs(dir, cap, s).contains(x) by {
        lemma_rank_lt_len(dir, s, x);
    }
    assert(top_pairs(dir, cap, s) =~= s);
}

/// Appending to a sequence inserts into its set of pairs.
proof fn lemma_push_to_set<T>(s: Seq<T>, x: T)
    ensures
        s.push(x).to_set() == s.to_set().insert(x),
{
    assert(s.push(x) =~= s + seq![x]);
    Seq::lemma_to_set_insert_commutes(s, x);
}

/// Removing an index of a duplicate-free sequence removes that pair from its
/// set.
proof fn lemma_remove_to_set<T>(s: Seq<T>, i: int)
    requires
        0 <= i < s.len(),
        s.no_duplicates(),
    ensures
        s.remove(i).to_set() == s.to_set().remove(s[i]),
        s.remove(i).no_duplicates(),
{
    let t = s.remove(i);
    assert forall|x: T| t.to_set().contains(x) implies s.to_set().remove(s[i]).contains(x) by {
        let k = choose|k: int| 0 <= k < t.len() && t[k] == x;
        if k < i {
            assert(s[k] == x);
        } else {
            assert(s[k + 1] == x);
        }
    }
    assert forall|x: T| s.to_set().remove(s[i]).contains(x) implies t.to_set().contains(x) by {
        let k = choose|k: int| 0 <= k < s.len() && s[k] == x;
        assert(k != i);
        if k < i {
            assert(t[k] == x);
        } else {
            assert(t[k - 1] == x);
        }
    }
    assert(t.to_set() =~= s.to_set().remove(s[i]));
}

/// One insertion step preserves the characterization: starting from a
/// retained sequence that is exactly the bounded top of the pairs seen so
/// far, inserting a pair with a fresh key retains exactly the bounded top of
/// the seen pairs plus the new one.
proof fn lemma_insert_step<P>(
    dir: Direction,
    cap: nat,
    s: Seq<(i64, P)>,
    seen: Set<(i64, P)>,
    key: i64,
    payload: P,
)
    requires
        cap >= 1,
        seen.finite(),
        unique_keys(seen),
        seq_unique_keys(s),
        s.no_duplicates(),
        s.to_set() == top_pairs(dir, cap, seen),
        s.len() == min_nat(cap, seen.len()),
        forall|x: (i64, P)| seen.contains(x) ==> #[trigger] x.0 != key,
    ensures
        spec_topk_insert(dir, cap, s, key, payload).to_set() == top_pairs(
            dir,
            cap,
            seen.insert((key, payload)),
        ),
        seq_unique_keys(spec_topk_insert(dir, cap, s, key, payload)),
        spec_topk_insert(dir, cap, s, key, payload).no_duplicates(),
        spec_topk_insert(dir, cap, s, key, payload).len() == min_nat(cap, seen.len() + 1),
{
    let np = (key, payload);
    let seen2 = seen.insert(np);
    let r = spec_topk_insert(dir, cap, s, key, payload);
    assert(!seen.contains(np)) by {
        if seen.contains(np) {
            assert(np.0 != key);
        }
    }
    assert(seen2.len() == seen.len() + 1);
    assert(unique_keys(seen2));
    assert(top_pairs(dir, cap, seen).subset_of(seen));
    // Every retained pair was seen, so no retained key equals the new one.
    assert(forall|j: int| 0 <= j < s.len() ==> seen.contains(#[trigger] s[j]));
    if s.len() < cap {
        assert(seen.len() == s.len());
        lemma_small_top(dir, cap, seen);
        assert(s.to_set() == seen);
        lemma_small_top(dir, cap, seen2);
        lemma_push_to_set(s, np);
        assert(r =~= s.push(np));
        assert(r.to_set() == top_pairs(dir, cap, seen2));
        assert(seq_unique_keys(r)) by {
            assert(forall|j: int| 0 <= j < s.len() ==> #[trigger] s[j].0 != key);
        }
        assert(r.no_duplicates());
    } else {
        assert(s.len() == cap);
        s.unique_seq_to_set();
        let w = spec_worst_index(dir, s);
        lemma_worst_index_props(dir, s);
        let wp = s[w];
        assert(seen.contains(wp));
        assert(s.to_set().contains(wp));
        // Everything retained other than the worst strictly beats the worst.
        assert forall|j: int| 0 <= j < s.len() && j != w implies beats(
            dir,
            #[trigger] s[j].0,
            wp.0,
        ) by {
            assert(!beats(dir, wp.0, s[j].0));
            assert(s[j].0 != wp.0);
        }
        // A pair seen but not retained is beaten at least `cap` times.
        assert forall|x: (i64, P)| seen.contains(x) && !s.to_set().contains(x) implies rank(
            dir,
            seen,
            x.0,
        ) >= cap by {
            assert(!top_pairs(dir, cap, seen).contains(x));
        }
        if beats(dir, key, wp.0) {
            lemma_remove_to_set(s, w);
            lemma_push_to_set(s.remove(w), np);
            assert(r =~= s.remove(w).push(np));
            let rset = s.to_set().remove(wp).insert(np);
            assert(r.to_set() == rset);
            // The new pair is retained: whoever beats it beats the old worst.
            assert(rank(dir, seen2, key) < cap) by {
                assert(betters(dir, seen2, key).subset_of(betters(dir, seen, wp.0))) by {
                    assert forall|y: (i64, P)| betters(dir, seen2, key).contains(y) implies betters(
                        dir,
                        seen,
                        wp.0,
                    ).contains(y) by {
                        assert(y != np);
                    }
                }
                seen.lemma_len_filter(|x: (i64, P)| beats(dir, x.0, wp.0));
                lemma_len_subset(betters(dir, seen2, key), betters(dir, seen, wp.0));
                assert(top_pairs(dir, cap, seen).contains(wp));
                assert(rank(dir, seen, wp.0) < cap);
            }
            // The old worst is no longer retained: the other retained pairs
            // and the new pair all beat it.
            assert(rank(dir, seen2, wp.0) >= cap) by {
                let evidence = s.to_set().remove(wp).insert(np);
                assert(evidence.subset_of(betters(dir, seen2, wp.0))) by {
                    assert forall|y: (i64, P)| evidence.contains(y) implies betters(
                        dir,
                        seen2,
                        wp.0,
                    ).contains(y) by {
                        if y != np {
                            let j = choose|j: int| 0 <= j < s.len() && s[j] == y;
                            assert(j != w);
                            assert(beats(dir, y.0, wp.0));
                        }
                    }
                }
                assert(evidence.len() == cap);
                seen2.lemma_len_filter(|x: (i64, P)| beats(dir, x.0, wp.0));
                lemma_len_subset(evidence, betters(dir, seen2, wp.0));
            }
            // Every other retained pair stays retained.
            assert forall|x: (i64, P)| s.to_set().contains(x) && x != wp implies rank(
                dir,
                seen2,
                x.0,
            ) < cap by {
                let j = choose|j: int| 0 <= j < s.len() && s[j] == x;
                assert(j != w);
                assert(beats(dir, x.0, wp.0));
                assert(betters(dir, seen, x.0).insert(x).subset_of(betters(dir, seen, wp.0))) by {
                    assert forall|y: (i64, P)| betters(dir, seen, x.0).insert(x).contains(y)
                        implies betters(dir, seen, wp.0).contains(y) by {}
                }
                seen.lemma_len_filter(|z: (i64, P)| beats(dir, z.0, x.0));
                seen.lemma_len_filter(|z: (i64, P)| beats(dir, z.0, wp.0));
                lemma_len_subset(betters(dir, seen, x.0).insert(x), betters(dir, seen, wp.0));
                assert(!betters(dir, seen, x.0).contains(x));
                assert(rank(dir, seen, x.0) + 1 <= rank(dir, seen, wp.0));
                assert(rank(dir, seen, wp.0) < cap);
                assert(betters(dir, seen2, x.0).subset_of(betters(dir, seen, x.0).insert(np)));
                lemma_len_subset(betters(dir, seen2, x.0), betters(dir, seen, x.0).insert(np));
            }
            // The two sets coincide.
            assert forall|x: (i64, P)| top_pairs(dir, cap, seen2).contains(x) implies
                rset.contains(x) by {
                if x != np {
                    assert(seen.contains(x));
                    if !s.to_set().contains(x) {
                        lemma_rank_mono(dir, seen, seen2, x.0);
                        assert(rank(dir, seen2, x.0) >= cap);
                    }
                    assert(x != wp);
                }
            }
            assert forall|x: (i64, P)| rset.contains(x) implies top_pairs(dir, cap, seen2).contains(
                x,
            ) by {
                if x == np {
                } else {
                    assert(seen2.contains(x));
                }
            }
            assert(r.to_set() =~= top_pairs(dir, cap, seen2));
            assert(seq_unique_keys(r)) by {
                assert forall|i: int, j: int| 0 <= i < j < r.len() implies r[i].0 != r[j].0 by {
                    let t = s.remove(w);
                    if j < t.len() {
                        let oi = if i < w { i } else { i + 1 };
                        let oj = if j < w { j } else { j + 1 };
                        assert(t[i] == s[oi] && t[j] == s[oj]);
                    } else {
                        let oi = if i < w { i } else { i + 1 };
                        assert(r[i] == s[oi]);
                        assert(seen.contains(s[oi]));
                    }
                }
            }
            assert(r.no_duplicates()) by {
                assert forall|i: int, j: int| 0 <= i < j < r.len() implies r[i] != r[j] by {
                    assert(r[i].0 != r[j].0);
                }
            }
            assert(r.len() == cap);
        } else {
            assert(r =~= s);
            // The new key is strictly worse than the worst retained key.
            assert(wp.0 != key);
            assert(beats(dir, wp.0, key));
            // The new pair is not retained: every retained pair beats it.
            assert(rank(dir, seen2, key) >= cap) by {
                assert(s.to_set().subset_of(betters(dir, seen2, key))) by {
                    assert forall|y: (i64, P)| s.to_set().contains(y) implies betters(
                        dir,
                        seen2,
                        key,
                    ).contains(y) by {
                        let j = choose|j: int| 0 <= j < s.len() && s[j] == y;
                        if j != w {
                            assert(beats(dir, y.0, wp.0));
                        }
                    }
                }
                seen2.lemma_len_filter(|x: (i64, P)| beats(dir, x.0, key));
                lemma_len_subset(s.to_set(), betters(dir, seen2, key));
            }
            // Every retained pair keeps its rank: the new pair beats none of
            // them.
            assert forall|x: (i64, P)| s.to_set().contains(x) implies rank(dir, seen2, x.0)
                < cap by {
                assert(!beats(dir, key, x.0)) by {
                    let j = choose|j: int| 0 <= j < s.len() && s[j] == x;
                    if j != w {
                        assert(beats(dir, x.0, wp.0));
                    }
                }
                assert(betters(dir, seen2, x.0) =~= betters(dir, seen, x.0));
                assert(top_pairs(dir, cap, seen).contains(x));
            }
            assert forall|x: (i64, P)| top_pairs(dir, cap, seen2).contains(x) implies
                s.to_set().contains(x) by {
                assert(x != np);
                assert(seen.contains(x));
                if !s.to_set().contains(x) {
                    lemma_rank_mono(dir, seen, seen2, x.0);
                    assert(rank(dir, seen2, x.0) >= cap);
                }
            }
            assert(s.to_set() =~= top_pairs(dir, cap, seen2));
        }
    }
}

/// A sequence without repeated keys has no repeated pairs, and its set keeps
/// both properties and its length.
proof fn lemma_seq_unique_to_set<P>(s: Seq<(i64, P)>)
    requires
        seq_unique_keys(s),
    ensures
        s.no_duplicates(),
        unique_keys(s.to_set()),
        s.to_set().finite(),
        s.to_set().len() == s.len(),
        forall|x: (i64, P)| s.to_set().contains(x) ==> exists|i: int|
            0 <= i < s.len() && s[i] == x,
{
    assert forall|i: int, j: int| 0 <= i < j < s.len() implies s[i] != s[j] by {
        assert(s[i].0 != s[j].0);
    }
    s.unique_seq_to_set();
    assert forall|x: (i64, P), y: (i64, P)|
        s.to_set().contains(x) && s.to_set().contains(y) && x != y implies x.0 != y.0 by {
        let i = choose|i: int| 0 <= i < s.len() && s[i] == x;
        let j = choose|j: int| 0 <= j < s.len() && s[j] == y;
        assert(i != j);
    }
}

/// The merge of two states with distinct, non-overlapping keys retains
/// exactly the bounded top of the union of their retained pairs.
pub proof fn lemma_merge_characterization<P>(
    dir: Direction,
    cap: nat,
    a: Seq<(i64, P)>,
    b: Seq<(i64, P)>,
)
    requires
        cap >= 1,
        a.len() <= cap,
        seq_unique_keys(a),
        seq_unique_keys(b),
        disjoint_keys(a, b),
    ensures
        spec_topk_merge(dir, cap, a, b).to_set() == top_pairs(
            dir,
            cap,
            a.to_set().union(b.to_set()),
        ),
        seq_unique_keys(spec_topk_merge(dir, cap, a, b)),
        spec_topk_merge(dir, cap, a, b).no_duplicates(),
        spec_topk_merge(dir, cap, a, b).len() == min_nat(cap, a.len() + b.len()),
    decreases b.len(),
{
    lemma_seq_unique_to_set(a);
    lemma_seq_unique_to_set(b);
    if b.len() == 0 {
        assert(b.to_set() =~= Set::<(i64, P)>::empty());
        assert(a.to_set().union(b.to_set()) =~= a.to_set());
        lemma_small_top(dir, cap, a.to_set());
    } else {
        let bp = b.drop_last();
        let last = b.last();
        assert(seq_unique_keys(bp));
        assert(disjoint_keys(a, bp)) by {
            assert(forall|j: int| 0 <= j < bp.len() ==> bp[j] == #[trigger] b[j]);
        }
        lemma_merge_characterization(dir, cap, a, bp);
        lemma_seq_unique_to_set(bp);
        let m = spec_topk_merge(dir, cap, a, bp);
        let seen = a.to_set().union(bp.to_set());
        assert(a.to_set().disjoint(bp.to_set())) by {
            assert forall|x: (i64, P)| a.to_set().contains(x) implies !bp.to_set().contains(x) by {
                if bp.to_set().contains(x) {
                    let i = choose|i: int| 0 <= i < a.len() && a[i] == x;
                    let j = choose|j: int| 0 <= j < bp.len() && bp[j] == x;
                    assert(a[i].0 != b[j].0);
                }
            }
        }
        lemma_set_disjoint_lens(a.to_set(), bp.to_set());
        assert(seen =~= a.to_set() + bp.to_set());
        assert(seen.len() == a.len() + bp.len());
        assert(unique_keys(seen)) by {
            assert forall|x: (i64, P), y: (i64, P)|
                seen.contains(x) && seen.contains(y) && x != y implies x.0 != y.0 by {
                if a.to_set().contains(x) && bp.to_set().contains(y) {
                    let i = choose|i: int| 0 <= i < a.len() && a[i] == x;
                    let j = choose|j: int| 0 <= j < bp.len() && bp[j] == y;
                    assert(a[i].0 != b[j].0);
                } else if bp.to_set().contains(x) && a.to_set().contains(y) {
                    let i = choose|i: int| 0 <= i < a.len() && a[i] == y;
                    let j = choose|j: int| 0 <= j < bp.len() && bp[j] == x;
                    assert(a[i].0 != b[j].0);
                }
            }
        }
        assert(forall|x: (i64, P)| seen.contains(x) ==> #[trigger] x.0 != last.0) by {
            assert forall|x: (i64, P)| seen.contains(x) implies #[trigger] x.0 != last.0 by {
                if a.to_set().contains(x) {
                    let i = choose|i: int| 0 <= i < a.len() && a[i] == x;
                    assert(a[i].0 != b[b.len() - 1].0);
                } else {
                    let j = choose|j: int| 0 <= j < bp.len() && bp[j] == x;
                    assert(b[j].0 != b[b.len() - 1].0);
                }
            }
        }
        lemma_insert_step(dir, cap, m, seen, last.0, last.1);
        assert(spec_topk_merge(dir, cap, a, b) == spec_topk_insert(
            dir,
            cap,
            m,
            last.0,
            last.1,
        ));
        assert((last.0, last.1) == last);
        assert(seen.insert(last) =~= a.to_set().union(b.to_set())) by {
            lemma_push_to_set(bp, last);
            assert(bp.push(last) =~= b);
        }
    }
}

/// Compaction: taking the bounded top of a set changes nothing about the
/// bounded top of any union it later enters.
proof fn lemma_top_absorb<P>(dir: Direction, cap: nat, s: Set<(i64, P)>, t: Set<(i64, P)>)
    requires
        cap >= 1,
        s.finite(),
        t.finite(),
        unique_keys(s.union(t)),
        top_pairs(dir, cap, s).len() == min_nat(cap, s.len()),
    ensures
        top_pairs(dir, cap, top_pairs(dir, cap, s).union(t)) == top_pairs(dir, cap, s.union(t)),
{
    let ts = top_pairs(dir, cap, s);
    let small = ts.union(t);
    let big = s.union(t);
    assert(ts.subset_of(s));
    lemma_len_subset(ts, s);
    assert(small.subset_of(big));
    assert(unique_keys(s)) by {
        assert forall|x: (i64, P), y: (i64, P)|
            s.contains(x) && s.contains(y) && x != y implies x.0 != y.0 by {
            assert(big.contains(x) && big.contains(y));
        }
    }
    // A pair of `s` outside its bounded top is beaten by every pair of the
    // top, because beating any of them would overflow that pair's own rank.
    assert forall|y: (i64, P), z: (i64, P)|
        s.contains(y) && rank(dir, s, y.0) >= cap && ts.contains(z) implies beats(
        dir,
        z.0,
        y.0,
    ) by {
        assert(z.0 != y.0);
        if !beats(dir, z.0, y.0) {
            assert(beats(dir, y.0, z.0));
            assert(betters(dir, s, y.0).insert(y).subset_of(betters(dir, s, z.0))) by {
                assert forall|u: (i64, P)| betters(dir, s, y.0).insert(y).contains(u) implies
                    betters(dir, s, z.0).contains(u) by {}
            }
            s.lemma_len_filter(|u: (i64, P)| beats(dir, u.0, y.0));
            s.lemma_len_filter(|u: (i64, P)| beats(dir, u.0, z.0));
            assert(!betters(dir, s, y.0).contains(y));
            lemma_len_subset(betters(dir, s, y.0).insert(y), betters(dir, s, z.0));
            assert(rank(dir, s, z.0) >= cap + 1);
        }
    }
    assert forall|x: (i64, P)| top_pairs(dir, cap, big).contains(x) implies top_pairs(
        dir,
        cap,
        small,
    ).contains(x) by {
        // Such a pair is not an `s` pair outside the top of `s`.
        if s.contains(x) && !ts.contains(x) {
            lemma_rank_mono(dir, s, big, x.0);
            assert(rank(dir, s, x.0) >= cap);
            assert(rank(dir, big, x.0) >= cap);
        }
        assert(small.contains(x));
        lemma_rank_mono(dir, small, big, x.0);
    }
    assert forall|x: (i64, P)| top_pairs(dir, cap, small).contains(x) implies top_pairs(
        dir,
        cap,
        big,
    ).contains(x) by {
        assert(big.contains(x));
        if rank(dir, big, x.0) >= cap {
            // At least `cap` pairs of the compacted set already beat `x`.
            let g = betters(dir, big, x.0);
            let gs = betters(dir, small, x.0);
            big.lemma_len_filter(|u: (i64, P)| beats(dir, u.0, x.0));
            small.lemma_len_filter(|u: (i64, P)| beats(dir, u.0, x.0));
            if g.subset_of(small) {
                assert(g.subset_of(gs)) by {
                    assert forall|u: (i64, P)| g.contains(u) implies gs.contains(u) by {}
                }
                lemma_len_subset(g, gs);
            } else {
                let y = choose|y: (i64, P)| g.contains(y) && !small.contains(y);
                assert(s.contains(y) && !ts.contains(y));
                assert(rank(dir, s, y.0) >= cap);
                assert(s.len() > cap) by {
                    lemma_rank_lt_len(dir, s, y);
                }
                assert(ts.len() == cap);
                assert(ts.subset_of(gs)) by {
                    assert forall|z: (i64, P)| ts.contains(z) implies gs.contains(z) by {
                        assert(beats(dir, z.0, y.0));
                        assert(beats(dir, y.0, x.0));
                        assert(z != x) by {
                            if z == x {
                                assert(beats(dir, x.0, y.0));
                            }
                        }
                        assert(beats(dir, z.0, x.0));
                    }
                }
                lemma_len_subset(ts, gs);
            }
            assert(rank(dir, small, x.0) >= cap);
        }
    }
    assert(top_pairs(dir, cap, small) =~= top_pairs(dir, cap, big));
}

/// Merging bounded top-K states of equal capacity is commutative on the
/// retained pair sets, provided no key repeats among the inputs.  (When two
/// payloads arrive under one key, first-seen-wins makes the surviving
/// payload depend on order, so that case is excluded.)
pub proof fn lemma_topk_merge_commutative<P>(
    dir: Direction,
    cap: nat,
    a: Seq<(i64, P)>,
    b: Seq<(i64, P)>,
)
    requires
        cap >= 1,
        a.len() <= cap,
        b.len() <= cap,
        seq_unique_keys(a),
        seq_unique_keys(b),
        disjoint_keys(a, b),
    ensures
        spec_topk_merge(dir, cap, a, b).to_set() == spec_topk_merge(dir, cap, b, a).to_set(),
{
    lemma_merge_characterization(dir, cap, a, b);
    assert(disjoint_keys(b, a)) by {
        assert forall|i: int, j: int|
            0 <= i < b.len() && 0 <= j < a.len() implies #[trigger] b[i].0 != #[trigger] a[j].0 by {
            assert(a[j].0 != b[i].0);
        }
    }
    lemma_merge_characterization(dir, cap, b, a);
    assert(a.to_set().union(b.to_set()) =~= b.to_set().union(a.to_set()));
}

/// Merging bounded top-K states of equal capacity is associative on the
/// retained pair sets, provided no key repeats among the inputs.
pub proof fn lemma_topk_merge_associative<P>(
    dir: Direction,
    cap: nat,
    a: Seq<(i64, P)>,
    b: Seq<(i64, P)>,
    c: Seq<(i64, P)>,
)
    requires
        cap >= 1,
        a.len() <= cap,
        b.len() <= cap,
        c.len() <= cap,
        seq_unique_keys(a),
        seq_unique_keys(b),
        seq_unique_keys(c),
        disjoint_keys(a, b),
        disjoint_keys(a, c),
        disjoint_keys(b, c),
    ensures
        spec_topk_merge(dir, cap, spec_topk_merge(dir, cap, a, b), c).to_set()
            == spec_topk_merge(dir, cap, a, spec_topk_merge(dir, cap, b, c)).to_set(),
{
    lemma_seq_unique_to_set(a);
    lemma_seq_unique_to_set(b);
    lemma_seq_unique_to_set(c);
    let ab = spec_topk_merge(dir, cap, a, b);
    let bc = spec_topk_merge(dir, cap, b, c);
    lemma_merge_characterization(dir, cap, a, b);
    lemma_merge_characterization(dir, cap, b, c);
    lemma_seq_unique_to_set(ab);
    lemma_seq_unique_to_set(bc);
    let sa = a.to_set();
    let sb = b.to_set();
    let sc = c.to_set();
    // The left association: reduce the compacted (a merge b) against c.
    assert(disjoint_keys(ab, c)) by {
        assert forall|i: int, j: int|
            0 <= i < ab.len() && 0 <= j < c.len() implies #[trigger] ab[i].0 != #[trigger] c[j].0 by {
            assert(ab.to_set().contains(ab[i]));
            assert(sa.union(sb).contains(ab[i]));
            if sa.contains(ab[i]) {
                let k = choose|k: int| 0 <= k < a.len() && a[k] == ab[i];
                assert(a[k].0 != c[j].0);
            } else {
                let k = choose|k: int| 0 <= k < b.len() && b[k] == ab[i];
                assert(b[k].0 != c[j].0);
            }
        }
    }
    lemma_merge_characterization(dir, cap, ab, c);
    assert(unique_keys(sa.union(sb).union(sc))) by {
        assert forall|x: (i64, P), y: (i64, P)|
            sa.union(sb).union(sc).contains(x) && sa.union(sb).union(sc).contains(y) && x != y
            implies x.0 != y.0 by {
            let i = choose|i: int|
                0 <= i < a.len() && a[i] == x || 0 <= i < b.len() && b[i] == x || 0 <= i < c.len()
                    && c[i] == x;
            let j = choose|j: int|
                0 <= j < a.len() && a[j] == y || 0 <= j < b.len() && b[j] == y || 0 <= j < c.len()
                    && c[j] == y;
            assert(x.0 != y.0);
        }
    }
    assert(sa.disjoint(sb)) by {
        assert forall|x: (i64, P)| sa.contains(x) implies !sb.contains(x) by {
            if sb.contains(x) {
                let i = choose|i: int| 0 <= i < a.len() && a[i] == x;
                let j = choose|j: int| 0 <= j < b.len() && b[j] == x;
                assert(a[i].0 != b[j].0);
            }
        }
    }
    lemma_set_disjoint_lens(sa, sb);
    assert(sa.union(sb) =~= sa + sb);
    lemma_seq_unique_to_set(ab);
    assert(top_pairs(dir, cap, sa.union(sb)).len() == min_nat(cap, sa.union(sb).len()));
    lemma_top_absorb(dir, cap, sa.union(sb), sc);
    assert(ab.to_set().union(sc) =~= top_pairs(dir, cap, sa.union(sb)).union(sc));
    assert(spec_topk_merge(dir, cap, ab, c).to_set() == top_pairs(
        dir,
        cap,
        sa.union(sb).union(sc),
    ));
    // The right association: reduce a against the compacted (b merge c).
    assert(disjoint_keys(a, bc)) by {
        assert forall|i: int, j: int|
            0 <= i < a.len() && 0 <= j < bc.len() implies #[trigger] a[i].0 != #[trigger] bc[j].0 by {
            assert(bc.to_set().contains(bc[j]));
            assert(sb.union(sc).contains(bc[j]));
            if sb.contains(bc[j]) {
                let k = choose|k: int| 0 <= k < b.len() && b[k] == bc[j];
                assert(a[i].0 != b[k].0);
            } else {
                let k = choose|k: int| 0 <= k < c.len() && c[k] == bc[j];
                assert(a[i].0 != c[k].0);
            }
        }
    }
    lemma_merge_characterization(dir, cap, a, bc);
    assert(unique_keys(sb.union(sc).union(sa)));
    assert(sb.disjoint(sc)) by {
        assert forall|x: (i64, P)| sb.contains(x) implies !sc.contains(x) by {
            if sc.contains(x) {
                let i = choose|i: int| 0 <= i < b.len() && b[i] == x;
                let j = choose|j: int| 0 <= j < c.len() && c[j] == x;
                assert(b[i].0 != c[j].0);
            }
        }
    }
    lemma_set_disjoint_lens(sb, sc);
    assert(sb.union(sc) =~= sb + sc);
    lemma_seq_unique_to_set(bc);
    assert(top_pairs(dir, cap, sb.union(sc)).len() == min_nat(cap, sb.union(sc).len()));
    lemma_top_absorb(dir, cap, sb.union(sc), sa);
    assert(a.to_set().union(bc.to_set()) =~= top_pairs(dir, cap, sb.union(sc)).union(sa));
    assert(spec_topk_merge(dir, cap, a, bc).to_set() == top_pairs(
        dir,
        cap,
        sb.union(sc).union(sa),
    ));
    assert(sa.union(sb).union(sc) =~= sb.union(sc).union(sa));
}

/// The retained set never exceeds the capacity, whatever mixture of inserts
/// built the inputs.
pub proof fn lemma_topk_merge_capacity<P>(
    dir: Direction,
    cap: nat,
    a: Seq<(i64, P)>,
    b: Seq<(i64, P)>,
)
    requires
        cap >= 1,
        a.len() <= cap,
    ensures
        spec_topk_merge(dir, cap, a, b).len() <= cap,
    decreases b.len(),
{
    if b.len() > 0 {
        lemma_topk_merge_capacity(dir, cap, a, b.drop_last());
        let m = spec_topk_merge(dir, cap, a, b.drop_last());
        if m.len() >= 1 && !(m.len() < cap) {
            lemma_worst_index_props(dir, m);
        }
    }
}

} // verus!
