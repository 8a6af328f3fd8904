use vstd::prelude::*;
use vstd::arithmetic::power2::{
    pow2, lemma_pow2_pos, lemma_pow2_adds, lemma_pow2_strictly_increases, lemma2_to64,
    lemma2_to64_rest,
};
use vstd::arithmetic::div_mod::lemma_multiply_divide_lt;
use vstd::bits::lemma_u64_shr_is_div;

verus! {

// The cardinality reducer estimates how many distinct values it has seen.
// Each value is mixed into a 64-bit hash.  While few distinct hashes have
// arrived the sketch stores them exactly, sorted (the sparse form); past a
// threshold fixed by the precision it switches to an array of 2^precision
// registers, each holding the longest run of leading zero bits seen among
// the hashes routed to it (the dense form).  Merging takes the union of the
// hash sets: element-wise union while sparse, register-wise maximum once
// dense; either way the result is exactly the sketch of the union, which
// makes merge order irrelevant.  The count is exact in the sparse form and
// a harmonic-mean estimate in the dense form.

/// Why a cardinality operation was refused.
#[derive(Clone, Copy, PartialEq, Eq, Structural, Debug)]
pub enum CardinalityError {
    /// The precision must lie between 4 and 16 inclusive.
    BadPrecision,
    /// Sketches built at different precisions cannot merge.
    MismatchedPrecision,
}

/// The two internal forms of the sketch.
pub enum SketchRepr {
    /// The distinct hashes themselves, strictly ascending.
    Sparse(Vec<u64>),
    /// One register per index: the largest rank seen for that index.
    Dense(Vec<u8>),
}

/// An approximate distinct-count sketch over 64-bit values.
pub struct SketchState {
    /// Fixed at construction; identical across states that merge.
    pub precision: u8,
    /// The current representation.
    pub repr: SketchRepr,
    /// The set of hashes absorbed so far (ghost bookkeeping: the
    /// representation is a function of this set).
    pub hashes: Ghost<Set<u64>>,
}

/// The unsigned bit pattern of a value.
pub open spec fn spec_to_bits(v: i64) -> u64 {
    if v >= 0 {
        v as u64
    } else {
        (v + 0x1_0000_0000_0000_0000) as u64
    }
}

/// One round of xor-shift followed by an odd multiplier, wrapping.
pub open spec fn spec_mix_round(z: u64, shift: u64, mult: u64) -> u64 {
    vstd::wrapping::u64_specs::wrapping_mul(z ^ (z >> shift), mult)
}

/// The hash of one value: a 64-bit finalizer that scrambles all bits.
pub open spec fn spec_hash(v: i64) -> u64 {
    let z0 = spec_to_bits(v);
    let z1 = spec_mix_round(z0, 30, 0xBF58476D1CE4E5B9u64);
    let z2 = spec_mix_round(z1, 27, 0x94D049BB133111EBu64);
    z2 ^ (z2 >> 31)
}

/// Which register a hash is routed to: its top `p` bits.
pub open spec fn spec_idx(h: u64, p: u8) -> int {
    (h >> ((64 - p) as u64)) as int
}

/// Leading zeros among the top `width` bits of `x`.
pub open spec fn spec_nlz(x: u64, width: nat) -> nat
    decreases width,
{
    if width == 0 {
        0
    } else if x >= 0x8000_0000_0000_0000u64 {
        0
    } else {
        1 + spec_nlz((x << 1u64), (width - 1) as nat)
    }
}

/// The rank of a hash: one more than the run of leading zeros in the bits
/// after the index, between 1 and `65 - p`.
pub open spec fn spec_rho(h: u64, p: u8) -> u8 {
    (spec_nlz(h << (p as u64), (64 - p) as nat) + 1) as u8
}

/// Leading zeros never exceed the examined width.
pub proof fn lemma_nlz_bound(x: u64, width: nat)
    ensures
        spec_nlz(x, width) <= width,
    decreases width,
{
    if width > 0 && x < 0x8000_0000_0000_0000u64 {
        lemma_nlz_bound(x << 1u64, (width - 1) as nat);
    }
}

/// Strictly ascending, hence duplicate-free.
pub open spec fn strictly_sorted(s: Seq<u64>) -> bool {
    forall|i: int, j: int| 0 <= i < j < s.len() ==> s[i] < s[j]
}

/// How many distinct hashes the sparse form may hold: a quarter of the
/// register count.
pub open spec fn spec_threshold(p: u8) -> nat {
    pow2((p - 2) as nat)
}

/// The registers are exactly the index-wise maximum rank over the hash set:
/// every hash is covered, and every non-zero register is witnessed.
pub open spec fn regs_match(regs: Seq<u8>, hs: Set<u64>, p: u8) -> bool {
    &&& regs.len() == pow2(p as nat)
    &&& forall|h: u64|
        hs.contains(h) ==> 0 <= spec_idx(h, p) < regs.len() && regs[spec_idx(h, p)] >= spec_rho(
            h,
            p,
        )
    &&& forall|j: int|
        0 <= j < regs.len() ==> regs[j] == 0 || exists|h: u64|
            hs.contains(h) && spec_idx(h, p) == j && spec_rho(h, p) == #[trigger] regs[j]
    &&& forall|j: int| 0 <= j < regs.len() ==> #[trigger] regs[j] <= 61
}

impl SketchState {
    /// The representation is the canonical sketch of the absorbed hash set:
    /// sparse exactly while the set is small, dense exactly afterwards.
    pub open spec fn wf(self) -> bool {
        &&& 4 <= self.precision <= 16
        &&& self.hashes@.finite()
        &&& match self.repr {
            SketchRepr::Sparse(v) => {
                &&& strictly_sorted(v@)
                &&& v@.to_set() == self.hashes@
                &&& v@.len() == self.hashes@.len()
                &&& v@.len() <= spec_threshold(self.precision)
            },
            SketchRepr::Dense(r) => {
                &&& regs_match(r@, self.hashes@, self.precision)
                &&& self.hashes@.len() > spec_threshold(self.precision)
            },
        }
    }

    /// A fresh empty sketch; precisions outside 4 to 16 are refused.
    pub fn new(precision: u8) -> (r: Result<SketchState, CardinalityError>)
        ensures
            (4 <= precision <= 16) ==> r is Ok && r->Ok_0.precision == precision
                && r->Ok_0.hashes@ =~= Set::<u64>::empty() && r->Ok_0.wf(),
            !(4 <= precision <= 16) ==> r == Err::<SketchState, CardinalityError>(
                CardinalityError::BadPrecision,
            ),
    {
        if precision < 4 || precision > 16 {
            Err(CardinalityError::BadPrecision)
        } else {
            let s = SketchState {
                precision,
                repr: SketchRepr::Sparse(Vec::new()),
                hashes: Ghost(Set::empty()),
            };
            proof {
                assert(s.repr matches SketchRepr::Sparse(v) && v@.to_set() =~= Set::<u64>::empty());
            }
            Ok(s)
        }
    }
}

/// The hash of one value.
fn hash_value(v: i64) -> (r: u64)
    ensures
        r == spec_hash(v),
{
    let z0: u64 = if v >= 0 {
        v as u64
    } else {
        let folded = (v + 0x4000_0000_0000_0000i64) + 0x4000_0000_0000_0000i64;
        (folded as u64) + 0x8000_0000_0000_0000u64
    };
    let z1 = (z0 ^ (z0 >> 30u64)).wrapping_mul(0xBF58476D1CE4E5B9u64);
    let z2 = (z1 ^ (z1 >> 27u64)).wrapping_mul(0x94D049BB133111EBu64);
    z2 ^ (z2 >> 31u64)
}

/// The register index of a hash: its top `p` bits.
fn index_of(h: u64, p: u8) -> (r: usize)
    requires
        4 <= p <= 16,
    ensures
        r == spec_idx(h, p),
        r < pow2(p as nat),
{
    let sh = (64 - p) as u64;
    proof {
        lemma_u64_shr_is_div(h, sh);
        lemma_pow2_adds((64 - p) as nat, p as nat);
        lemma2_to64();
        lemma2_to64_rest();
        lemma_pow2_pos((64 - p) as nat);
        lemma_multiply_divide_lt(h as int, pow2((64 - p) as nat) as int, pow2(p as nat) as int);
    }
    (h >> sh) as usize
}

/// The rank of a hash: leading zeros after the index bits, plus one.
fn rho_of(h: u64, p: u8) -> (r: u8)
    requires
        4 <= p <= 16,
    ensures
        r == spec_rho(h, p),
        1 <= r <= 61,
{
    let mut x = h << (p as u64);
    let width = (64 - p) as u8;
    let mut count: u8 = 0;
    proof {
        lemma_nlz_bound(x, width as nat);
    }
    while count < width && x < 0x8000_0000_0000_0000u64
        invariant
            count <= width,
            width == 64 - p,
            spec_nlz(h << (p as u64), (64 - p) as nat) == count + spec_nlz(
                x,
                (width - count) as nat,
            ),
            spec_nlz(x, (width - count) as nat) <= width - count,
        decreases width - count,
    {
        count = count + 1;
        x = x << 1u64;
        proof {
            lemma_nlz_bound(x, (width - count) as nat);
        }
    }
    count + 1
}

/// The sparse capacity for a precision.
fn threshold_of(p: u8) -> (r: usize)
    requires
        4 <= p <= 16,
    ensures
        r == spec_threshold(p),
{
    proof {
        lemma2_to64();
        vstd::bits::lemma_usize_shl_is_mul(1usize, (p - 2) as usize);
    }
    1usize << ((p - 2) as usize)
}

/// Inserting into a sequence inserts into its set of elements.
proof fn lemma_seq_insert_to_set(s: Seq<u64>, j: int, h: u64)
    requires
        0 <= j <= s.len(),
    ensures
        s.insert(j, h).to_set() =~= s.to_set().insert(h),
{
    let t = s.insert(j, h);
    s.insert_ensures(j, h);
    assert forall|x: u64| t.to_set().contains(x) implies s.to_set().insert(h).contains(x) by {
        let i = choose|i: int| 0 <= i < t.len() && t[i] == x;
        if i < j {
            assert(s[i] == x);
        } else if i == j {
        } else {
            assert(s[i - 1] == x);
        }
    }
    assert forall|x: u64| s.to_set().insert(h).contains(x) implies t.to_set().contains(x) by {
        if x == h {
            assert(t[j] == x);
        } else {
            let i = choose|i: int| 0 <= i < s.len() && s[i] == x;
            if i < j {
                assert(t[i] == x);
            } else {
                assert(t[i + 1] == x);
            }
        }
    }
}

/// Appending to a sequence inserts into its set of elements.
pub proof fn lemma_seq_push_to_set(s: Seq<u64>, h: u64)
    ensures
        s.push(h).to_set() =~= s.to_set().insert(h),
{
    lemma_seq_insert_to_set(s, s.len() as int, h);
    assert(s.insert(s.len() as int, h) =~= s.push(h));
}

/// Raise one register to a rank if it is below it.
fn dense_insert(regs: &mut Vec<u8>, Ghost(hs): Ghost<Set<u64>>, h: u64, p: u8)
    requires
        4 <= p <= 16,
        regs_match(old(regs)@, hs, p),
    ensures
        regs_match(final(regs)@, hs.insert(h), p),
{
    let j = index_of(h, p);
    let rr = rho_of(h, p);
    proof {
        assert(old(regs)@.len() == pow2(p as nat));
    }
    if regs[j] < rr {
        regs[j] = rr;
    }
    proof {
        let now = regs@;
        let old_regs = old(regs)@;
        assert forall|k: int| 0 <= k < now.len() implies now[k] == 0 || exists|h2: u64|
            hs.insert(h).contains(h2) && spec_idx(h2, p) == k && spec_rho(h2, p) == #[trigger] now[k] by {
            if now[k] != 0 {
                if k == j && now[k] == rr {
                    assert(hs.insert(h).contains(h) && spec_idx(h, p) == k && spec_rho(h, p)
                        == now[k]);
                } else {
                    assert(now[k] == old_regs[k]);
                    let h2 = choose|h2: u64|
                        hs.contains(h2) && spec_idx(h2, p) == k && spec_rho(h2, p) == old_regs[k];
                    assert(hs.insert(h).contains(h2));
                }
            }
        }
    }
}

/// Convert a sparse hash list into dense registers.
fn densify(v: &Vec<u64>, p: u8) -> (r: Vec<u8>)
    requires
        4 <= p <= 16,
    ensures
        regs_match(r@, v@.to_set(), p),
{
    proof {
        lemma2_to64();
        vstd::bits::lemma_usize_shl_is_mul(1usize, p as usize);
    }
    let m = 1usize << (p as usize);
    let mut regs: Vec<u8> = Vec::new();
    while regs.len() < m
        invariant
            regs@.len() <= m,
            m == pow2(p as nat),
            forall|k: int| 0 <= k < regs@.len() ==> regs@[k] == 0,
        decreases m - regs@.len(),
    {
        regs.push(0);
    }
    proof {
        assert(v@.take(0).to_set() =~= Set::<u64>::empty());
        assert(regs_match(regs@, v@.take(0).to_set(), p));
    }
    let n = v.len();
    let mut i: usize = 0;
    while i < n
        invariant
            i <= n,
            n == v@.len(),
            4 <= p <= 16,
            regs_match(regs@, v@.take(i as int).to_set(), p),
        decreases n - i,
    {
        dense_insert(&mut regs, Ghost(v@.take(i as int).to_set()), v[i], p);
        proof {
            lemma_seq_insert_to_set(v@.take(i as int), i as int, v@[i as int]);
            assert(v@.take(i as int).insert(i as int, v@[i as int]) =~= v@.take(i + 1));
        }
        i = i + 1;
    }
    proof {
        assert(v@.take(n as int) =~= v@);
    }
    regs
}

impl SketchState {
    /// Absorb one hash.
    fn insert_hash(self, h: u64) -> (r: SketchState)
        requires
            self.wf(),
        ensures
            r.wf(),
            r.precision == self.precision,
            r.hashes@ == self.hashes@.insert(h),
    {
        let SketchState { precision, repr, hashes } = self;
        let ghost hs = hashes@;
        match repr {
            SketchRepr::Sparse(mut v) => {
                let n = v.len();
                let mut j: usize = 0;
                while j < n && v[j] < h
                    invariant
                        j <= n,
                        n == v@.len(),
                        forall|k: int| 0 <= k < j ==> v@[k] < h,
                    decreases n - j,
                {
                    j = j + 1;
                }
                if j < n && v[j] == h {
                    // Already present: the hash set is unchanged.
                    proof {
                        assert(v@.to_set().contains(h));
                        assert(hs.insert(h) =~= hs);
                    }
                    SketchState {
                        precision,
                        repr: SketchRepr::Sparse(v),
                        hashes: Ghost(hs.insert(h)),
                    }
                } else {
                    proof {
                        // `h` is new: everything before `j` is below it,
                        // everything from `j` on is above it.
                        assert forall|k: int| 0 <= k < v@.len() implies v@[k] != h by {
                            if k >= j {
                                assert(v@[j as int] <= v@[k]);
                            }
                        }
                        assert(!hs.contains(h)) by {
                            if hs.contains(h) {
                                let i = choose|i: int| 0 <= i < v@.len() && v@[i] == h;
                            }
                        }
                        lemma_seq_insert_to_set(v@, j as int, h);
                        v@.insert_ensures(j as int, h);
                    }
                    let ghost old_v = v@;
                    v.insert(j, h);
                    proof {
                        assert forall|a: int, b: int| 0 <= a < b < v@.len() implies v@[a]
                            < v@[b] by {
                            if b < j {
                            } else if a < j && b == j {
                            } else if a < j {
                                assert(v@[b] == old_v[b - 1]);
                                assert(old_v[j as int] <= old_v[b - 1]);
                            } else if a == j {
                                assert(v@[b] == old_v[b - 1]);
                                assert(old_v[j as int] <= old_v[b - 1]);
                                assert(old_v[b - 1] != h);
                            } else {
                                assert(v@[a] == old_v[a - 1] && v@[b] == old_v[b - 1]);
                            }
                        }
                    }
                    let t = threshold_of(precision);
                    if v.len() > t {
                        let regs = densify(&v, precision);
                        SketchState {
                            precision,
                            repr: SketchRepr::Dense(regs),
                            hashes: Ghost(hs.insert(h)),
                        }
                    } else {
                        SketchState {
                            precision,
                            repr: SketchRepr::Sparse(v),
                            hashes: Ghost(hs.insert(h)),
                        }
                    }
                }
            },
            SketchRepr::Dense(mut regs) => {
                dense_insert(&mut regs, Ghost(hs), h, precision);
                proof {
                    assert(hs.insert(h).len() >= hs.len());
                }
                SketchState { precision, repr: SketchRepr::Dense(regs), hashes: Ghost(hs.insert(h)) }
            },
        }
    }

    /// Absorb one value.
    pub fn insert(self, v: i64) -> (r: SketchState)
        requires
            self.wf(),
        ensures
            r.wf(),
            r.precision == self.precision,
            r.hashes@ == self.hashes@.insert(spec_hash(v)),
    {
        let h = hash_value(v);
        self.insert_hash(h)
    }
}

/// Absorb every hash of a sparse list into a sketch.
fn absorb_sparse(acc: SketchState, v: Vec<u64>) -> (r: SketchState)
    requires
        acc.wf(),
    ensures
        r.wf(),
        r.precision == acc.precision,
        r.hashes@ == acc.hashes@.union(v@.to_set()),
{
    let ghost h0 = acc.hashes@;
    let mut cur = acc;
    let n = v.len();
    let mut i: usize = 0;
    proof {
        assert(v@.take(0).to_set() =~= Set::<u64>::empty());
        assert(h0.union(v@.take(0).to_set()) =~= h0);
    }
    while i < n
        invariant
            i <= n,
            n == v@.len(),
            cur.wf(),
            cur.precision == acc.precision,
            cur.hashes@ == h0.union(v@.take(i as int).to_set()),
        decreases n - i,
    {
        cur = cur.insert_hash(v[i]);
        proof {
            lemma_seq_insert_to_set(v@.take(i as int), i as int, v@[i as int]);
            assert(v@.take(i as int).insert(i as int, v@[i as int]) =~= v@.take(i + 1));
            assert(h0.union(v@.take(i as int).to_set()).insert(v@[i as int]) =~= h0.union(
                v@.take(i + 1).to_set(),
            ));
        }
        i = i + 1;
    }
    proof {
        assert(v@.take(n as int) =~= v@);
    }
    cur
}

impl SketchState {
    /// Take the union with another sketch of the same precision: the result
    /// is exactly the sketch of the union of the two hash sets, whichever
    /// forms the operands are in.  Different precisions are refused.
    pub fn merge(self, other: SketchState) -> (r: Result<SketchState, CardinalityError>)
        requires
            self.wf(),
            other.wf(),
        ensures
            self.precision == other.precision ==> r is Ok && r->Ok_0.wf() && r->Ok_0.precision
                == self.precision && r->Ok_0.hashes@ == self.hashes@.union(other.hashes@),
            self.precision != other.precision ==> r == Err::<SketchState, CardinalityError>(
                CardinalityError::MismatchedPrecision,
            ),
    {
        if self.precision != other.precision {
            return Err(CardinalityError::MismatchedPrecision);
        }
        let ghost h1 = self.hashes@;
        let ghost h2 = other.hashes@;
        let SketchState { precision, repr, hashes } = other;
        match repr {
            SketchRepr::Sparse(v) => {
                proof {
                    assert(v@.to_set() == h2);
                }
                Ok(absorb_sparse(self, v))
            },
            SketchRepr::Dense(r2) => {
                let SketchState { repr: repr1, hashes: hashes1, .. } = self;
                match repr1 {
                    SketchRepr::Sparse(v1) => {
                        let rebuilt = SketchState {
                            precision,
                            repr: SketchRepr::Dense(r2),
                            hashes,
                        };
                        let merged = absorb_sparse(rebuilt, v1);
                        proof {
                            assert(h2.union(h1) =~= h1.union(h2));
                        }
                        Ok(merged)
                    },
                    SketchRepr::Dense(mut r1) => {
                        let ghost old1 = r1@;
                        let n = r1.len();
                        let mut j: usize = 0;
                        while j < n
                            invariant
                                j <= n,
                                n == r1@.len(),
                                r1@.len() == old1.len(),
                                r2@.len() == old1.len(),
                                forall|k: int|
                                    0 <= k < j ==> #[trigger] r1@[k] == if old1[k] >= r2@[k] {
                                        old1[k]
                                    } else {
                                        r2@[k]
                                    },
                                forall|k: int| j <= k < n ==> #[trigger] r1@[k] == old1[k],
                            decreases n - j,
                        {
                            if r1[j] < r2[j] {
                                let high = r2[j];
                                r1[j] = high;
                            }
                            j = j + 1;
                        }
                        proof {
                            let un = h1.union(h2);
                            assert(un.finite());
                            assert forall|h: u64| un.contains(h) implies 0 <= spec_idx(h, precision)
                                < r1@.len() && r1@[spec_idx(h, precision)] >= spec_rho(
                                h,
                                precision,
                            ) by {
                                if h1.contains(h) {
                                    assert(old1[spec_idx(h, precision)] >= spec_rho(h, precision));
                                } else {
                                    assert(r2@[spec_idx(h, precision)] >= spec_rho(h, precision));
                                }
                            }
                            assert forall|k: int| 0 <= k < r1@.len() implies r1@[k] == 0 || exists|
                                h: u64,
                            |
                                un.contains(h) && spec_idx(h, precision) == k && spec_rho(
                                    h,
                                    precision,
                                ) == #[trigger] r1@[k] by {
                                if r1@[k] != 0 {
                                    if r1@[k] == old1[k] {
                                        let h = choose|h: u64|
                                            h1.contains(h) && spec_idx(h, precision) == k
                                                && spec_rho(h, precision) == old1[k];
                                        assert(un.contains(h));
                                    } else {
                                        let h = choose|h: u64|
                                            h2.contains(h) && spec_idx(h, precision) == k
                                                && spec_rho(h, precision) == r2@[k];
                                        assert(un.contains(h));
                                    }
                                }
                            }
                            vstd::set_lib::lemma_len_subset(h1, un);
                        }
                        Ok(
                            SketchState {
                                precision,
                                repr: SketchRepr::Dense(r1),
                                hashes: Ghost(h1.union(h2)),
                            },
                        )
                    },
                }
            },
        }
    }
}

/// The contribution of one register to the harmonic sum, scaled by 2^64:
/// two to the power `64 - register`.
pub open spec fn spec_term(reg: u8) -> nat {
    if reg <= 64 {
        pow2((64 - reg) as nat)
    } else {
        1
    }
}

/// The scaled harmonic sum over all registers.
pub open spec fn spec_harmonic(regs: Seq<u8>) -> nat
    decreases regs.len(),
{
    if regs.len() == 0 {
        0
    } else {
        spec_harmonic(regs.drop_last()) + spec_term(regs.last())
    }
}

/// A sketch with registers has a positive harmonic sum.
pub proof fn lemma_harmonic_pos(regs: Seq<u8>)
    requires
        regs.len() > 0,
    ensures
        spec_harmonic(regs) > 0,
    decreases regs.len(),
{
    lemma_pow2_pos((64 - regs.last()) as nat);
    if regs.len() > 1 {
        lemma_harmonic_pos(regs.drop_last());
    }
}

/// The dense estimate: `alpha * m^2 / sum(2^-reg)` computed exactly over the
/// scaled integer harmonic sum, with `alpha` the standard bias correction
/// `0.7213 / (1 + 1.079 / m)` as a rational, clamped into `u64`.
pub open spec fn spec_dense_count(regs: Seq<u8>, p: u8) -> u64 {
    let m = pow2(p as nat);
    let s = spec_harmonic(regs);
    if s == 0 {
        0
    } else {
        let num = 7213 * m * m * m * pow2(64);
        let den = 10 * (1000 * m + 1079) * s;
        let e = num / den;
        if e > u64::MAX {
            u64::MAX
        } else {
            e as u64
        }
    }
}

/// The estimated distinct count of a sketch: exact while sparse, the
/// harmonic-mean estimate once dense.
pub open spec fn spec_card_count(s: SketchState) -> u64 {
    match s.repr {
        SketchRepr::Sparse(v) => v.len() as u64,
        SketchRepr::Dense(r) => spec_dense_count(r@, s.precision),
    }
}

/// Two to the power `e`, as a 128-bit value.
fn pow2_u128(e: u8) -> (r: u128)
    requires
        e <= 64,
    ensures
        r == pow2(e as nat),
{
    proof {
        lemma2_to64();
        lemma2_to64_rest();
    }
    let mut r: u128 = 1;
    let mut i: u8 = 0;
    while i < e
        invariant
            i <= e,
            e <= 64,
            r == pow2(i as nat),
        decreases e - i,
    {
        proof {
            lemma_pow2_adds(i as nat, 1);
            lemma2_to64();
            if i + 1 < 64 {
                lemma_pow2_strictly_increases((i + 1) as nat, 64);
            }
            lemma2_to64_rest();
        }
        r = r * 2;
        i = i + 1;
    }
    r
}

/// The dense estimate, executable.
fn dense_count(regs: &Vec<u8>, p: u8) -> (r: u64)
    requires
        4 <= p <= 16,
        regs@.len() == pow2(p as nat),
        forall|j: int| 0 <= j < regs@.len() ==> #[trigger] regs@[j] <= 61,
    ensures
        r == spec_dense_count(regs@, p),
{
    proof {
        lemma2_to64();
        lemma2_to64_rest();
        if (p as nat) < 16 {
            lemma_pow2_strictly_increases(p as nat, 16);
        }
    }
    let n = regs.len();
    let mut s_acc: u128 = 0;
    let mut i: usize = 0;
    while i < n
        invariant
            i <= n,
            n == regs@.len(),
            forall|j: int| 0 <= j < regs@.len() ==> #[trigger] regs@[j] <= 61,
            s_acc == spec_harmonic(regs@.take(i as int)),
            s_acc <= i * 0x1_0000_0000_0000_0000u128,
        decreases n - i,
    {
        let reg = regs[i];
        let term = pow2_u128(64 - reg);
        proof {
            if ((64 - reg) as nat) < 64 {
                lemma_pow2_strictly_increases((64 - reg) as nat, 64);
            }
            lemma2_to64_rest();
            assert(regs@.take(i + 1).drop_last() =~= regs@.take(i as int));
            assert(regs@.take(i + 1).last() == regs@[i as int]);
        }
        s_acc = s_acc + term;
        i = i + 1;
    }
    proof {
        assert(regs@.take(n as int) =~= regs@);
        lemma_harmonic_pos(regs@);
        lemma_pow2_pos(p as nat);
        assert(n * 0x1_0000_0000_0000_0000u128 <= 0x1_0000_0000_0000_0000_0000u128)
            by (nonlinear_arith)
            requires n <= 0x1_0000u128;
    }
    let mc = n as u128;
    let a1: u128 = 7213 * mc;
    proof {
        assert(a1 * mc <= 0x2000_0000_0000u128) by (nonlinear_arith)
            requires a1 <= 0x2000_0000u128, mc <= 0x1_0000u128;
    }
    let a2: u128 = a1 * mc;
    proof {
        assert(a2 * mc <= 0x2000_0000_0000_0000u128) by (nonlinear_arith)
            requires a2 <= 0x2000_0000_0000u128, mc <= 0x1_0000u128;
    }
    let a3: u128 = a2 * mc;
    let p64 = pow2_u128(64);
    proof {
        lemma2_to64_rest();
        assert(a3 * p64 <= u128::MAX) by (nonlinear_arith)
            requires a3 <= 0x2000_0000_0000_0000u128, p64 == 0x1_0000_0000_0000_0000u128;
    }
    let num: u128 = a3 * p64;
    let b1: u128 = 1000 * mc + 1079;
    let b2: u128 = 10 * b1;
    proof {
        assert(0 < b2 * s_acc <= u128::MAX) by (nonlinear_arith)
            requires
                0 < b2 <= 0x4_0000_0000u128,
                0 < s_acc <= 0x1_0000_0000_0000_0000_0000u128;
    }
    let den: u128 = b2 * s_acc;
    let e128: u128 = num / den;
    if e128 > 0xFFFF_FFFF_FFFF_FFFFu128 {
        u64::MAX
    } else {
        e128 as u64
    }
}

impl SketchState {
    /// The estimated number of distinct values: exact (the number of
    /// distinct hashes) while the sketch is sparse.
    pub fn count(&self) -> (r: u64)
        requires
            self.wf(),
        ensures
            r == spec_card_count(*self),
            self.repr is Sparse ==> r == self.hashes@.len(),
    {
        match &self.repr {
            SketchRepr::Sparse(v) => v.len() as u64,
            SketchRepr::Dense(regs) => dense_count(regs, self.precision),
        }
    }
}

/// Two strictly ascending sequences over the same element set are equal.
proof fn lemma_sorted_set_unique(v1: Seq<u64>, v2: Seq<u64>)
    requires
        strictly_sorted(v1),
        strictly_sorted(v2),
        v1.to_set() == v2.to_set(),
    ensures
        v1 == v2,
    decreases v1.len(),
{
    if v1.len() == 0 {
        if v2.len() > 0 {
            assert(v1.to_set().contains(v2[0]));
        }
        assert(v1 =~= v2);
    } else {
        assert(v2.len() > 0) by {
            assert(v2.to_set().contains(v1[0]));
        }
        // The last elements are both the maximum of the set.
        assert(v2.to_set().contains(v1.last()));
        assert(v1.to_set().contains(v2.last()));
        let i = choose|i: int| 0 <= i < v2.len() && v2[i] == v1.last();
        let j = choose|j: int| 0 <= j < v1.len() && v1[j] == v2.last();
        assert(v1.last() <= v2.last()) by {
            if i < v2.len() - 1 {
                assert(v2[i] < v2[v2.len() - 1]);
            }
        }
        assert(v2.last() <= v1.last()) by {
            if j < v1.len() - 1 {
                assert(v1[j] < v1[v1.len() - 1]);
            }
        }
        // Dropping the shared maximum keeps the sets equal.
        assert(v1.drop_last().to_set() =~= v2.drop_last().to_set()) by {
            assert forall|x: u64| v1.drop_last().to_set().contains(x) implies
                v2.drop_last().to_set().contains(x) by {
                let k = choose|k: int| 0 <= k < v1.len() - 1 && v1[k] == x;
                assert(x < v1.last());
                assert(v2.to_set().contains(x));
                let m = choose|m: int| 0 <= m < v2.len() && v2[m] == x;
                assert(m < v2.len() - 1);
                assert(v2.drop_last()[m] == x);
            }
            assert forall|x: u64| v2.drop_last().to_set().contains(x) implies
                v1.drop_last().to_set().contains(x) by {
                let k = choose|k: int| 0 <= k < v2.len() - 1 && v2[k] == x;
                assert(x < v2.last());
                assert(v1.to_set().contains(x));
                let m = choose|m: int| 0 <= m < v1.len() && v1[m] == x;
                assert(m < v1.len() - 1);
                assert(v1.drop_last()[m] == x);
            }
        }
        lemma_sorted_set_unique(v1.drop_last(), v2.drop_last());
        assert(v1.len() == v2.len());
        assert forall|k: int| 0 <= k < v1.len() implies v1[k] == v2[k] by {
            if k < v1.len() - 1 {
                assert(v1.drop_last()[k] == v2.drop_last()[k]);
            }
        }
        assert(v1 =~= v2);
    }
}

/// The sketch is a function of the absorbed hash set: two well-formed
/// sketches of the same precision over the same hashes have identical
/// representations, whatever order of inserts and merges built them.
pub proof fn lemma_sketch_canonical(s1: SketchState, s2: SketchState)
    requires
        s1.wf(),
        s2.wf(),
        s1.precision == s2.precision,
        s1.hashes@ == s2.hashes@,
    ensures
        match (s1.repr, s2.repr) {
            (SketchRepr::Sparse(v1), SketchRepr::Sparse(v2)) => v1@ == v2@,
            (SketchRepr::Dense(r1), SketchRepr::Dense(r2)) => r1@ == r2@,
            _ => false,
        },
{
    let p = s1.precision;
    let hs = s1.hashes@;
    match (s1.repr, s2.repr) {
        (SketchRepr::Sparse(v1), SketchRepr::Sparse(v2)) => {
            lemma_sorted_set_unique(v1@, v2@);
        },
        (SketchRepr::Dense(r1), SketchRepr::Dense(r2)) => {
            assert forall|j: int| 0 <= j < r1@.len() implies r1@[j] == r2@[j] by {
                if r1@[j] != 0 {
                    let h = choose|h: u64|
                        hs.contains(h) && spec_idx(h, p) == j && spec_rho(h, p) == r1@[j];
                    assert(r2@[j] >= r1@[j]);
                }
                if r2@[j] != 0 {
                    let h = choose|h: u64|
                        hs.contains(h) && spec_idx(h, p) == j && spec_rho(h, p) == r2@[j];
                    assert(r1@[j] >= r2@[j]);
                }
            }
            assert(r1@ =~= r2@);
        },
        // Mixed forms cannot happen: the set's size determines the form.
        (SketchRepr::Sparse(_), SketchRepr::Dense(_)) => {},
        (SketchRepr::Dense(_), SketchRepr::Sparse(_)) => {},
    }
}

} // verus!
