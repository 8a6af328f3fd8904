use vstd::prelude::*;
use vstd::arithmetic::div_mod::{lemma_small_mod, lemma_mod_multiples_vanish, lemma_add_mod_noop};

verus! {

// Accumulator fields of the aggregate states hold running sums that no fixed
// width can bound for arbitrary inputs, so they use wrapping arithmetic:
// every sum is exact modulo 2^128 (or 2^64 for row counts).  Wrapping keeps
// addition associative and commutative, which the merge operations rely on.

/// The size of the `i128` value range, 2^128.
pub open spec fn range128() -> int {
    0x1_0000_0000_0000_0000_0000_0000_0000_0000int
}

/// The size of the `u64` value range, 2^64.
pub open spec fn range64() -> int {
    0x1_0000_0000_0000_0000int
}

/// The unique `i128` congruent to `x` modulo 2^128: the exact value of any
/// chain of `i128` wrapping operations whose mathematical result is `x`.
/// Opaque: proofs go through the lemmas below, which collapse nested wraps.
#[verifier::opaque]
pub open spec fn wrap128(x: int) -> i128 {
    vstd::wrapping::i128_specs::signed_crop(x)
}

/// The unique `u64` congruent to `x` modulo 2^64.
pub open spec fn wrap64(x: int) -> u64 {
    (x % range64()) as u64
}

pub proof fn lemma_wrap128_small(x: int)
    requires
        i128::MIN <= x <= i128::MAX,
    ensures
        wrap128(x) == x,
{
    reveal(wrap128);
    if x >= 0 {
        lemma_small_mod(x as nat, range128() as nat);
    } else {
        lemma_mod_multiples_vanish(1, x, range128());
        lemma_small_mod((x + range128()) as nat, range128() as nat);
    }
}

/// `wrap128` depends on its argument only through its residue modulo 2^128.
pub proof fn lemma_wrap128_congruent(x: int, y: int)
    requires
        x % range128() == y % range128(),
    ensures
        wrap128(x) == wrap128(y),
{
    reveal(wrap128);
}

/// The residue of a wrapped value is the residue of the exact value.
pub proof fn lemma_wrap128_mod(x: int)
    ensures
        (wrap128(x) as int) % range128() == x % range128(),
{
    reveal(wrap128);
    let r = range128();
    if x % r > i128::MAX {
        lemma_mod_multiples_vanish(-1, x % r, r);
        vstd::arithmetic::div_mod::lemma_mod_twice(x, r);
    } else {
        vstd::arithmetic::div_mod::lemma_mod_twice(x, r);
    }
}

/// Collapsing an inner wrap into an outer one loses nothing.
pub proof fn lemma_wrap128_add(a: int, b: int)
    ensures
        wrap128(wrap128(a) + b) == wrap128(a + b),
{
    let r = range128();
    lemma_wrap128_mod(a);
    lemma_add_mod_noop(wrap128(a) as int, b, r);
    lemma_add_mod_noop(a, b, r);
    lemma_wrap128_congruent(wrap128(a) + b, a + b);
}

/// Collapsing an inner wrap under a product loses nothing.
pub proof fn lemma_wrap128_mul(a: int, b: int)
    ensures
        wrap128(wrap128(a) * b) == wrap128(a * b),
{
    let r = range128();
    lemma_wrap128_mod(a);
    let wa = wrap128(a) as int;
    vstd::arithmetic::div_mod::lemma_mul_mod_noop_left(wa, b, r);
    vstd::arithmetic::div_mod::lemma_mul_mod_noop_left(a, b, r);
    lemma_wrap128_congruent(wa * b, a * b);
}

/// Collapsing both inner wraps of a sum loses nothing.
pub proof fn lemma_wrap128_add_both(a: int, b: int)
    ensures
        wrap128(wrap128(a) + wrap128(b)) == wrap128(a + b),
{
    lemma_wrap128_add(a, wrap128(b) as int);
    lemma_wrap128_add(b, a);
}

/// The standard library's wrapping addition computes `wrap128` of the sum.
pub proof fn lemma_wrapping_add_is_wrap128(x: i128, y: i128)
    ensures
        vstd::wrapping::i128_specs::wrapping_add(x, y) == wrap128(x + y),
{
    reveal(wrap128);
    let r = range128();
    let t = x + y;
    if t > i128::MAX {
        lemma_small_mod(t as nat, r as nat);
    } else if t < i128::MIN {
        lemma_mod_multiples_vanish(1, t, r);
        lemma_small_mod((t + r) as nat, r as nat);
    } else {
        lemma_wrap128_small(t);
    }
}

/// The standard library's wrapping multiplication computes `wrap128` of the
/// product.
pub proof fn lemma_wrapping_mul_is_wrap128(x: i128, y: i128)
    ensures
        vstd::wrapping::i128_specs::wrapping_mul(x, y) == wrap128(x * y),
{
    reveal(wrap128);
}

/// The standard library's wrapping addition on `u64` computes `wrap64`.
pub proof fn lemma_wrapping_add_is_wrap64(x: u64, y: u64)
    ensures
        vstd::wrapping::u64_specs::wrapping_add(x, y) == wrap64(x + y),
{
    let r = range64();
    let t = x + y;
    if t > u64::MAX {
        lemma_mod_multiples_vanish(-1, t, r);
        lemma_small_mod((t - r) as nat, r as nat);
    } else {
        lemma_small_mod(t as nat, r as nat);
    }
}

/// Collapsing an inner `wrap64` into an outer one loses nothing.
pub proof fn lemma_wrap64_add(a: int, b: int)
    ensures
        wrap64(wrap64(a) + b) == wrap64(a + b),
{
    let r = range64();
    vstd::arithmetic::div_mod::lemma_mod_bound(a, r);
    vstd::arithmetic::div_mod::lemma_mod_twice(a, r);
    vstd::arithmetic::div_mod::lemma_mod_twice(b, r);
    lemma_add_mod_noop(a % r, b, r);
    lemma_add_mod_noop(a, b, r);
}

/// The unique `i64` congruent to `x` modulo 2^64.
pub open spec fn wrapi64(x: int) -> i64 {
    vstd::wrapping::i64_specs::signed_crop(x)
}

/// The standard library's wrapping addition on `i64` computes `wrapi64`.
pub proof fn lemma_wrapping_add_is_wrapi64(x: i64, y: i64)
    ensures
        vstd::wrapping::i64_specs::wrapping_add(x, y) == wrapi64(x + y),
{
    let r = range64();
    let t = x + y;
    if t > i64::MAX {
        lemma_small_mod(t as nat, r as nat);
    } else if t < i64::MIN {
        lemma_mod_multiples_vanish(1, t, r);
        lemma_small_mod((t + r) as nat, r as nat);
    } else {
        if t >= 0 {
            lemma_small_mod(t as nat, r as nat);
        } else {
            lemma_mod_multiples_vanish(1, t, r);
            lemma_small_mod((t + r) as nat, r as nat);
        }
    }
}

/// Wrapped sum of two `i64` values.
pub fn wadd_i64(a: i64, b: i64) -> (r: i64)
    ensures
        r == wrapi64(a + b),
{
    proof {
        lemma_wrapping_add_is_wrapi64(a, b);
    }
    a.wrapping_add(b)
}

/// Wrapped difference of two `i64` values.
pub fn wsub_i64(a: i64, b: i64) -> (r: i64)
    ensures
        r == wrapi64(a - b),
{
    let ghost r64 = range64();
    proof {
        let t = a - b;
        if t > i64::MAX {
            lemma_small_mod(t as nat, r64 as nat);
        } else if t >= 0 {
            lemma_small_mod(t as nat, r64 as nat);
        } else {
            lemma_mod_multiples_vanish(1, t, r64);
            lemma_small_mod((t + r64) as nat, r64 as nat);
        }
    }
    a.wrapping_sub(b)
}

/// Wrapped product of two `i64` values.
pub fn wmul_i64(a: i64, b: i64) -> (r: i64)
    ensures
        r == wrapi64(a * b),
{
    a.wrapping_mul(b)
}

/// Wrapped sum of two `i128` values.
pub fn wadd(a: i128, b: i128) -> (r: i128)
    ensures
        r == wrap128(a + b),
{
    proof {
        lemma_wrapping_add_is_wrap128(a, b);
    }
    a.wrapping_add(b)
}

/// Wrapped difference of two `i128` values.
pub fn wsub(a: i128, b: i128) -> (r: i128)
    ensures
        r == wrap128(a - b),
{
    let ghost r128 = range128();
    proof {
        reveal(wrap128);
        let t = a - b;
        if t > i128::MAX {
            lemma_small_mod(t as nat, r128 as nat);
        } else if t >= 0 {
            lemma_small_mod(t as nat, r128 as nat);
        } else {
            lemma_mod_multiples_vanish(1, t, r128);
            lemma_small_mod((t + r128) as nat, r128 as nat);
        }
    }
    a.wrapping_sub(b)
}

/// Wrapped product of two `i128` values.
pub fn wmul(a: i128, b: i128) -> (r: i128)
    ensures
        r == wrap128(a * b),
{
    proof {
        lemma_wrapping_mul_is_wrap128(a, b);
    }
    a.wrapping_mul(b)
}

/// `x` clamped into the `u64` range from above.
pub open spec fn sat64(x: int) -> u64 {
    if x > u64::MAX {
        u64::MAX
    } else if x < 0 {
        0
    } else {
        x as u64
    }
}

/// Saturating sum of two `u64` values.  Unlike wrapping, saturation keeps
/// event counters monotone; like wrapping, it is associative and commutative
/// over non-negative terms.
pub fn sadd64(a: u64, b: u64) -> (r: u64)
    ensures
        r == sat64(a + b),
{
    if a > u64::MAX - b {
        u64::MAX
    } else {
        a + b
    }
}

/// Wrapped sum of two `u64` values.
pub fn wadd64(a: u64, b: u64) -> (r: u64)
    ensures
        r == wrap64(a + b),
{
    proof {
        lemma_wrapping_add_is_wrap64(a, b);
    }
    a.wrapping_add(b)
}

} // verus!
