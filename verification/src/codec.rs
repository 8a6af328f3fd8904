use vstd::prelude::*;
use vstd::arithmetic::power2::{pow2, lemma_pow2_adds, lemma_pow2_pos, lemma2_to64, lemma2_to64_rest};
use vstd::arithmetic::div_mod::{lemma_fundamental_div_mod, lemma_multiply_divide_lt,
    lemma_div_denominator};

verus! {

// Persistence: aggregate states and fused pipelines are serialized to a
// versioned byte layout - a version tag first, then the fields, each integer
// little-endian and fixed-width.  Decoding checks the tag, the length and
// the structural invariants of the state, and refuses anything else; a
// successful decode returns exactly the encoded value (the round-trip
// lemmas).

/// Why a persisted blob was refused.
#[derive(Clone, Copy, PartialEq, Eq, Structural, Debug)]
pub enum DecodeError {
    /// The blob is shorter or longer than its shape declares.
    BadLength,
    /// The version tag is not one this library writes.
    UnknownVersion,
    /// A field violates the invariants of the declared shape.
    Malformed,
}

/// The version tag this library writes.
pub const FORMAT_VERSION: u8 = 1;

/// `x` in `n` little-endian bytes.
pub open spec fn spec_le_bytes(x: nat, n: nat) -> Seq<u8>
    decreases n,
{
    if n == 0 {
        Seq::empty()
    } else {
        seq![(x % 256) as u8] + spec_le_bytes(x / 256, (n - 1) as nat)
    }
}

/// The value of a little-endian byte string.
pub open spec fn spec_le_val(s: Seq<u8>) -> nat
    decreases s.len(),
{
    if s.len() == 0 {
        0
    } else {
        (s[0] + 256 * spec_le_val(s.drop_first())) as nat
    }
}

/// Encoding fits the width and decodes to the value again.
pub proof fn lemma_le_round_trip(x: nat, n: nat)
    requires
        x < pow2(8 * n),
    ensures
        spec_le_bytes(x, n).len() == n,
        spec_le_val(spec_le_bytes(x, n)) == x,
    decreases n,
{
    if n == 0 {
        lemma2_to64();
    } else {
        lemma_pow2_adds(8, 8 * (n - 1) as nat);
        lemma_pow2_pos(8 * (n - 1) as nat);
        lemma2_to64();
        lemma_multiply_divide_lt(x as int, 256, pow2(8 * (n - 1) as nat) as int);
        lemma_le_round_trip(x / 256, (n - 1) as nat);
        let s = spec_le_bytes(x, n);
        assert(s.drop_first() =~= spec_le_bytes(x / 256, (n - 1) as nat));
        lemma_fundamental_div_mod(x as int, 256);
    }
}

/// A little-endian byte string's value fits its width.
pub proof fn lemma_le_val_bound(s: Seq<u8>)
    ensures
        spec_le_val(s) < pow2(8 * s.len()),
    decreases s.len(),
{
    if s.len() == 0 {
        lemma2_to64();
    } else {
        lemma_le_val_bound(s.drop_first());
        lemma_pow2_adds(8, 8 * (s.len() - 1) as nat);
        lemma2_to64();
        assert(spec_le_val(s) == s[0] + 256 * spec_le_val(s.drop_first()));
        assert(256 * spec_le_val(s.drop_first()) <= 256 * (pow2(8 * (s.len() - 1) as nat) - 1))
            by (nonlinear_arith)
            requires spec_le_val(s.drop_first()) <= pow2(8 * (s.len() - 1) as nat) - 1;
    }
}

/// Byte `i` of the encoding is the value shifted down `i` bytes, modulo 256.
proof fn lemma_le_bytes_index(x: nat, n: nat, i: int)
    requires
        0 <= i < n,
    ensures
        spec_le_bytes(x, n).len() == n,
        spec_le_bytes(x, n)[i] == ((x / pow2((8 * i) as nat)) % 256) as u8,
    decreases n,
{
    lemma_le_bytes_len(x, n);
    if i == 0 {
        lemma2_to64();
        vstd::arithmetic::div_mod::lemma_div_basics(x as int);
    } else {
        lemma_le_bytes_index(x / 256, (n - 1) as nat, i - 1);
        assert(spec_le_bytes(x, n)[i] == spec_le_bytes(x / 256, (n - 1) as nat)[i - 1]);
        lemma_pow2_pos((8 * (i - 1)) as nat);
        lemma_pow2_adds(8, (8 * (i - 1)) as nat);
        lemma2_to64();
        lemma_div_denominator(x as int, 256, pow2((8 * (i - 1)) as nat) as int);
    }
}

/// The encoding has the requested width.
proof fn lemma_le_bytes_len(x: nat, n: nat)
    ensures
        spec_le_bytes(x, n).len() == n,
    decreases n,
{
    if n > 0 {
        lemma_le_bytes_len(x / 256, (n - 1) as nat);
    }
}

/// Append `x` as `n` little-endian bytes.
fn write_le(out: &mut Vec<u8>, x: u128, n: usize)
    requires
        n <= 16,
    ensures
        final(out)@ == old(out)@ + spec_le_bytes(x as nat, n as nat),
{
    let ghost orig = out@;
    let ghost full = spec_le_bytes(x as nat, n as nat);
    proof {
        lemma_le_bytes_len(x as nat, n as nat);
        lemma2_to64();
        vstd::arithmetic::div_mod::lemma_div_basics(x as int);
    }
    let mut cur = x;
    let mut i: usize = 0;
    while i < n
        invariant
            i <= n,
            full == spec_le_bytes(x as nat, n as nat),
            full.len() == n,
            out@ == orig + full.take(i as int),
            cur == x as nat / pow2((8 * i) as nat),
        decreases n - i,
    {
        proof {
            lemma_le_bytes_index(x as nat, n as nat, i as int);
            lemma_pow2_pos((8 * i) as nat);
            lemma_div_denominator(x as int, pow2((8 * i) as nat) as int, 256);
            lemma_pow2_adds((8 * i) as nat, 8);
            lemma2_to64();
            assert(orig + full.take(i + 1) =~= (orig + full.take(i as int)).push(full[i as int]));
        }
        out.push((cur % 256) as u8);
        cur = cur / 256;
        i = i + 1;
    }
    proof {
        assert(full.take(n as int) =~= full);
    }
}

/// Read `n` little-endian bytes starting at `pos`.
fn read_le(buf: &Vec<u8>, pos: usize, n: usize) -> (r: u128)
    requires
        n <= 16,
        pos + n <= buf@.len(),
    ensures
        r == spec_le_val(buf@.subrange(pos as int, pos + n)),
{
    let ghost s = buf@.subrange(pos as int, pos + n);
    let m = buf.len();
    let mut val: u128 = 0;
    let mut j: usize = n;
    proof {
        assert(s.skip(n as int) =~= Seq::<u8>::empty());
        lemma2_to64();
    }
    while j > 0
        invariant
            j <= n,
            n <= 16,
            pos + n <= buf@.len(),
            m == buf@.len(),
            s == buf@.subrange(pos as int, pos + n),
            val == spec_le_val(s.skip(j as int)),
            val < pow2((8 * (n - j)) as nat),
        decreases j,
    {
        proof {
            lemma_le_val_bound(s.skip(j - 1));
            assert(s.skip(j - 1).drop_first() =~= s.skip(j as int));
            assert(s.skip(j - 1)[0] == s[j - 1]);
            assert(s[j - 1] == buf@[pos + j - 1]);
            lemma_pow2_adds(8, (8 * (n - j)) as nat);
            lemma2_to64();
            lemma2_to64_rest();
            assert((8 * (n - j + 1)) as nat <= 128);
            lemma_pow2_le_128((8 * (n - j + 1)) as nat);
            assert(256 * val <= 256 * (pow2((8 * (n - j)) as nat) - 1)) by (nonlinear_arith)
                requires val <= pow2((8 * (n - j)) as nat) - 1;
        }
        j = j - 1;
        let b = buf[pos + j];
        val = val * 256 + (b as u128);
    }
    proof {
        assert(s.skip(0) =~= s);
    }
    val
}

/// Powers of two up to the 128th fit a `u128`.
proof fn lemma_pow2_le_128(e: nat)
    requires
        e <= 128,
    ensures
        pow2(e) <= 0x1_0000_0000_0000_0000_0000_0000_0000_0000nat,
{
    if e < 128 {
        vstd::arithmetic::power2::lemma_pow2_strictly_increases(e, 128);
    }
    lemma_pow2_128();
}

/// The value of the 128th power of two.
proof fn lemma_pow2_128()
    ensures
        pow2(128) == 0x1_0000_0000_0000_0000_0000_0000_0000_0000nat,
{
    lemma2_to64_rest();
    lemma_pow2_adds(64, 64);
}

/// The bit pattern of an `i64`, as a number.
pub open spec fn spec_i64_bits(v: i64) -> nat {
    if v >= 0 {
        v as nat
    } else {
        (v + 0x1_0000_0000_0000_0000) as nat
    }
}

/// The `i64` with a given bit pattern.
pub open spec fn spec_i64_from_bits(u: nat) -> i64 {
    if u < 0x8000_0000_0000_0000 {
        u as i64
    } else {
        (u - 0x1_0000_0000_0000_0000) as i64
    }
}

/// The bit pattern of an `i128`, as a number.
pub open spec fn spec_i128_bits(v: i128) -> nat {
    if v >= 0 {
        v as nat
    } else {
        (v + 0x1_0000_0000_0000_0000_0000_0000_0000_0000) as nat
    }
}

/// The `i128` with a given bit pattern.
pub open spec fn spec_i128_from_bits(u: nat) -> i128 {
    if u < 0x8000_0000_0000_0000_0000_0000_0000_0000 {
        u as i128
    } else {
        (u - 0x1_0000_0000_0000_0000_0000_0000_0000_0000) as i128
    }
}

/// Append an `i64` as 8 little-endian bytes of its bit pattern.
fn write_i64(out: &mut Vec<u8>, v: i64)
    ensures
        final(out)@ == old(out)@ + spec_le_bytes(spec_i64_bits(v), 8),
{
    let u: u128 = if v >= 0 {
        v as u128
    } else {
        let folded: i128 = (v as i128) + 0x1_0000_0000_0000_0000i128;
        folded as u128
    };
    proof {
        lemma2_to64_rest();
    }
    write_le(out, u, 8);
}

/// Append an `i128` as 16 little-endian bytes of its bit pattern.
fn write_i128(out: &mut Vec<u8>, v: i128)
    ensures
        final(out)@ == old(out)@ + spec_le_bytes(spec_i128_bits(v), 16),
{
    let u: u128 = if v >= 0 {
        v as u128
    } else {
        ((v + 0x4000_0000_0000_0000_0000_0000_0000_0000i128)
            + 0x4000_0000_0000_0000_0000_0000_0000_0000i128) as u128 + 0x8000_0000_0000_0000_0000_0000_0000_0000u128
    };
    write_le(out, u, 16);
}

/// Append a `u64` as 8 little-endian bytes.
fn write_u64(out: &mut Vec<u8>, v: u64)
    ensures
        final(out)@ == old(out)@ + spec_le_bytes(v as nat, 8),
{
    write_le(out, v as u128, 8);
}

/// Read an `i64`'s bit pattern.
fn read_i64(buf: &Vec<u8>, pos: usize) -> (r: i64)
    requires
        pos + 8 <= buf@.len(),
    ensures
        r == spec_i64_from_bits(spec_le_val(buf@.subrange(pos as int, pos + 8))),
{
    let u = read_le(buf, pos, 8);
    proof {
        lemma_le_val_bound(buf@.subrange(pos as int, pos + 8));
        lemma2_to64_rest();
    }
    if u < 0x8000_0000_0000_0000u128 {
        u as i64
    } else {
        ((u as i128) - 0x1_0000_0000_0000_0000i128) as i64
    }
}

/// Read an `i128`'s bit pattern.
fn read_i128(buf: &Vec<u8>, pos: usize) -> (r: i128)
    requires
        pos + 16 <= buf@.len(),
    ensures
        r == spec_i128_from_bits(spec_le_val(buf@.subrange(pos as int, pos + 16))),
{
    let u = read_le(buf, pos, 16);
    proof {
        lemma_le_val_bound(buf@.subrange(pos as int, pos + 16));
        lemma_pow2_128();
    }
    if u < 0x8000_0000_0000_0000_0000_0000_0000_0000u128 {
        u as i128
    } else {
        (u - 0x8000_0000_0000_0000_0000_0000_0000_0000u128) as i128
            + (-0x4000_0000_0000_0000_0000_0000_0000_0000i128
            - 0x4000_0000_0000_0000_0000_0000_0000_0000i128)
    }
}

/// Read a `u64`.
fn read_u64(buf: &Vec<u8>, pos: usize) -> (r: u64)
    requires
        pos + 8 <= buf@.len(),
    ensures
        r == spec_le_val(buf@.subrange(pos as int, pos + 8)),
{
    let u = read_le(buf, pos, 8);
    proof {
        lemma_le_val_bound(buf@.subrange(pos as int, pos + 8));
        lemma2_to64_rest();
    }
    u as u64
}

/// Bit patterns restore the signed value.
pub proof fn lemma_i64_bits_round_trip(v: i64)
    ensures
        spec_i64_bits(v) < pow2(64),
        spec_i64_from_bits(spec_i64_bits(v)) == v,
{
    lemma2_to64_rest();
}

/// Bit patterns restore the signed value.
pub proof fn lemma_i128_bits_round_trip(v: i128)
    ensures
        spec_i128_bits(v) < pow2(128),
        spec_i128_from_bits(spec_i128_bits(v)) == v,
{
    lemma_pow2_128();
}

/// The persisted form of a statistics state: the version tag, the count,
/// then the four moment sums.
pub open spec fn spec_stats_encode(st: crate::stats::StatsState) -> Seq<u8> {
    seq![FORMAT_VERSION] + spec_le_bytes(st.n as nat, 8) + spec_le_bytes(spec_i128_bits(st.sx), 16)
        + spec_le_bytes(spec_i128_bits(st.sx2), 16) + spec_le_bytes(spec_i128_bits(st.sx3), 16)
        + spec_le_bytes(spec_i128_bits(st.sx4), 16)
}

/// What decoding a persisted statistics state yields.
pub open spec fn spec_stats_decode(s: Seq<u8>) -> Result<crate::stats::StatsState, DecodeError> {
    if s.len() < 1 {
        Err(DecodeError::BadLength)
    } else if s[0] != FORMAT_VERSION {
        Err(DecodeError::UnknownVersion)
    } else if s.len() != 73 {
        Err(DecodeError::BadLength)
    } else {
        Ok(
            crate::stats::StatsState {
                n: spec_le_val(s.subrange(1, 9)) as u64,
                sx: spec_i128_from_bits(spec_le_val(s.subrange(9, 25))),
                sx2: spec_i128_from_bits(spec_le_val(s.subrange(25, 41))),
                sx3: spec_i128_from_bits(spec_le_val(s.subrange(41, 57))),
                sx4: spec_i128_from_bits(spec_le_val(s.subrange(57, 73))),
            },
        )
    }
}

/// Serialize a statistics state.
pub fn encode_stats(st: &crate::stats::StatsState) -> (r: Vec<u8>)
    ensures
        r@ == spec_stats_encode(*st),
{
    let mut out: Vec<u8> = Vec::new();
    out.push(FORMAT_VERSION);
    proof {
        assert(out@ =~= seq![FORMAT_VERSION]);
    }
    write_u64(&mut out, st.n);
    write_i128(&mut out, st.sx);
    write_i128(&mut out, st.sx2);
    write_i128(&mut out, st.sx3);
    write_i128(&mut out, st.sx4);
    proof {
        assert(out@ =~= spec_stats_encode(*st));
    }
    out
}

/// Deserialize a statistics state; unknown versions and wrong lengths are
/// refused.
pub fn decode_stats(buf: &Vec<u8>) -> (r: Result<crate::stats::StatsState, DecodeError>)
    ensures
        r == spec_stats_decode(buf@),
{
    if buf.len() < 1 {
        return Err(DecodeError::BadLength);
    }
    if buf[0] != FORMAT_VERSION {
        return Err(DecodeError::UnknownVersion);
    }
    if buf.len() != 73 {
        return Err(DecodeError::BadLength);
    }
    proof {
        lemma_le_val_bound(buf@.subrange(1, 9));
        lemma2_to64_rest();
    }
    let n = read_u64(buf, 1);
    let sx = read_i128(buf, 9);
    let sx2 = read_i128(buf, 25);
    let sx3 = read_i128(buf, 41);
    let sx4 = read_i128(buf, 57);
    Ok(crate::stats::StatsState { n, sx, sx2, sx3, sx4 })
}

/// A persisted statistics state decodes to the state it was made from.
pub proof fn lemma_stats_codec_round_trip(st: crate::stats::StatsState)
    ensures
        spec_stats_decode(spec_stats_encode(st)) == Ok::<crate::stats::StatsState, DecodeError>(st),
{
    let enc = spec_stats_encode(st);
    lemma2_to64_rest();
    lemma_le_round_trip(st.n as nat, 8);
    lemma_i128_bits_round_trip(st.sx);
    lemma_i128_bits_round_trip(st.sx2);
    lemma_i128_bits_round_trip(st.sx3);
    lemma_i128_bits_round_trip(st.sx4);
    lemma_le_round_trip(spec_i128_bits(st.sx), 16);
    lemma_le_round_trip(spec_i128_bits(st.sx2), 16);
    lemma_le_round_trip(spec_i128_bits(st.sx3), 16);
    lemma_le_round_trip(spec_i128_bits(st.sx4), 16);
    assert(enc.len() == 73);
    assert(enc[0] == FORMAT_VERSION);
    assert(enc.subrange(1, 9) =~= spec_le_bytes(st.n as nat, 8));
    assert(enc.subrange(9, 25) =~= spec_le_bytes(spec_i128_bits(st.sx), 16));
    assert(enc.subrange(25, 41) =~= spec_le_bytes(spec_i128_bits(st.sx2), 16));
    assert(enc.subrange(41, 57) =~= spec_le_bytes(spec_i128_bits(st.sx3), 16));
    assert(enc.subrange(57, 73) =~= spec_le_bytes(spec_i128_bits(st.sx4), 16));
}

/// The sixteen persisted bytes of one point.
pub open spec fn spec_point_bytes(p: crate::point::Point) -> Seq<u8> {
    spec_le_bytes(spec_i64_bits(p.ts), 8) + spec_le_bytes(spec_i64_bits(p.val), 8)
}

/// The point encoded at offset `off`.
pub open spec fn spec_point_at(s: Seq<u8>, off: int) -> crate::point::Point {
    crate::point::Point {
        ts: spec_i64_from_bits(spec_le_val(s.subrange(off, off + 8))),
        val: spec_i64_from_bits(spec_le_val(s.subrange(off + 8, off + 16))),
    }
}

/// Append one point.
fn write_point(out: &mut Vec<u8>, p: &crate::point::Point)
    ensures
        final(out)@ == old(out)@ + spec_point_bytes(*p),
{
    write_i64(out, p.ts);
    write_i64(out, p.val);
    proof {
        assert(out@ =~= old(out)@ + spec_point_bytes(*p));
    }
}

/// Read one point at `pos`.
fn read_point(buf: &Vec<u8>, pos: usize) -> (r: crate::point::Point)
    requires
        pos + 16 <= buf@.len(),
    ensures
        r == spec_point_at(buf@, pos as int),
{
    // Materialize the length so the offset arithmetic is visibly in range.
    let _total = buf.len();
    let ts = read_i64(buf, pos);
    let val = read_i64(buf, pos + 8);
    crate::point::Point { ts, val }
}

/// The persisted form of a counter state: the version tag, the count, the
/// four retained points, the five sums, the two event counters, and the
/// bounds.
pub open spec fn spec_counter_encode(st: crate::counter::CounterState) -> Seq<u8> {
    seq![FORMAT_VERSION] + spec_le_bytes(st.n as nat, 8) + spec_point_bytes(st.first)
        + spec_point_bytes(st.second) + spec_point_bytes(st.penultimate) + spec_point_bytes(
        st.last,
    ) + spec_le_bytes(spec_i128_bits(st.sx), 16) + spec_le_bytes(spec_i128_bits(st.sy), 16)
        + spec_le_bytes(spec_i128_bits(st.sxy), 16) + spec_le_bytes(spec_i128_bits(st.sx2), 16)
        + spec_le_bytes(spec_i128_bits(st.reset_sum), 16) + spec_le_bytes(st.num_resets as nat, 8)
        + spec_le_bytes(st.num_changes as nat, 8) + spec_bounds_bytes(st.bounds)
}

/// The seventeen persisted bytes of the optional bounds.
pub open spec fn spec_bounds_bytes(b: Option<crate::counter::CounterBounds>) -> Seq<u8> {
    match b {
        None => seq![0u8] + spec_le_bytes(0, 8) + spec_le_bytes(0, 8),
        Some(b) => seq![1u8] + spec_le_bytes(spec_i64_bits(b.left), 8) + spec_le_bytes(
            spec_i64_bits(b.right),
            8,
        ),
    }
}

/// What a persisted counter state decodes to: unknown versions and wrong
/// lengths are refused, and so is any payload that breaks the state's
/// point-ordering or bounds invariants.
pub open spec fn spec_counter_decode(s: Seq<u8>) -> Result<
    crate::counter::CounterState,
    DecodeError,
> {
    if s.len() < 1 {
        Err(DecodeError::BadLength)
    } else if s[0] != FORMAT_VERSION {
        Err(DecodeError::UnknownVersion)
    } else if s.len() != 186 {
        Err(DecodeError::BadLength)
    } else {
        let flag = s[169];
        let bl = spec_le_val(s.subrange(170, 178));
        let br = spec_le_val(s.subrange(178, 186));
        let st = crate::counter::CounterState {
            n: spec_le_val(s.subrange(1, 9)) as u64,
            first: spec_point_at(s, 9),
            second: spec_point_at(s, 25),
            penultimate: spec_point_at(s, 41),
            last: spec_point_at(s, 57),
            sx: spec_i128_from_bits(spec_le_val(s.subrange(73, 89))),
            sy: spec_i128_from_bits(spec_le_val(s.subrange(89, 105))),
            sxy: spec_i128_from_bits(spec_le_val(s.subrange(105, 121))),
            sx2: spec_i128_from_bits(spec_le_val(s.subrange(121, 137))),
            reset_sum: spec_i128_from_bits(spec_le_val(s.subrange(137, 153))),
            num_resets: spec_le_val(s.subrange(153, 161)) as u64,
            num_changes: spec_le_val(s.subrange(161, 169)) as u64,
            bounds: if flag == 0 {
                None
            } else {
                Some(
                    crate::counter::CounterBounds {
                        left: spec_i64_from_bits(bl),
                        right: spec_i64_from_bits(br),
                    },
                )
            },
        };
        if flag == 0 && bl == 0 && br == 0 && st.wf() {
            Ok(st)
        } else if flag == 1 && st.wf() {
            Ok(st)
        } else {
            Err(DecodeError::Malformed)
        }
    }
}

/// Serialize a counter state.
pub fn encode_counter(st: &crate::counter::CounterState) -> (r: Vec<u8>)
    ensures
        r@ == spec_counter_encode(*st),
{
    let mut out: Vec<u8> = Vec::new();
    out.push(FORMAT_VERSION);
    write_u64(&mut out, st.n);
    write_point(&mut out, &st.first);
    write_point(&mut out, &st.second);
    write_point(&mut out, &st.penultimate);
    write_point(&mut out, &st.last);
    write_i128(&mut out, st.sx);
    write_i128(&mut out, st.sy);
    write_i128(&mut out, st.sxy);
    write_i128(&mut out, st.sx2);
    write_i128(&mut out, st.reset_sum);
    write_u64(&mut out, st.num_resets);
    write_u64(&mut out, st.num_changes);
    match st.bounds {
        None => {
            out.push(0u8);
            write_le(&mut out, 0, 8);
            write_le(&mut out, 0, 8);
        },
        Some(b) => {
            out.push(1u8);
            write_i64(&mut out, b.left);
            write_i64(&mut out, b.right);
        },
    }
    proof {
        assert(out@ =~= spec_counter_encode(*st));
    }
    out
}

/// Deserialize a counter state; anything inconsistent with the state's
/// invariants is refused, so a successful decode is well formed.
pub fn decode_counter(buf: &Vec<u8>) -> (r: Result<crate::counter::CounterState, DecodeError>)
    ensures
        r == spec_counter_decode(buf@),
        r matches Ok(st) ==> st.wf(),
{
    if buf.len() < 1 {
        return Err(DecodeError::BadLength);
    }
    if buf[0] != FORMAT_VERSION {
        return Err(DecodeError::UnknownVersion);
    }
    if buf.len() != 186 {
        return Err(DecodeError::BadLength);
    }
    proof {
        lemma_le_val_bound(buf@.subrange(1, 9));
        lemma_le_val_bound(buf@.subrange(153, 161));
        lemma_le_val_bound(buf@.subrange(161, 169));
        lemma2_to64_rest();
    }
    let n = read_u64(buf, 1);
    let first = read_point(buf, 9);
    let second = read_point(buf, 25);
    let penultimate = read_point(buf, 41);
    let last = read_point(buf, 57);
    let sx = read_i128(buf, 73);
    let sy = read_i128(buf, 89);
    let sxy = read_i128(buf, 105);
    let sx2 = read_i128(buf, 121);
    let reset_sum = read_i128(buf, 137);
    let num_resets = read_u64(buf, 153);
    let num_changes = read_u64(buf, 161);
    let flag = buf[169];
    let bl = read_le(buf, 170, 8);
    let br = read_le(buf, 178, 8);
    proof {
        lemma_le_val_bound(buf@.subrange(170, 178));
        lemma_le_val_bound(buf@.subrange(178, 186));
        lemma2_to64_rest();
    }
    let bounds = if flag == 0 {
        if !(bl == 0 && br == 0) {
            return Err(DecodeError::Malformed);
        }
        None
    } else if flag == 1 {
        Some(crate::counter::CounterBounds { left: bits_to_i64(bl), right: bits_to_i64(br) })
    } else {
        return Err(DecodeError::Malformed);
    };
    let st = crate::counter::CounterState {
        n,
        first,
        second,
        penultimate,
        last,
        sx,
        sy,
        sxy,
        sx2,
        reset_sum,
        num_resets,
        num_changes,
        bounds,
    };
    let points_ok = if n == 0 {
        false
    } else if n == 1 {
        second == first && penultimate == first && last == first && first.ts <= last.ts
    } else {
        first.ts <= last.ts && first.ts < second.ts && second.ts <= last.ts && first.ts
            <= penultimate.ts && penultimate.ts < last.ts
    };
    let bounds_ok = match st.bounds {
        None => true,
        Some(b) => b.left < b.right,
    };
    if points_ok && bounds_ok {
        Ok(st)
    } else {
        Err(DecodeError::Malformed)
    }
}

/// A persisted counter state decodes to the state it was made from.
pub proof fn lemma_counter_codec_round_trip(st: crate::counter::CounterState)
    requires
        st.wf(),
    ensures
        spec_counter_decode(spec_counter_encode(st)) == Ok::<
            crate::counter::CounterState,
            DecodeError,
        >(st),
{
    let enc = spec_counter_encode(st);
    lemma2_to64_rest();
    lemma_le_round_trip(st.n as nat, 8);
    lemma_le_round_trip(st.num_resets as nat, 8);
    lemma_le_round_trip(st.num_changes as nat, 8);
    lemma_le_round_trip(0, 8);
    lemma_i128_bits_round_trip(st.sx);
    lemma_i128_bits_round_trip(st.sy);
    lemma_i128_bits_round_trip(st.sxy);
    lemma_i128_bits_round_trip(st.sx2);
    lemma_i128_bits_round_trip(st.reset_sum);
    lemma_le_round_trip(spec_i128_bits(st.sx), 16);
    lemma_le_round_trip(spec_i128_bits(st.sy), 16);
    lemma_le_round_trip(spec_i128_bits(st.sxy), 16);
    lemma_le_round_trip(spec_i128_bits(st.sx2), 16);
    lemma_le_round_trip(spec_i128_bits(st.reset_sum), 16);
    lemma_point_round_trip(st.first);
    lemma_point_round_trip(st.second);
    lemma_point_round_trip(st.penultimate);
    lemma_point_round_trip(st.last);
    if st.bounds is Some {
        let b = st.bounds->Some_0;
        lemma_i64_bits_round_trip(b.left);
        lemma_i64_bits_round_trip(b.right);
        lemma_le_round_trip(spec_i64_bits(b.left), 8);
        lemma_le_round_trip(spec_i64_bits(b.right), 8);
    }
    assert(enc.len() == 186);
    assert(enc[0] == FORMAT_VERSION);
    assert(enc.subrange(1, 9) =~= spec_le_bytes(st.n as nat, 8));
    assert(enc.subrange(9, 25) =~= spec_point_bytes(st.first));
    assert(enc.subrange(25, 41) =~= spec_point_bytes(st.second));
    assert(enc.subrange(41, 57) =~= spec_point_bytes(st.penultimate));
    assert(enc.subrange(57, 73) =~= spec_point_bytes(st.last));
    assert(enc.subrange(73, 89) =~= spec_le_bytes(spec_i128_bits(st.sx), 16));
    assert(enc.subrange(89, 105) =~= spec_le_bytes(spec_i128_bits(st.sy), 16));
    assert(enc.subrange(105, 121) =~= spec_le_bytes(spec_i128_bits(st.sxy), 16));
    assert(enc.subrange(121, 137) =~= spec_le_bytes(spec_i128_bits(st.sx2), 16));
    assert(enc.subrange(137, 153) =~= spec_le_bytes(spec_i128_bits(st.reset_sum), 16));
    assert(enc.subrange(153, 161) =~= spec_le_bytes(st.num_resets as nat, 8));
    assert(enc.subrange(161, 169) =~= spec_le_bytes(st.num_changes as nat, 8));
    assert(enc.subrange(169, 186) =~= spec_bounds_bytes(st.bounds));
    assert(enc[169] == spec_bounds_bytes(st.bounds)[0]);
    assert(enc.subrange(170, 178) =~= spec_bounds_bytes(st.bounds).subrange(1, 9));
    assert(enc.subrange(178, 186) =~= spec_bounds_bytes(st.bounds).subrange(9, 17));
    match st.bounds {
        None => {
            assert(spec_bounds_bytes(st.bounds).subrange(1, 9) =~= spec_le_bytes(0, 8));
            assert(spec_bounds_bytes(st.bounds).subrange(9, 17) =~= spec_le_bytes(0, 8));
        },
        Some(b) => {
            assert(spec_bounds_bytes(st.bounds).subrange(1, 9) =~= spec_le_bytes(
                spec_i64_bits(b.left),
                8,
            ));
            assert(spec_bounds_bytes(st.bounds).subrange(9, 17) =~= spec_le_bytes(
                spec_i64_bits(b.right),
                8,
            ));
        },
    }
    assert(enc.subrange(9, 17) =~= spec_point_bytes(st.first).subrange(0, 8));
    assert(enc.subrange(17, 25) =~= spec_point_bytes(st.first).subrange(8, 16));
    assert(enc.subrange(25, 33) =~= spec_point_bytes(st.second).subrange(0, 8));
    assert(enc.subrange(33, 41) =~= spec_point_bytes(st.second).subrange(8, 16));
    assert(enc.subrange(41, 49) =~= spec_point_bytes(st.penultimate).subrange(0, 8));
    assert(enc.subrange(49, 57) =~= spec_point_bytes(st.penultimate).subrange(8, 16));
    assert(enc.subrange(57, 65) =~= spec_point_bytes(st.last).subrange(0, 8));
    assert(enc.subrange(65, 73) =~= spec_point_bytes(st.last).subrange(8, 16));
    assert(spec_point_at(enc, 9) == st.first);
    assert(spec_point_at(enc, 25) == st.second);
    assert(spec_point_at(enc, 41) == st.penultimate);
    assert(spec_point_at(enc, 57) == st.last);
}

/// A point's sixteen bytes decode to the point.
proof fn lemma_point_round_trip(p: crate::point::Point)
    ensures
        spec_point_bytes(p).len() == 16,
        spec_point_at(spec_point_bytes(p), 0) == p,
{
    lemma2_to64_rest();
    lemma_i64_bits_round_trip(p.ts);
    lemma_i64_bits_round_trip(p.val);
    lemma_le_round_trip(spec_i64_bits(p.ts), 8);
    lemma_le_round_trip(spec_i64_bits(p.val), 8);
    assert(spec_point_bytes(p).subrange(0, 8) =~= spec_le_bytes(spec_i64_bits(p.ts), 8));
    assert(spec_point_bytes(p).subrange(8, 16) =~= spec_le_bytes(spec_i64_bits(p.val), 8));
}

/// The nine persisted bytes of one transform element: a tag and the
/// right-hand operand's bit pattern (zero for the elements that take none).
pub open spec fn spec_element_encode(e: crate::pipeline::Element) -> Seq<u8> {
    match e {
        crate::pipeline::Element::Plus(rhs) => seq![0u8] + spec_le_bytes(spec_i64_bits(rhs), 8),
        crate::pipeline::Element::Minus(rhs) => seq![1u8] + spec_le_bytes(spec_i64_bits(rhs), 8),
        crate::pipeline::Element::Times(rhs) => seq![2u8] + spec_le_bytes(spec_i64_bits(rhs), 8),
        crate::pipeline::Element::Abs => seq![3u8] + spec_le_bytes(0, 8),
        crate::pipeline::Element::Ceil => seq![4u8] + spec_le_bytes(0, 8),
        crate::pipeline::Element::Floor => seq![5u8] + spec_le_bytes(0, 8),
        crate::pipeline::Element::Sort => seq![6u8] + spec_le_bytes(0, 8),
    }
}

/// What nine persisted bytes decode to; an unknown tag, or a non-zero
/// operand under an element that takes none, is refused.
pub open spec fn spec_element_decode(s: Seq<u8>) -> Option<crate::pipeline::Element> {
    let rhs = spec_le_val(s.subrange(1, 9));
    if s[0] == 0 {
        Some(crate::pipeline::Element::Plus(spec_i64_from_bits(rhs)))
    } else if s[0] == 1 {
        Some(crate::pipeline::Element::Minus(spec_i64_from_bits(rhs)))
    } else if s[0] == 2 {
        Some(crate::pipeline::Element::Times(spec_i64_from_bits(rhs)))
    } else if s[0] == 3 && rhs == 0 {
        Some(crate::pipeline::Element::Abs)
    } else if s[0] == 4 && rhs == 0 {
        Some(crate::pipeline::Element::Ceil)
    } else if s[0] == 5 && rhs == 0 {
        Some(crate::pipeline::Element::Floor)
    } else if s[0] == 6 && rhs == 0 {
        Some(crate::pipeline::Element::Sort)
    } else {
        None
    }
}

/// The persisted form of an element chain, first element first.
pub open spec fn spec_elements_encode(es: Seq<crate::pipeline::Element>) -> Seq<u8>
    decreases es.len(),
{
    if es.len() == 0 {
        Seq::empty()
    } else {
        spec_element_encode(es[0]) + spec_elements_encode(es.drop_first())
    }
}

/// What a persisted element chain decodes to.
pub open spec fn spec_elements_decode(s: Seq<u8>) -> Option<Seq<crate::pipeline::Element>>
    decreases s.len(),
{
    if s.len() == 0 {
        Some(Seq::empty())
    } else if s.len() < 9 {
        None
    } else {
        match spec_element_decode(s.take(9)) {
            None => None,
            Some(e) => match spec_elements_decode(s.skip(9)) {
                None => None,
                Some(rest) => Some(seq![e] + rest),
            },
        }
    }
}

/// An element encoding is nine bytes and decodes to the element.
proof fn lemma_element_round_trip(e: crate::pipeline::Element)
    ensures
        spec_element_encode(e).len() == 9,
        spec_element_decode(spec_element_encode(e)) == Some(e),
{
    lemma2_to64_rest();
    lemma_le_bytes_len(0, 8);
    lemma_le_round_trip(0, 8);
    let enc = spec_element_encode(e);
    match e {
        crate::pipeline::Element::Plus(rhs) => {
            lemma_i64_bits_round_trip(rhs);
            lemma_le_round_trip(spec_i64_bits(rhs), 8);
            assert(enc.subrange(1, 9) =~= spec_le_bytes(spec_i64_bits(rhs), 8));
        },
        crate::pipeline::Element::Minus(rhs) => {
            lemma_i64_bits_round_trip(rhs);
            lemma_le_round_trip(spec_i64_bits(rhs), 8);
            assert(enc.subrange(1, 9) =~= spec_le_bytes(spec_i64_bits(rhs), 8));
        },
        crate::pipeline::Element::Times(rhs) => {
            lemma_i64_bits_round_trip(rhs);
            lemma_le_round_trip(spec_i64_bits(rhs), 8);
            assert(enc.subrange(1, 9) =~= spec_le_bytes(spec_i64_bits(rhs), 8));
        },
        _ => {
            assert(enc.subrange(1, 9) =~= spec_le_bytes(0, 8));
        },
    }
}

/// Appending one element appends its encoding.
proof fn lemma_elements_encode_snoc(es: Seq<crate::pipeline::Element>, e: crate::pipeline::Element)
    ensures
        spec_elements_encode(es.push(e)) == spec_elements_encode(es) + spec_element_encode(e),
    decreases es.len(),
{
    if es.len() == 0 {
        assert(es.push(e).drop_first() =~= Seq::<crate::pipeline::Element>::empty());
        assert(es.push(e)[0] == e);
        assert(spec_element_encode(e) + spec_elements_encode(
            Seq::<crate::pipeline::Element>::empty(),
        ) =~= spec_element_encode(e));
        assert(spec_elements_encode(es) + spec_element_encode(e) =~= spec_element_encode(e));
    } else {
        lemma_elements_encode_snoc(es.drop_first(), e);
        assert(es.push(e).drop_first() =~= es.drop_first().push(e));
        assert(es.push(e)[0] == es[0]);
        assert(spec_element_encode(es[0]) + (spec_elements_encode(es.drop_first())
            + spec_element_encode(e)) =~= (spec_element_encode(es[0]) + spec_elements_encode(
            es.drop_first(),
        )) + spec_element_encode(e));
    }
}

/// An element chain's encoding has nine bytes per element.
proof fn lemma_elements_encode_len(es: Seq<crate::pipeline::Element>)
    ensures
        spec_elements_encode(es).len() == 9 * es.len(),
    decreases es.len(),
{
    if es.len() > 0 {
        lemma_element_round_trip(es[0]);
        lemma_elements_encode_len(es.drop_first());
    }
}

/// A persisted element chain decodes to the chain it was made from.
proof fn lemma_elements_round_trip(es: Seq<crate::pipeline::Element>)
    ensures
        spec_elements_decode(spec_elements_encode(es)) == Some(es),
    decreases es.len(),
{
    if es.len() == 0 {
        assert(spec_elements_encode(es) =~= Seq::<u8>::empty());
        assert(Seq::<crate::pipeline::Element>::empty() =~= es);
    } else {
        let enc = spec_elements_encode(es);
        lemma_element_round_trip(es[0]);
        lemma_elements_encode_len(es.drop_first());
        lemma_elements_round_trip(es.drop_first());
        assert(enc.take(9) =~= spec_element_encode(es[0]));
        assert(enc.skip(9) =~= spec_elements_encode(es.drop_first()));
        assert(seq![es[0]] + es.drop_first() =~= es);
    }
}

/// The persisted form of a fused pipeline: the version tag, the terminal's
/// kind and configuration, the element count, then the elements.
pub open spec fn spec_fused_encode(
    elements: Seq<crate::pipeline::Element>,
    kind: crate::fuse::TerminalKind,
) -> Seq<u8> {
    seq![FORMAT_VERSION] + spec_kind_encode(kind) + spec_le_bytes(elements.len(), 8)
        + spec_elements_encode(elements)
}

/// The eighteen persisted bytes of a terminal kind and its configuration.
pub open spec fn spec_kind_encode(kind: crate::fuse::TerminalKind) -> Seq<u8> {
    match kind {
        crate::fuse::TerminalKind::Sum => seq![0u8, 0u8] + spec_le_bytes(0, 8) + spec_le_bytes(
            0,
            8,
        ),
        crate::fuse::TerminalKind::Average => seq![1u8, 0u8] + spec_le_bytes(0, 8) + spec_le_bytes(
            0,
            8,
        ),
        crate::fuse::TerminalKind::NumVals => seq![2u8, 0u8] + spec_le_bytes(0, 8) + spec_le_bytes(
            0,
            8,
        ),
        crate::fuse::TerminalKind::StatsAgg => seq![3u8, 0u8] + spec_le_bytes(0, 8)
            + spec_le_bytes(0, 8),
        crate::fuse::TerminalKind::CounterAgg { bounds } => match bounds {
            None => seq![4u8, 0u8] + spec_le_bytes(0, 8) + spec_le_bytes(0, 8),
            Some(b) => seq![4u8, 1u8] + spec_le_bytes(spec_i64_bits(b.left), 8) + spec_le_bytes(
                spec_i64_bits(b.right),
                8,
            ),
        },
        crate::fuse::TerminalKind::Cardinality { precision } => seq![5u8, precision]
            + spec_le_bytes(0, 8) + spec_le_bytes(0, 8),
    }
}

/// What eighteen persisted kind bytes decode to; anything that breaks the
/// kind's configuration invariant is refused.
pub open spec fn spec_kind_decode(s: Seq<u8>) -> Option<crate::fuse::TerminalKind> {
    let a = spec_le_val(s.subrange(2, 10));
    let c = spec_le_val(s.subrange(10, 18));
    if s[0] == 0 && s[1] == 0 && a == 0 && c == 0 {
        Some(crate::fuse::TerminalKind::Sum)
    } else if s[0] == 1 && s[1] == 0 && a == 0 && c == 0 {
        Some(crate::fuse::TerminalKind::Average)
    } else if s[0] == 2 && s[1] == 0 && a == 0 && c == 0 {
        Some(crate::fuse::TerminalKind::NumVals)
    } else if s[0] == 3 && s[1] == 0 && a == 0 && c == 0 {
        Some(crate::fuse::TerminalKind::StatsAgg)
    } else if s[0] == 4 && s[1] == 0 && a == 0 && c == 0 {
        Some(crate::fuse::TerminalKind::CounterAgg { bounds: None })
    } else if s[0] == 4 && s[1] == 1 && spec_i64_from_bits(a) < spec_i64_from_bits(c) {
        Some(
            crate::fuse::TerminalKind::CounterAgg {
                bounds: Some(
                    crate::counter::CounterBounds {
                        left: spec_i64_from_bits(a),
                        right: spec_i64_from_bits(c),
                    },
                ),
            },
        )
    } else if s[0] == 5 && 4 <= s[1] <= 16 && a == 0 && c == 0 {
        Some(crate::fuse::TerminalKind::Cardinality { precision: s[1] })
    } else {
        None
    }
}

/// What a persisted fused pipeline decodes to.
pub open spec fn spec_fused_decode(s: Seq<u8>) -> Result<
    (Seq<crate::pipeline::Element>, crate::fuse::TerminalKind),
    DecodeError,
> {
    if s.len() < 1 {
        Err(DecodeError::BadLength)
    } else if s[0] != FORMAT_VERSION {
        Err(DecodeError::UnknownVersion)
    } else if s.len() < 27 {
        Err(DecodeError::BadLength)
    } else {
        match spec_kind_decode(s.subrange(1, 19)) {
            None => Err(DecodeError::Malformed),
            Some(kind) => {
                let count = spec_le_val(s.subrange(19, 27));
                if s.len() != 27 + 9 * count {
                    Err(DecodeError::BadLength)
                } else {
                    match spec_elements_decode(s.subrange(27, s.len() as int)) {
                        None => Err(DecodeError::Malformed),
                        Some(es) => Ok((es, kind)),
                    }
                }
            },
        }
    }
}

/// A persisted fused pipeline decodes to the chain and kind it was made
/// from, provided the kind's configuration is valid.
pub proof fn lemma_fused_codec_round_trip(
    elements: Seq<crate::pipeline::Element>,
    kind: crate::fuse::TerminalKind,
)
    requires
        crate::fuse::kind_wf(kind),
        elements.len() < 0x1_0000_0000_0000_0000,
    ensures
        spec_fused_decode(spec_fused_encode(elements, kind)) == Ok::<
            (Seq<crate::pipeline::Element>, crate::fuse::TerminalKind),
            DecodeError,
        >((elements, kind)),
{
    let enc = spec_fused_encode(elements, kind);
    lemma2_to64_rest();
    lemma_le_round_trip(0, 8);
    lemma_le_round_trip(elements.len(), 8);
    lemma_elements_encode_len(elements);
    lemma_elements_round_trip(elements);
    let ks = spec_kind_encode(kind);
    match kind {
        crate::fuse::TerminalKind::CounterAgg { bounds } => {
            if bounds is Some {
                let b = bounds->Some_0;
                lemma_le_bytes_len(spec_i64_bits(b.left), 8);
                lemma_le_bytes_len(spec_i64_bits(b.right), 8);
            }
        },
        _ => {},
    }
    assert(ks.len() == 18);
    assert(enc.len() == 27 + 9 * elements.len());
    assert(enc[0] == FORMAT_VERSION);
    assert(enc.subrange(1, 19) =~= spec_kind_encode(kind));
    assert(enc.subrange(19, 27) =~= spec_le_bytes(elements.len(), 8));
    assert(enc.subrange(27, enc.len() as int) =~= spec_elements_encode(elements));
    match kind {
        crate::fuse::TerminalKind::CounterAgg { bounds } => {
            match bounds {
                None => {
                    assert(ks.subrange(2, 10) =~= spec_le_bytes(0, 8));
                    assert(ks.subrange(10, 18) =~= spec_le_bytes(0, 8));
                },
                Some(b) => {
                    lemma_i64_bits_round_trip(b.left);
                    lemma_i64_bits_round_trip(b.right);
                    lemma_le_round_trip(spec_i64_bits(b.left), 8);
                    lemma_le_round_trip(spec_i64_bits(b.right), 8);
                    assert(ks.subrange(2, 10) =~= spec_le_bytes(spec_i64_bits(b.left), 8));
                    assert(ks.subrange(10, 18) =~= spec_le_bytes(spec_i64_bits(b.right), 8));
                },
            }
        },
        _ => {
            assert(ks.subrange(2, 10) =~= spec_le_bytes(0, 8));
            assert(ks.subrange(10, 18) =~= spec_le_bytes(0, 8));
        },
    }
    assert(spec_kind_decode(ks) == Some(kind));
}

/// Append one element's nine bytes.
fn encode_element(out: &mut Vec<u8>, e: &crate::pipeline::Element)
    ensures
        final(out)@ == old(out)@ + spec_element_encode(*e),
{
    match e {
        crate::pipeline::Element::Plus(rhs) => {
            out.push(0u8);
            write_i64(out, *rhs);
            proof {
                assert(out@ =~= old(out)@ + spec_element_encode(*e));
            }
        },
        crate::pipeline::Element::Minus(rhs) => {
            out.push(1u8);
            write_i64(out, *rhs);
            proof {
                assert(out@ =~= old(out)@ + spec_element_encode(*e));
            }
        },
        crate::pipeline::Element::Times(rhs) => {
            out.push(2u8);
            write_i64(out, *rhs);
            proof {
                assert(out@ =~= old(out)@ + spec_element_encode(*e));
            }
        },
        crate::pipeline::Element::Abs => {
            out.push(3u8);
            write_le(out, 0, 8);
            proof {
                assert(out@ =~= old(out)@ + spec_element_encode(*e));
            }
        },
        crate::pipeline::Element::Ceil => {
            out.push(4u8);
            write_le(out, 0, 8);
            proof {
                assert(out@ =~= old(out)@ + spec_element_encode(*e));
            }
        },
        crate::pipeline::Element::Floor => {
            out.push(5u8);
            write_le(out, 0, 8);
            proof {
                assert(out@ =~= old(out)@ + spec_element_encode(*e));
            }
        },
        crate::pipeline::Element::Sort => {
            out.push(6u8);
            write_le(out, 0, 8);
            proof {
                assert(out@ =~= old(out)@ + spec_element_encode(*e));
            }
        },
    }
}

/// Serialize a fused pipeline.
pub fn encode_fused(f: &crate::fuse::FusedPipeline) -> (r: Vec<u8>)
    ensures
        r@ == spec_fused_encode(f.elements@, f.kind),
{
    let mut out: Vec<u8> = Vec::new();
    out.push(FORMAT_VERSION);
    match f.kind {
        crate::fuse::TerminalKind::Sum => {
            out.push(0u8);
            out.push(0u8);
            write_le(&mut out, 0, 8);
            write_le(&mut out, 0, 8);
        },
        crate::fuse::TerminalKind::Average => {
            out.push(1u8);
            out.push(0u8);
            write_le(&mut out, 0, 8);
            write_le(&mut out, 0, 8);
        },
        crate::fuse::TerminalKind::NumVals => {
            out.push(2u8);
            out.push(0u8);
            write_le(&mut out, 0, 8);
            write_le(&mut out, 0, 8);
        },
        crate::fuse::TerminalKind::StatsAgg => {
            out.push(3u8);
            out.push(0u8);
            write_le(&mut out, 0, 8);
            write_le(&mut out, 0, 8);
        },
        crate::fuse::TerminalKind::CounterAgg { bounds } => {
            out.push(4u8);
            match bounds {
                None => {
                    out.push(0u8);
                    write_le(&mut out, 0, 8);
                    write_le(&mut out, 0, 8);
                },
                Some(b) => {
                    out.push(1u8);
                    write_i64(&mut out, b.left);
                    write_i64(&mut out, b.right);
                },
            }
        },
        crate::fuse::TerminalKind::Cardinality { precision } => {
            out.push(5u8);
            out.push(precision);
            write_le(&mut out, 0, 8);
            write_le(&mut out, 0, 8);
        },
    }
    proof {
        assert(out@ =~= seq![FORMAT_VERSION] + spec_kind_encode(f.kind));
    }
    write_u64(&mut out, f.elements.len() as u64);
    let ghost header = out@;
    let n = f.elements.len();
    let mut i: usize = 0;
    while i < n
        invariant
            i <= n,
            n == f.elements@.len(),
            out@ == header + spec_elements_encode(f.elements@.take(i as int)),
        decreases n - i,
    {
        encode_element(&mut out, &f.elements[i]);
        proof {
            lemma_elements_encode_snoc(f.elements@.take(i as int), f.elements@[i as int]);
            assert(f.elements@.take(i + 1) =~= f.elements@.take(i as int).push(
                f.elements@[i as int],
            ));
            assert(header + (spec_elements_encode(f.elements@.take(i as int))
                + spec_element_encode(f.elements@[i as int])) =~= (header + spec_elements_encode(
                f.elements@.take(i as int),
            )) + spec_element_encode(f.elements@[i as int]));
        }
        i = i + 1;
    }
    proof {
        assert(f.elements@.take(n as int) =~= f.elements@);
        assert(out@ =~= spec_fused_encode(f.elements@, f.kind));
    }
    out
}

/// Parse the eighteen kind bytes starting at offset 1.
fn decode_kind(buf: &Vec<u8>) -> (r: Option<crate::fuse::TerminalKind>)
    requires
        buf@.len() >= 27,
    ensures
        r == spec_kind_decode(buf@.subrange(1, 19)),
{
    let ghost ks = buf@.subrange(1, 19);
    proof {
        assert(ks.subrange(2, 10) =~= buf@.subrange(3, 11));
        assert(ks.subrange(10, 18) =~= buf@.subrange(11, 19));
        assert(ks[0] == buf@[1] && ks[1] == buf@[2]);
        lemma_le_val_bound(buf@.subrange(3, 11));
        lemma_le_val_bound(buf@.subrange(11, 19));
        lemma2_to64_rest();
    }
    let tag = buf[1];
    let cfg = buf[2];
    let a = read_le(buf, 3, 8);
    let c = read_le(buf, 11, 8);
    if tag == 0 && cfg == 0 && a == 0 && c == 0 {
        Some(crate::fuse::TerminalKind::Sum)
    } else if tag == 1 && cfg == 0 && a == 0 && c == 0 {
        Some(crate::fuse::TerminalKind::Average)
    } else if tag == 2 && cfg == 0 && a == 0 && c == 0 {
        Some(crate::fuse::TerminalKind::NumVals)
    } else if tag == 3 && cfg == 0 && a == 0 && c == 0 {
        Some(crate::fuse::TerminalKind::StatsAgg)
    } else if tag == 4 && cfg == 0 && a == 0 && c == 0 {
        Some(crate::fuse::TerminalKind::CounterAgg { bounds: None })
    } else if tag == 4 && cfg == 1 {
        let left = bits_to_i64(a);
        let right = bits_to_i64(c);
        if left < right {
            Some(
                crate::fuse::TerminalKind::CounterAgg {
                    bounds: Some(crate::counter::CounterBounds { left, right }),
                },
            )
        } else {
            None
        }
    } else if tag == 5 && 4 <= cfg && cfg <= 16 && a == 0 && c == 0 {
        Some(crate::fuse::TerminalKind::Cardinality { precision: cfg })
    } else {
        None
    }
}

/// The `i64` with bit pattern `u`.
fn bits_to_i64(u: u128) -> (r: i64)
    requires
        u < 0x1_0000_0000_0000_0000,
    ensures
        r == spec_i64_from_bits(u as nat),
{
    if u < 0x8000_0000_0000_0000u128 {
        u as i64
    } else {
        ((u as i128) - 0x1_0000_0000_0000_0000i128) as i64
    }
}

/// Deserialize a fused pipeline; unknown versions, wrong lengths and
/// configurations that break the terminal's invariants are refused.
pub fn decode_fused(buf: &Vec<u8>) -> (r: Result<crate::fuse::FusedPipeline, DecodeError>)
    ensures
        match r {
            Ok(f) => spec_fused_decode(buf@) == Ok::<
                (Seq<crate::pipeline::Element>, crate::fuse::TerminalKind),
                DecodeError,
            >((f.elements@, f.kind)),
            Err(e) => spec_fused_decode(buf@) == Err::<
                (Seq<crate::pipeline::Element>, crate::fuse::TerminalKind),
                DecodeError,
            >(e),
        },
{
    if buf.len() < 1 {
        return Err(DecodeError::BadLength);
    }
    if buf[0] != FORMAT_VERSION {
        return Err(DecodeError::UnknownVersion);
    }
    if buf.len() < 27 {
        return Err(DecodeError::BadLength);
    }
    let kind = match decode_kind(buf) {
        Some(k) => k,
        None => {
            return Err(DecodeError::Malformed);
        },
    };
    proof {
        lemma_le_val_bound(buf@.subrange(19, 27));
        lemma2_to64_rest();
    }
    let count128 = read_le(buf, 19, 8);
    let total = buf.len();
    if (total as u128) != 27u128 + 9u128 * count128 {
        return Err(DecodeError::BadLength);
    }
    let count = count128 as usize;
    let ghost region = buf@.subrange(27, buf@.len() as int);
    let mut elements: Vec<crate::pipeline::Element> = Vec::new();
    let mut i: usize = 0;
    proof {
        assert(region.skip(0) =~= region);
    }
    while i < count
        invariant
            i <= count,
            total == buf@.len(),
            total == 27 + 9 * count,
            buf@.len() >= 27,
            buf@[0] == FORMAT_VERSION,
            spec_kind_decode(buf@.subrange(1, 19)) == Some(kind),
            count as nat == spec_le_val(buf@.subrange(19, 27)),
            region == buf@.subrange(27, buf@.len() as int),
            spec_elements_decode(region) == match spec_elements_decode(region.skip(9 * i as int)) {
                None => None::<Seq<crate::pipeline::Element>>,
                Some(rest) => Some(elements@ + rest),
            },
        decreases count - i,
    {
        let pos = 27 + 9 * i;
        let ghost chunk = region.skip(9 * i as int);
        proof {
            assert(chunk.len() == 9 * (count - i));
            assert(chunk.take(9) =~= buf@.subrange(pos as int, pos + 9));
            assert(chunk.take(9)[0] == buf@[pos as int]);
            assert(chunk.take(9).subrange(1, 9) =~= buf@.subrange(pos + 1, pos + 9));
            lemma_le_val_bound(buf@.subrange(pos + 1, pos + 9));
            lemma2_to64_rest();
        }
        let tag = buf[pos];
        let rhs = read_le(buf, pos + 1, 8);
        let e: crate::pipeline::Element = if tag == 0 {
            crate::pipeline::Element::Plus(bits_to_i64(rhs))
        } else if tag == 1 {
            crate::pipeline::Element::Minus(bits_to_i64(rhs))
        } else if tag == 2 {
            crate::pipeline::Element::Times(bits_to_i64(rhs))
        } else if tag == 3 && rhs == 0 {
            crate::pipeline::Element::Abs
        } else if tag == 4 && rhs == 0 {
            crate::pipeline::Element::Ceil
        } else if tag == 5 && rhs == 0 {
            crate::pipeline::Element::Floor
        } else if tag == 6 && rhs == 0 {
            crate::pipeline::Element::Sort
        } else {
            proof {
                assert(spec_element_decode(chunk.take(9)) is None);
                assert(spec_elements_decode(chunk) is None);
            }
            return Err(DecodeError::Malformed);
        };
        proof {
            assert(spec_element_decode(chunk.take(9)) == Some(e));
            assert(chunk.skip(9) =~= region.skip(9 * (i + 1)));
        }
        elements.push(e);
        proof {
            let ghost prev = elements@.drop_last();
            assert(prev.push(e) =~= elements@);
            assert forall|rest: Seq<crate::pipeline::Element>| true implies prev + (seq![e] + rest)
                =~= elements@ + rest by {}
        }
        i = i + 1;
    }
    proof {
        assert(region.skip(9 * count as int) =~= Seq::<u8>::empty());
        assert(spec_elements_decode(region) == Some(elements@ + Seq::<
            crate::pipeline::Element,
        >::empty()));
        assert(elements@ + Seq::<crate::pipeline::Element>::empty() =~= elements@);
    }
    Ok(crate::fuse::FusedPipeline { elements, kind })
}

} // verus!
