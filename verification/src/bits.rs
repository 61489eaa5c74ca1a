//! The mathematical model shared by the writer and the reader: a byte
//! sequence seen as a sequence of bits, most-significant-bit first within
//! each byte, and the unsigned value that a bit sequence denotes.

use vstd::prelude::*;
use vstd::arithmetic::div_mod::{lemma_fundamental_div_mod_converse, lemma_mod_breakdown};
use vstd::arithmetic::power2::{lemma2_to64, lemma_pow2_adds, lemma_pow2_pos, pow2};

verus! {

/// Bit `i` of byte `b`, counting from the most significant bit:
/// `bit_of_byte(b, 0)` is the top bit, `bit_of_byte(b, 7)` the lowest.
pub open spec fn bit_of_byte(b: u8, i: int) -> bool {
    (b >> ((7 - i) as u8)) & 1 == 1
}

/// The eight bits of one byte, most significant first.
pub open spec fn byte_bits(b: u8) -> Seq<bool> {
    Seq::new(8, |i: int| bit_of_byte(b, i))
}

/// Bit `k` of the bit stream held by a byte sequence: bit `k % 8` of
/// byte `k / 8`, most-significant-bit first within each byte.
pub open spec fn stream_bit(bytes: Seq<u8>, k: int) -> bool {
    bit_of_byte(bytes[k / 8], k % 8)
}

/// The bit stream held by a byte sequence, most-significant-bit first
/// within each byte.
pub open spec fn bits_of_bytes(bytes: Seq<u8>) -> Seq<bool> {
    Seq::new(bytes.len() * 8, |k: int| stream_bit(bytes, k))
}

/// Bit `i` of the `w`-bit field that holds the low `w` bits of `v`,
/// most significant first: bit number `w - 1 - i` of `v`.
pub open spec fn int_bit(v: u64, w: int, i: int) -> bool {
    (v >> ((w - 1 - i) as u64)) & 1 == 1
}

/// The low `w` bits of `v` as a bit sequence, most significant first.
/// Bits of `v` above position `w - 1` do not appear: truncation.
pub open spec fn int_bits(v: u64, w: int) -> Seq<bool> {
    Seq::new(w as nat, |i: int| int_bit(v, w, i))
}

/// The unsigned value denoted by a bit sequence read most-significant
/// bit first.
pub open spec fn val_of_bits(bits: Seq<bool>) -> nat
    decreases bits.len(),
{
    if bits.len() == 0 {
        0
    } else {
        2 * val_of_bits(bits.drop_last()) + (if bits.last() {
            1nat
        } else {
            0nat
        })
    }
}

/// The bit stream of a byte sequence, read at a position split into its
/// byte index and the bit index inside that byte.
pub proof fn lemma_bits_of_bytes_index(bytes: Seq<u8>, i: int, j: int)
    requires
        0 <= i < bytes.len(),
        0 <= j < 8,
    ensures
        bits_of_bytes(bytes)[8 * i + j] == bit_of_byte(bytes[i], j),
{
    lemma_fundamental_div_mod_converse(8 * i + j, 8, i, j);
}

/// A bit sequence's value is bounded by two to its length.
pub proof fn lemma_val_of_bits_bound(bits: Seq<bool>)
    ensures
        val_of_bits(bits) < pow2(bits.len()),
    decreases bits.len(),
{
    if bits.len() == 0 {
        lemma2_to64();
    } else {
        lemma_val_of_bits_bound(bits.drop_last());
        lemma_pow2_adds((bits.len() - 1) as nat, 1);
        lemma2_to64();
    }
}

/// The value of a concatenation: the left part is shifted up by the
/// length of the right part.
pub proof fn lemma_val_of_bits_concat(s1: Seq<bool>, s2: Seq<bool>)
    ensures
        val_of_bits(s1 + s2) == val_of_bits(s1) * pow2(s2.len()) + val_of_bits(s2),
    decreases s2.len(),
{
    if s2.len() == 0 {
        assert(s1 + s2 =~= s1);
        lemma2_to64();
        assert(pow2(s2.len()) == 1);
        assert(val_of_bits(s2) == 0);
        assert(val_of_bits(s1) * 1nat == val_of_bits(s1)) by (nonlinear_arith);
    } else {
        let s2h = s2.drop_last();
        let lt: nat = if s2.last() {
            1nat
        } else {
            0nat
        };
        assert((s1 + s2).drop_last() =~= s1 + s2h);
        assert((s1 + s2).last() == s2.last());
        assert(val_of_bits(s1 + s2) == 2 * val_of_bits(s1 + s2h) + lt);
        assert(val_of_bits(s2) == 2 * val_of_bits(s2h) + lt);
        lemma_val_of_bits_concat(s1, s2h);
        lemma_pow2_adds(s2h.len(), 1);
        lemma2_to64();
        assert(pow2(s2.len()) == pow2(s2h.len()) * 2);
        assert(2 * (val_of_bits(s1) * pow2(s2h.len())) == val_of_bits(s1) * (pow2(s2h.len())
            * 2)) by (nonlinear_arith);
        assert(val_of_bits(s1 + s2) == 2 * (val_of_bits(s1) * pow2(s2h.len())) + 2 * val_of_bits(
            s2h,
        ) + lt);
        assert(val_of_bits(s1) * (pow2(s2h.len()) * 2) == val_of_bits(s1) * pow2(s2.len()))
            by (nonlinear_arith)
            requires
                pow2(s2.len()) == pow2(s2h.len()) * 2,
        ;
        assert(val_of_bits(s1 + s2) == val_of_bits(s1) * pow2(s2.len()) + val_of_bits(s2));
    }
}

proof fn lemma_shr_shr(x: u64, k: u64)
    by (bit_vector)
    requires
        k < 63,
    ensures
        (x >> 1u64) >> k == x >> ((k + 1) as u64),
{
}

/// The value of the low `w` bits of `v`, read most significant first,
/// is `v` reduced modulo two to the `w`.
pub proof fn lemma_int_bits_val(v: u64, w: int)
    requires
        0 <= w <= 64,
    ensures
        val_of_bits(int_bits(v, w)) == (v as nat) % pow2(w as nat),
    decreases w,
{
    if w == 0 {
        lemma2_to64();
        assert(int_bits(v, 0) =~= Seq::<bool>::empty());
    } else {
        let s = int_bits(v, w);
        let half = v >> 1u64;
        assert forall|i: int| 0 <= i < w - 1 implies int_bits(half, w - 1)[i] == s[i] by {
            lemma_shr_shr(v, (w - 1 - 1 - i) as u64);
        }
        assert(s.drop_last() =~= int_bits(half, w - 1));
        assert(v >> 0u64 == v && (v >> 1u64) == v / 2 && (v & 1) == v % 2) by (bit_vector);
        assert(s.last() == (v % 2 == 1));
        lemma_int_bits_val(half, w - 1);
        lemma_pow2_pos((w - 1) as nat);
        lemma_mod_breakdown(v as int, 2, pow2((w - 1) as nat) as int);
        lemma_pow2_adds(1, (w - 1) as nat);
        lemma2_to64();
    }
}

proof fn lemma_byte_bit_as_u64(b: u8, j: u8)
    by (bit_vector)
    requires
        j < 8,
    ensures
        (b >> j) & 1 == (((b as u64) >> (j as u64)) & 1) as u8,
        b as u64 == (b as u64) % 0x100,
{
}

/// The eight bits of a byte denote the byte's own value.
pub proof fn lemma_byte_bits_val(b: u8)
    ensures
        val_of_bits(byte_bits(b)) == b,
{
    assert forall|i: int| 0 <= i < 8 implies byte_bits(b)[i] == int_bits(b as u64, 8)[i] by {
        lemma_byte_bit_as_u64(b, (7 - i) as u8);
    }
    assert(byte_bits(b) =~= int_bits(b as u64, 8));
    lemma_int_bits_val(b as u64, 8);
    lemma2_to64();
    lemma_byte_bit_as_u64(b, 0);
}

/// Splitting a bit sequence at `w`: the first `w` bits carry the high
/// part of the value, the rest the remainder.
pub proof fn lemma_val_of_bits_split(s: Seq<bool>, w: int)
    requires
        0 <= w <= s.len(),
    ensures
        val_of_bits(s) == val_of_bits(s.take(w)) * pow2((s.len() - w) as nat) + val_of_bits(
            s.skip(w),
        ),
        val_of_bits(s.skip(w)) < pow2((s.len() - w) as nat),
{
    assert(s =~= s.take(w) + s.skip(w));
    lemma_val_of_bits_concat(s.take(w), s.skip(w));
    lemma_val_of_bits_bound(s.skip(w));
}

/// A byte sequence padded with spaces (0x20) up to a fixed width `n`.
pub open spec fn space_padded(bytes: Seq<u8>, n: int) -> Seq<u8> {
    bytes + Seq::new((n - bytes.len()) as nat, |t: int| 0x20u8)
}

/// Big-endian view of the low `8 * n` bits of `v`: byte `k` holds bits
/// `8 * (n - k)` down to `8 * (n - 1 - k)` of `v`.
pub open spec fn be_bytes(v: u64, n: int) -> Seq<u8> {
    Seq::new(n as nat, |k: int| (v >> ((8 * (n - 1 - k)) as u64)) as u8)
}

/// Bit `j` (most significant first) of the byte cut out of `v` at shift
/// `s` is bit `s + 7 - j` of `v`.
pub proof fn lemma_shifted_byte_bit(v: u64, s: u64, j: u8)
    by (bit_vector)
    requires
        s <= 56,
        j < 8,
    ensures
        ((((v >> s) as u8) >> ((7 - j) as u8)) & 1 == 1) <==> ((v >> ((s + 7 - j) as u64)) & 1
            == 1),
{
}

/// Two byte sequences of one length that hold the same bit stream are
/// equal byte for byte.
pub proof fn lemma_bytes_eq_from_bits(a: Seq<u8>, b: Seq<u8>)
    requires
        a.len() == b.len(),
        forall|k: int|
            0 <= k < a.len() * 8 ==> #[trigger] stream_bit(a, k) == stream_bit(b, k),
    ensures
        a =~= b,
{
    assert forall|i: int| 0 <= i < a.len() implies a[i] == b[i] by {
        let x = a[i];
        let y = b[i];
        assert forall|j: int| 0 <= j < 8 implies bit_of_byte(x, j) == bit_of_byte(y, j) by {
            let k = 8 * i + j;
            lemma_fundamental_div_mod_converse(k, 8, i, j);
            assert(stream_bit(a, k) == stream_bit(b, k));
        }
        assert(bit_of_byte(x, 0) == bit_of_byte(y, 0) && bit_of_byte(x, 1) == bit_of_byte(y, 1)
            && bit_of_byte(x, 2) == bit_of_byte(y, 2) && bit_of_byte(x, 3) == bit_of_byte(y, 3)
            && bit_of_byte(x, 4) == bit_of_byte(y, 4) && bit_of_byte(x, 5) == bit_of_byte(y, 5)
            && bit_of_byte(x, 6) == bit_of_byte(y, 6) && bit_of_byte(x, 7) == bit_of_byte(y, 7));
        assert((((x >> 7u8) & 1 == 1) <==> ((y >> 7u8) & 1 == 1)) && (((x >> 6u8) & 1 == 1) <==> ((
        y >> 6u8) & 1 == 1)) && (((x >> 5u8) & 1 == 1) <==> ((y >> 5u8) & 1 == 1)) && (((x >> 4u8)
            & 1 == 1) <==> ((y >> 4u8) & 1 == 1)) && (((x >> 3u8) & 1 == 1) <==> ((y >> 3u8) & 1
            == 1)) && (((x >> 2u8) & 1 == 1) <==> ((y >> 2u8) & 1 == 1)) && (((x >> 1u8) & 1 == 1)
            <==> ((y >> 1u8) & 1 == 1)) && (((x >> 0u8) & 1 == 1) <==> ((y >> 0u8) & 1 == 1))
            ==> x == y) by (bit_vector);
    }
}

} // verus!
