//! General statements of the codec, proved for every input: round
//! trips, the agreement of the integer and the byte path, and the
//! determinism of the packed output.

use vstd::prelude::*;
use vstd::arithmetic::div_mod::lemma_fundamental_div_mod;
use vstd::arithmetic::power2::pow2;

use crate::bits::{
    be_bytes, bits_of_bytes, int_bits, lemma_bytes_eq_from_bits, lemma_int_bits_val,
    lemma_shifted_byte_bit, stream_bit, val_of_bits,
};

verus! {

/// Round trip for one field: writing the low `w` bits of `v` and
/// reading a `w`-bit field back from the stream at the position where
/// it was placed recovers `v` masked to its low `w` bits, whatever
/// other fields stand before or after it.
pub proof fn lemma_field_round_trip(prefix: Seq<bool>, v: u64, w: int, suffix: Seq<bool>)
    requires
        1 <= w <= 64,
    ensures
        val_of_bits(
            (prefix + int_bits(v, w) + suffix).subrange(
                prefix.len() as int,
                prefix.len() + w,
            ),
        ) == (v as nat) % pow2(w as nat),
{
    assert((prefix + int_bits(v, w) + suffix).subrange(prefix.len() as int, prefix.len() + w)
        =~= int_bits(v, w));
    lemma_int_bits_val(v, w);
}

/// The bit stream of a run of `w`-bit fields written back to back:
/// field after field, most significant bit first.
pub open spec fn int_fields_bits(vals: Seq<u64>, w: int) -> Seq<bool>
    decreases vals.len(),
{
    if vals.len() == 0 {
        Seq::empty()
    } else {
        int_fields_bits(vals.drop_last(), w) + int_bits(vals.last(), w)
    }
}

/// Round trip for a run of equal-width fields: reading the `t`-th
/// `w`-bit field of the stream recovers the `t`-th value masked to its
/// low `w` bits. This is the slicing that `decode_all` performs.
pub proof fn lemma_stream_round_trip(vals: Seq<u64>, w: int, t: int)
    requires
        1 <= w <= 64,
        0 <= t < vals.len(),
    ensures
        int_fields_bits(vals, w).len() == vals.len() * w,
        val_of_bits(int_fields_bits(vals, w).subrange(t * w, (t + 1) * w)) == (
        vals[t] as nat) % pow2(w as nat),
    decreases vals.len(),
{
    lemma_int_fields_bits_len(vals, w);
    let whole = int_fields_bits(vals, w);
    let head = int_fields_bits(vals.drop_last(), w);
    lemma_int_fields_bits_len(vals.drop_last(), w);
    assert((vals.len() - 1) * w + w == vals.len() * w) by (nonlinear_arith);
    if t == vals.len() - 1 {
        assert(t * w == head.len());
        assert(whole.subrange(t * w, (t + 1) * w) =~= int_bits(vals.last(), w));
        lemma_int_bits_val(vals.last(), w);
    } else {
        assert((t + 1) * w <= (vals.len() - 1) * w) by (nonlinear_arith)
            requires
                t + 1 <= vals.len() - 1 && w >= 1,
        ;
        assert(0 <= t * w) by (nonlinear_arith)
            requires
                0 <= t && w >= 1,
        ;
        assert((t + 1) * w == t * w + w) by (nonlinear_arith);
        assert forall|idx: int| 0 <= idx < w implies #[trigger] whole.subrange(
            t * w,
            (t + 1) * w,
        )[idx] == head.subrange(t * w, (t + 1) * w)[idx] by {
            assert(whole[t * w + idx] == head[t * w + idx]);
        }
        assert(whole.subrange(t * w, (t + 1) * w) =~= head.subrange(t * w, (t + 1) * w));
        lemma_stream_round_trip(vals.drop_last(), w, t);
        assert(vals.drop_last()[t] == vals[t]);
    }
}

proof fn lemma_int_fields_bits_len(vals: Seq<u64>, w: int)
    requires
        1 <= w,
    ensures
        int_fields_bits(vals, w).len() == vals.len() * w,
    decreases vals.len(),
{
    if vals.len() == 0 {
    } else {
        lemma_int_fields_bits_len(vals.drop_last(), w);
        assert((vals.len() - 1) * w + w == vals.len() * w) by (nonlinear_arith);
    }
}

/// A width that is an exact multiple of 8 writes the very bytes of the
/// value: the low `8 * n` bits of `v` are the bit stream of the `n`
/// big-endian bytes cut out of `v`, so writing the integer and writing
/// those bytes directly append identical bits.
pub proof fn lemma_int_bits_be_bytes(v: u64, n: int)
    requires
        1 <= n <= 8,
    ensures
        int_bits(v, 8 * n) == bits_of_bytes(be_bytes(v, n)),
{
    assert forall|k: int| 0 <= k < 8 * n implies int_bits(v, 8 * n)[k] == bits_of_bytes(
        be_bytes(v, n),
    )[k] by {
        lemma_fundamental_div_mod(k, 8);
        let t = k / 8;
        let j = k % 8;
        lemma_shifted_byte_bit(v, (8 * (n - 1 - t)) as u64, j as u8);
        assert(8 * (n - 1 - t) + 7 - j == 8 * n - 1 - k);
    }
    assert(int_bits(v, 8 * n) =~= bits_of_bytes(be_bytes(v, n)));
}

/// End-to-end round trip: when a byte sequence holds the stream of a
/// run of `w`-bit fields as its prefix — as `finish` guarantees of the
/// buffer of a writer fed by `write_int` — then slicing the bytes back
/// into `w`-bit fields, as `decode_all` does, recovers each value
/// masked to its low `w` bits.
pub proof fn lemma_encode_decode_round_trip(vals: Seq<u64>, w: int, out: Seq<u8>)
    requires
        1 <= w <= 64,
        out.len() * 8 >= int_fields_bits(vals, w).len(),
        forall|k: int|
            0 <= k < int_fields_bits(vals, w).len() ==> #[trigger] stream_bit(out, k)
                == int_fields_bits(vals, w)[k],
    ensures
        forall|t: int|
            0 <= t < vals.len() ==> val_of_bits(
                #[trigger] bits_of_bytes(out).subrange(t * w, (t + 1) * w),
            ) == (vals[t] as nat) % pow2(w as nat),
{
    let bits = int_fields_bits(vals, w);
    assert forall|t: int| 0 <= t < vals.len() implies val_of_bits(
        #[trigger] bits_of_bytes(out).subrange(t * w, (t + 1) * w),
    ) == (vals[t] as nat) % pow2(w as nat) by {
        lemma_stream_round_trip(vals, w, t);
        assert((t + 1) * w <= vals.len() * w && 0 <= t * w && t * w + w == (t + 1) * w)
            by (nonlinear_arith)
            requires
                0 <= t < vals.len() && w >= 1,
        ;
        assert forall|idx: int| 0 <= idx < w implies #[trigger] bits_of_bytes(out).subrange(
            t * w,
            (t + 1) * w,
        )[idx] == bits.subrange(t * w, (t + 1) * w)[idx] by {
            assert(stream_bit(out, t * w + idx) == bits[t * w + idx]);
        }
        assert(bits_of_bytes(out).subrange(t * w, (t + 1) * w) =~= bits.subrange(
            t * w,
            (t + 1) * w,
        ));
    }
}

/// Determinism of the packed output: any two byte sequences that pack
/// one bit sequence — the right length, the written bits in place, the
/// tail padding zero, as `finish` guarantees — are byte-identical. The
/// write contracts give the bit sequence as a function of the operations
/// alone, so re-deriving the same writes on a fresh writer always
/// finishes to the same bytes.
pub proof fn lemma_finish_deterministic(bits: Seq<bool>, out1: Seq<u8>, out2: Seq<u8>)
    requires
        out1.len() == (bits.len() + 7) / 8,
        forall|k: int| 0 <= k < bits.len() ==> #[trigger] stream_bit(out1, k) == bits[k],
        forall|k: int| bits.len() <= k < out1.len() * 8 ==> !(#[trigger] stream_bit(out1, k)),
        out2.len() == (bits.len() + 7) / 8,
        forall|k: int| 0 <= k < bits.len() ==> #[trigger] stream_bit(out2, k) == bits[k],
        forall|k: int| bits.len() <= k < out2.len() * 8 ==> !(#[trigger] stream_bit(out2, k)),
    ensures
        out1 == out2,
{
    assert forall|k: int| 0 <= k < out1.len() * 8 implies #[trigger] stream_bit(out1, k)
        == stream_bit(out2, k) by {
        if k < bits.len() {
        } else {
            assert(!stream_bit(out1, k));
            assert(!stream_bit(out2, k));
        }
    }
    lemma_bytes_eq_from_bits(out1, out2);
}

} // verus!
