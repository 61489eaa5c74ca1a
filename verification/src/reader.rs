//! The bit-field reader: re-slices a finished byte sequence back into a
//! sequence of unsigned integers of one fixed width, consuming the
//! stream left to right, most-significant-bit first.

use vstd::prelude::*;
use vstd::arithmetic::div_mod::lemma_fundamental_div_mod_converse;
use vstd::arithmetic::power2::{
    lemma2_to64, lemma2_to64_rest, lemma_pow2_adds, lemma_pow2_pos, lemma_pow2_strictly_increases,
    pow2,
};
use vstd::bits::{lemma_u64_low_bits_mask_is_mod, lemma_u64_shl_is_mul, lemma_u64_shr_is_div};
use vstd::bits::low_bits_mask;

use crate::bits::{
    bits_of_bytes, byte_bits, lemma_bits_of_bytes_index, lemma_byte_bits_val,
    lemma_val_of_bits_bound, lemma_val_of_bits_concat, lemma_val_of_bits_split, val_of_bits,
};

verus! {

proof fn lemma_absorb_byte(acc: u64, b: u64)
    by (bit_vector)
    requires
        acc < 0x100000000000000,
        b < 0x100,
    ensures
        (acc << 8u64) | b == acc * 256 + b,
{
}

/// Decodes the byte stream into unsigned integers of exactly
/// `field_width` bits each, read most-significant-bit first from the
/// start of `bytes`. Decoding stops silently when fewer than
/// `field_width` bits remain: trailing partial bits are dropped.
pub fn decode_all(bytes: &[u8], field_width: usize) -> (r: Vec<u32>)
    requires
        1 <= field_width <= 32,
    ensures
        r@.len() == (bytes@.len() * 8) as int / (field_width as int),
        forall|t: int|
            0 <= t < r@.len() ==> (#[trigger] r@[t]) as nat == val_of_bits(
                bits_of_bytes(bytes@).subrange(t * (field_width as int), (t + 1) * (
                field_width as int)),
            ),
{
    let w = field_width;
    let ghost wi = w as int;
    let ghost allbits = bits_of_bytes(bytes@);
    let ghost n = bytes@.len() as int;
    let mut out: Vec<u32> = Vec::new();
    let mut acc: u64 = 0;
    let mut held: usize = 0;
    let mut i: usize = 0;
    proof {
        lemma2_to64();
        assert(allbits.subrange(0, 0) =~= Seq::<bool>::empty());
        assert(out@.len() * wi == 0) by (nonlinear_arith)
            requires
                out@.len() == 0,
        ;
    }
    while i < bytes.len()
        invariant
            1 <= wi <= 32,
            w == wi,
            i <= n,
            n == bytes@.len(),
            allbits == bits_of_bytes(bytes@),
            allbits.len() == n * 8,
            held < w,
            8 * (i as int) == out@.len() * wi + held,
            acc as nat == val_of_bits(allbits.subrange(out@.len() * wi, 8 * (i as int))),
            (acc as nat) < pow2(held as nat),
            forall|t: int|
                0 <= t < out@.len() ==> (#[trigger] out@[t]) as nat == val_of_bits(
                    allbits.subrange(t * wi, (t + 1) * wi),
                ),
        decreases n - i,
    {
        let ghost f = out@.len() as int;
        let ghost lo = f * wi;
        let b = bytes[i];
        proof {
            let s_old = allbits.subrange(lo, 8 * (i as int));
            let s_new = allbits.subrange(lo, 8 * (i as int) + 8);
            assert forall|k: int| 0 <= k < s_new.len() implies s_new[k] == (s_old + byte_bits(
                b,
            ))[k] by {
                if k >= s_old.len() {
                    lemma_bits_of_bytes_index(bytes@, i as int, k - s_old.len());
                }
            }
            assert(s_new =~= s_old + byte_bits(b));
            lemma_val_of_bits_concat(s_old, byte_bits(b));
            lemma_byte_bits_val(b);
            lemma_pow2_strictly_increases(held as nat, 56);
            lemma2_to64();
            lemma2_to64_rest();
            lemma_absorb_byte(acc, b as u64);
            lemma_pow2_adds(held as nat, 8);
            assert(acc as nat * 256 + (b as nat) < pow2(held as nat) * 256) by (nonlinear_arith)
                requires
                    (acc as nat) < pow2(held as nat),
                    (b as nat) < 256,
            ;
        }
        acc = (acc << 8u64) | (b as u64);
        held = held + 8;
        i = i + 1;
        while held >= w
            invariant
                1 <= wi <= 32,
                w == wi,
                i <= n,
                n == bytes@.len(),
                allbits == bits_of_bytes(bytes@),
                allbits.len() == n * 8,
                held < w + 8,
                8 * (i as int) == out@.len() * wi + held,
                acc as nat == val_of_bits(allbits.subrange(out@.len() * wi, 8 * (i as int))),
                (acc as nat) < pow2(held as nat),
                forall|t: int|
                    0 <= t < out@.len() ==> (#[trigger] out@[t]) as nat == val_of_bits(
                        allbits.subrange(t * wi, (t + 1) * wi),
                    ),
            decreases held,
        {
            let ghost f = out@.len() as int;
            let ghost lo = f * wi;
            let ghost hi = 8 * (i as int);
            let ghost s = allbits.subrange(lo, hi);
            let ghost rest = (held - w) as nat;
            let sh2: u64 = (held - w) as u64;
            proof {
                lemma_val_of_bits_split(s, wi);
                assert(s.take(wi) =~= allbits.subrange(lo, lo + wi));
                assert(s.skip(wi) =~= allbits.subrange(lo + wi, hi));
                let q = val_of_bits(allbits.subrange(lo, lo + wi));
                let rr = val_of_bits(allbits.subrange(lo + wi, hi));
                lemma_pow2_pos(rest);
                lemma_fundamental_div_mod_converse(
                    acc as int,
                    pow2(rest) as int,
                    q as int,
                    rr as int,
                );
                lemma_u64_shr_is_div(acc, sh2);
                lemma_val_of_bits_bound(allbits.subrange(lo, lo + wi));
                if wi < 32 {
                    lemma_pow2_strictly_increases(wi as nat, 32);
                }
                lemma2_to64();
                lemma_u64_shl_is_mul(1u64, sh2);
                assert(low_bits_mask(rest) == pow2(rest) - 1);
                lemma_u64_low_bits_mask_is_mod(acc, rest);
                assert((f + 1) * wi == f * wi + wi) by (nonlinear_arith);
            }
            let field = acc >> sh2;
            out.push(field as u32);
            acc = acc & ((1u64 << sh2) - 1);
            held = held - w;
        }
    }
    proof {
        lemma_fundamental_div_mod_converse(n * 8, wi, out@.len() as int, held as int);
    }
    out
}

} // verus!
