//! The bit-level writer: packs individually sized bit fields into a
//! contiguous byte buffer with no padding between fields.

use vstd::prelude::*;
use vstd::arithmetic::div_mod::{lemma_fundamental_div_mod, lemma_fundamental_div_mod_converse};

use crate::bits::{bit_of_byte, bits_of_bytes, int_bits, space_padded, stream_bit};
use vstd::string::StringSliceAdditionalSpecFns;

verus! {

/// An input that a write call rejects.
#[derive(Clone, Copy, Debug, PartialEq, Eq, Structural)]
pub enum CodecError {
    /// An integer field width outside `[1, 64]`.
    InvalidFieldWidth,
    /// A text whose encoded bytes exceed the fixed field width.
    FieldOverflow,
}

/// Accumulates bit-level writes into a byte buffer. The buffer always
/// holds exactly the bits written so far, most-significant-bit first
/// within each byte; the unused low bits of a partially filled final
/// byte stay zero until overwritten by the next write.
pub struct BitBuf {
    buff: Vec<u8>,
    bit_len: usize,
}

impl View for BitBuf {
    type V = Seq<bool>;

    /// The sequence of bits written so far, in order.
    closed spec fn view(&self) -> Seq<bool> {
        Seq::new(self.bit_len as nat, |k: int| stream_bit(self.buff@, k))
    }
}

proof fn lemma_top_bit_byte(b: u8, j: u8)
    by (bit_vector)
    requires
        j < 8,
        b == 0 || b == 0x80,
    ensures
        j == 0 ==> (((b >> ((7 - j) as u8)) & 1 == 1) <==> b == 0x80),
        j != 0 ==> (b >> ((7 - j) as u8)) & 1 == 0,
{
}

proof fn lemma_or_mask_bits(x: u8, m: u8, o: u8, j: u8)
    by (bit_vector)
    requires
        o < 8,
        j < 8,
        m == 0 || m == (1u8 << ((7 - o) as u8)),
    ensures
        j != o ==> ((x | m) >> ((7 - j) as u8)) & 1 == (x >> ((7 - j) as u8)) & 1,
        j == o ==> ((((x | m) >> ((7 - j) as u8)) & 1 == 1) <==> (m != 0 || (x >> ((7 - j) as u8))
            & 1 == 1)),
        m != 0 <==> (m == (1u8 << ((7 - o) as u8))),
{
}

proof fn lemma_merge_byte_bits(x: u8, b: u8, o: u8, j: u8)
    by (bit_vector)
    requires
        0 < o < 8,
        j < 8,
    ensures
        j < o ==> ((x | (b >> o)) >> ((7 - j) as u8)) & 1 == (x >> ((7 - j) as u8)) & 1,
        j >= o && (x >> ((7 - j) as u8)) & 1 != 1 ==> ((x | (b >> o)) >> ((7 - j) as u8)) & 1 == (b
            >> ((7 - (j - o)) as u8)) & 1,
{
}

proof fn lemma_shl_byte_bits(b: u8, o: u8, j: u8)
    by (bit_vector)
    requires
        0 < o < 8,
        j < 8,
    ensures
        j < o ==> ((b << ((8 - o) as u8)) >> ((7 - j) as u8)) & 1 == (b >> ((o - 1 - j) as u8)) & 1,
        j >= o ==> ((b << ((8 - o) as u8)) >> ((7 - j) as u8)) & 1 == 0,
{
}

impl BitBuf {
    /// The buffer length matches the bit count, and the tail padding of
    /// a partially filled final byte is zero.
    pub closed spec fn wf(&self) -> bool {
        &&& self.buff@.len() == (self.bit_len + 7) / 8
        &&& forall|k: int|
            self.bit_len <= k < self.buff@.len() * 8 ==> !(#[trigger] stream_bit(self.buff@, k))
    }

    /// A fresh writer holds no bits.
    pub fn new() -> (r: BitBuf)
        ensures
            r.wf(),
            r@ == Seq::<bool>::empty(),
    {
        let r = BitBuf { buff: Vec::new(), bit_len: 0 };
        proof {
            assert(r@ =~= Seq::<bool>::empty());
        }
        r
    }

    /// Appends exactly one bit (1 if true, 0 if false) at the current
    /// bit position, most-significant-bit first within each byte.
    pub fn write_bit(&mut self, bit: bool)
        requires
            old(self).wf(),
            old(self)@.len() < usize::MAX,
        ensures
            final(self).wf(),
            final(self)@ == old(self)@.push(bit),
    {
        let ghost p = self.bit_len as int;
        let ghost obuff = self.buff@;
        let ghost q = p / 8;
        let ghost r = p % 8;
        proof {
            lemma_fundamental_div_mod(p, 8);
        }
        let offset = self.bit_len % 8;
        if offset == 0 {
            let nb: u8 = if bit {
                0x80
            } else {
                0
            };
            self.buff.push(nb);
            self.bit_len = self.bit_len + 1;
            proof {
                lemma_fundamental_div_mod_converse(p + 7, 8, q, 7);
                lemma_fundamental_div_mod_converse(p + 8, 8, q + 1, 0);
                let nbuff = self.buff@;
                assert forall|k: int| 0 <= k < p + 1 implies #[trigger] stream_bit(nbuff, k) == (
                if k < p {
                    obuff.len() * 8 > k && stream_bit(obuff, k)
                } else {
                    bit
                }) by {
                    lemma_fundamental_div_mod(k, 8);
                    if k < p {
                        assert(k / 8 < q);
                        assert(nbuff[k / 8] == obuff[k / 8]);
                    } else {
                        assert(k / 8 == q && k % 8 == 0);
                        lemma_top_bit_byte(nb, 0);
                    }
                }
                assert(self@ =~= old(self)@.push(bit));
                assert forall|k: int| p + 1 <= k < (q + 1) * 8 implies !(#[trigger] stream_bit(
                    nbuff,
                    k,
                )) by {
                    lemma_fundamental_div_mod_converse(k, 8, q, k - 8 * q);
                    lemma_top_bit_byte(nb, (k - 8 * q) as u8);
                }
            }
        } else {
            let sh: u8 = (7 - offset) as u8;
            let m: u8 = if bit {
                1u8 << sh
            } else {
                0u8
            };
            proof {
                lemma_fundamental_div_mod_converse(p + 7, 8, q + 1, r - 1);
            }
            let last = self.buff.pop().unwrap();
            self.buff.push(last | m);
            self.bit_len = self.bit_len + 1;
            proof {
                lemma_fundamental_div_mod_converse(p + 8, 8, q + 1, r);
                let nbuff = self.buff@;
                assert(nbuff =~= obuff.update(q, last | m));
                assert(!stream_bit(obuff, p));
                assert forall|k: int| 0 <= k < p + 1 implies #[trigger] stream_bit(nbuff, k) == (
                if k < p {
                    obuff.len() * 8 > k && stream_bit(obuff, k)
                } else {
                    bit
                }) by {
                    lemma_fundamental_div_mod(k, 8);
                    if k / 8 < q {
                        assert(nbuff[k / 8] == obuff[k / 8]);
                    } else {
                        assert(k / 8 == q);
                        lemma_or_mask_bits(last, m, r as u8, (k % 8) as u8);
                    }
                }
                assert(self@ =~= old(self)@.push(bit));
                assert forall|k: int| p + 1 <= k < (q + 1) * 8 implies !(#[trigger] stream_bit(
                    nbuff,
                    k,
                )) by {
                    lemma_fundamental_div_mod_converse(k, 8, q, k - 8 * q);
                    assert(!stream_bit(obuff, k));
                    lemma_or_mask_bits(last, m, r as u8, (k - 8 * q) as u8);
                }
            }
        }
    }

    /// Appends a raw byte span at the current bit position. When the
    /// position is not byte-aligned, each input byte is split across two
    /// output bytes according to the current sub-byte offset.
    pub fn write_bytes(&mut self, bytes: &[u8])
        requires
            old(self).wf(),
            old(self)@.len() + bytes@.len() * 8 <= usize::MAX,
        ensures
            final(self).wf(),
            final(self)@ == old(self)@ + bits_of_bytes(bytes@),
    {
        let ghost p = self.bit_len as int;
        let ghost obuff = self.buff@;
        let ghost q = p / 8;
        let ghost r = p % 8;
        let ghost n = bytes@.len() as int;
        proof {
            lemma_fundamental_div_mod(p, 8);
        }
        let offset = self.bit_len % 8;
        if offset == 0 {
            proof {
                lemma_fundamental_div_mod_converse(p + 7, 8, q, 7);
            }
            let mut idx: usize = 0;
            while idx < bytes.len()
                invariant
                    idx <= bytes@.len(),
                    self.buff@ == obuff + bytes@.take(idx as int),
                    self.bit_len == old(self).bit_len,
                decreases bytes@.len() - idx,
            {
                let b = bytes[idx];
                self.buff.push(b);
                proof {
                    assert(self.buff@ =~= obuff + bytes@.take(idx + 1));
                }
                idx = idx + 1;
            }
            self.bit_len = self.bit_len + bytes.len() * 8;
            proof {
                assert(self.buff@ == obuff + bytes@);
                assert(bytes@.take(n) =~= bytes@);
                lemma_fundamental_div_mod_converse(p + 8 * n + 7, 8, q + n, 7);
                let nbuff = self.buff@;
                assert forall|k: int| 0 <= k < p + 8 * n implies #[trigger] stream_bit(nbuff, k)
                    == (old(self)@ + bits_of_bytes(bytes@))[k] by {
                    lemma_fundamental_div_mod(k, 8);
                    if k < p {
                        assert(k / 8 < q);
                        assert(nbuff[k / 8] == obuff[k / 8]);
                    } else {
                        let t = k - p;
                        lemma_fundamental_div_mod_converse(t, 8, k / 8 - q, k % 8);
                        assert(nbuff[k / 8] == bytes@[t / 8]);
                        assert(bits_of_bytes(bytes@)[t] == stream_bit(bytes@, t));
                    }
                }
                assert(self@ =~= old(self)@ + bits_of_bytes(bytes@));
            }
        } else {
            let sh: u8 = offset as u8;
            let shl: u8 = (8 - offset) as u8;
            proof {
                lemma_fundamental_div_mod_converse(p + 7, 8, q + 1, r - 1);
            }
            let mut idx: usize = 0;
            while idx < bytes.len()
                invariant
                    idx <= bytes@.len(),
                    self.bit_len == old(self).bit_len,
                    p == self.bit_len as int,
                    p == 8 * q + r,
                    0 < r < 8,
                    sh == r as u8,
                    shl == (8 - r) as u8,
                    n == bytes@.len() as int,
                    self.buff@.len() == q + 1 + idx,
                    forall|k: int|
                        0 <= k < p ==> #[trigger] stream_bit(self.buff@, k) == old(self)@[k],
                    forall|k: int|
                        p <= k < p + 8 * idx ==> #[trigger] stream_bit(self.buff@, k)
                            == bits_of_bytes(bytes@)[k - p],
                    forall|k: int|
                        p + 8 * idx <= k < self.buff@.len() * 8 ==> !(#[trigger] stream_bit(
                            self.buff@,
                            k,
                        )),
                decreases bytes@.len() - idx,
            {
                let ghost cbuff = self.buff@;
                let ghost i0 = q + idx;
                let ghost v = p + 8 * idx;
                let b = bytes[idx];
                let last = self.buff.pop().unwrap();
                self.buff.push(last | (b >> sh));
                self.buff.push(b << shl);
                proof {
                    let nbuff = self.buff@;
                    assert(nbuff =~= cbuff.update(i0, last | (b >> sh)).push(b << shl));
                    assert(v == 8 * i0 + r);
                    assert forall|k: int| 0 <= k < p implies #[trigger] stream_bit(nbuff, k)
                        == old(self)@[k] by {
                        lemma_fundamental_div_mod(k, 8);
                        assert(stream_bit(cbuff, k) == old(self)@[k]);
                        if k / 8 == i0 {
                            assert(idx == 0 && k / 8 == q && k % 8 < r);
                            lemma_merge_byte_bits(last, b, sh, (k % 8) as u8);
                        } else {
                            assert(k / 8 < i0);
                            assert(nbuff[k / 8] == cbuff[k / 8]);
                        }
                    }
                    assert forall|k: int| p <= k < v + 8 implies #[trigger] stream_bit(nbuff, k)
                        == bits_of_bytes(bytes@)[k - p] by {
                        lemma_fundamental_div_mod(k, 8);
                        let t = k - p;
                        lemma_fundamental_div_mod(t, 8);
                        if k < v {
                            assert(stream_bit(cbuff, k) == bits_of_bytes(bytes@)[t]);
                            if k / 8 == i0 {
                                assert(k % 8 < r);
                                lemma_merge_byte_bits(last, b, sh, (k % 8) as u8);
                            } else {
                                assert(k / 8 < i0);
                                assert(nbuff[k / 8] == cbuff[k / 8]);
                            }
                        } else {
                            let j2 = k - v;
                            lemma_fundamental_div_mod_converse(t, 8, idx as int, j2);
                            assert(bits_of_bytes(bytes@)[t] == bit_of_byte(b, j2));
                            if j2 < 8 - r {
                                lemma_fundamental_div_mod_converse(k, 8, i0, r + j2);
                                assert(nbuff[i0] == last | (b >> sh));
                                assert(!stream_bit(cbuff, v + j2));
                                assert(cbuff[i0] == last);
                                lemma_merge_byte_bits(last, b, sh, (r + j2) as u8);
                            } else {
                                lemma_fundamental_div_mod_converse(k, 8, i0 + 1, j2 - (8 - r));
                                assert(nbuff[i0 + 1] == (b << shl));
                                lemma_shl_byte_bits(b, sh, (j2 - (8 - r)) as u8);
                            }
                        }
                    }
                    assert forall|k: int| v + 8 <= k < nbuff.len() * 8 implies !(
                    #[trigger] stream_bit(nbuff, k)) by {
                        lemma_fundamental_div_mod_converse(k, 8, i0 + 1, k - 8 * (i0 + 1));
                        lemma_shl_byte_bits(b, sh, (k - 8 * (i0 + 1)) as u8);
                    }
                }
                idx = idx + 1;
            }
            self.bit_len = self.bit_len + bytes.len() * 8;
            proof {
                lemma_fundamental_div_mod_converse(p + 8 * n + 7, 8, q + n + 1, r - 1);
                assert forall|k: int| 0 <= k < p + 8 * n implies #[trigger] stream_bit(
                    self.buff@,
                    k,
                ) == (old(self)@ + bits_of_bytes(bytes@))[k] by {
                }
                assert(self@ =~= old(self)@ + bits_of_bytes(bytes@));
            }
        }
    }

    /// Writes the low `width` bits of `num`, most significant of the
    /// selected range first, starting at the current bit position. Bits
    /// of `num` above the requested width are silently discarded
    /// (truncation). A width outside `[1, 64]` is rejected and writes
    /// nothing.
    pub fn write_int(&mut self, num: u64, width: usize) -> (r: Result<(), CodecError>)
        requires
            old(self).wf(),
            old(self)@.len() + 64 <= usize::MAX,
        ensures
            final(self).wf(),
            match r {
                Ok(()) => 1 <= width <= 64 && final(self)@ == old(self)@ + int_bits(
                    num,
                    width as int,
                ),
                Err(e) => e == CodecError::InvalidFieldWidth && !(1 <= width <= 64)
                    && final(self)@ == old(self)@,
            },
    {
        if width < 1 || width > 64 {
            return Err(CodecError::InvalidFieldWidth);
        }
        let ghost wi = width as int;
        let full: usize = width / 8;
        let tail: usize = width % 8;
        let ghost fulli = full as int;
        proof {
            lemma_fundamental_div_mod(wi, 8);
        }
        let mut bytes: Vec<u8> = Vec::new();
        let mut k: usize = 0;
        while k < full
            invariant
                k <= full,
                8 * fulli <= wi <= 64,
                full == fulli,
                width as int == wi,
                bytes@.len() == k,
                forall|t: int|
                    0 <= t < k ==> #[trigger] bytes@[t] == (num >> (((wi - 8) - 8 * t) as u64)) as u8,
            decreases full - k,
        {
            let sh2: u64 = ((width - 8) - 8 * k) as u64;
            bytes.push((num >> sh2) as u8);
            k = k + 1;
        }
        self.write_bytes(bytes.as_slice());
        proof {
            assert forall|k2: int| 0 <= k2 < 8 * fulli implies bits_of_bytes(bytes@)[k2]
                == int_bits(num, wi)[k2] by {
                lemma_fundamental_div_mod(k2, 8);
                let t = k2 / 8;
                let j = k2 % 8;
                crate::bits::lemma_shifted_byte_bit(num, ((wi - 8) - 8 * t) as u64, j as u8);
                assert((wi - 8) - 8 * t + 7 - j == wi - 1 - k2);
            }
            assert(bits_of_bytes(bytes@) =~= int_bits(num, wi).take(8 * fulli));
            assert(self@ == old(self)@ + int_bits(num, wi).take(8 * fulli));
        }
        let mut i: usize = 0;
        while i < tail
            invariant
                i <= tail,
                width as int == wi,
                full == fulli,
                tail as int == wi - 8 * fulli,
                1 <= wi <= 64,
                old(self)@.len() + 64 <= usize::MAX,
                self.wf(),
                self@ == old(self)@ + int_bits(num, wi).take(8 * fulli + i),
            decreases tail - i,
        {
            let sh3: u64 = ((tail - 1) - i) as u64;
            let ghost pre = self@;
            self.write_bit((num >> sh3) & 1 == 1);
            proof {
                assert(int_bits(num, wi)[8 * fulli + i] == ((num >> sh3) & 1 == 1));
                assert(int_bits(num, wi).take(8 * fulli + i).push(
                    int_bits(num, wi)[8 * fulli + i],
                ) =~= int_bits(num, wi).take(8 * fulli + i + 1));
                assert(self@ =~= old(self)@ + int_bits(num, wi).take(8 * fulli + i + 1));
            }
            i = i + 1;
        }
        proof {
            assert(int_bits(num, wi).take(wi) =~= int_bits(num, wi));
        }
        Ok(())
    }

    /// Writes the raw encoded bytes of `text` followed by enough space
    /// characters (0x20) to pad the total to exactly `fixed_size` bytes,
    /// through the bit-level packer. A text longer than `fixed_size`
    /// bytes is rejected and writes nothing.
    pub fn write_string(&mut self, text: &str, fixed_size: usize) -> (r: Result<(), CodecError>)
        requires
            old(self).wf(),
            old(self)@.len() + fixed_size * 8 <= usize::MAX,
        ensures
            final(self).wf(),
            match r {
                Ok(()) => text.spec_bytes().len() <= fixed_size && final(self)@ == old(self)@
                    + bits_of_bytes(space_padded(text.spec_bytes(), fixed_size as int)),
                Err(e) => e == CodecError::FieldOverflow && text.spec_bytes().len() > fixed_size
                    && final(self)@ == old(self)@,
            },
    {
        let bytes = text.as_bytes();
        if bytes.len() > fixed_size {
            return Err(CodecError::FieldOverflow);
        }
        let mut padded: Vec<u8> = Vec::new();
        let mut i: usize = 0;
        while i < bytes.len()
            invariant
                i <= bytes@.len(),
                padded@ == bytes@.take(i as int),
            decreases bytes@.len() - i,
        {
            let b = bytes[i];
            padded.push(b);
            proof {
                assert(padded@ =~= bytes@.take(i + 1));
            }
            i = i + 1;
        }
        proof {
            assert(padded@ =~= bytes@);
        }
        while padded.len() < fixed_size
            invariant
                bytes@.len() <= padded@.len() <= fixed_size,
                padded@ == bytes@ + Seq::new((padded@.len() - bytes@.len()) as nat, |t: int| 0x20u8),
            decreases fixed_size - padded@.len(),
        {
            padded.push(0x20);
            proof {
                assert(padded@ =~= bytes@ + Seq::new(
                    (padded@.len() - bytes@.len()) as nat,
                    |t: int| 0x20u8,
                ));
            }
        }
        proof {
            assert(padded@ =~= space_padded(text.spec_bytes(), fixed_size as int));
        }
        self.write_bytes(padded.as_slice());
        Ok(())
    }

    /// Consumes the writer and returns the accumulated buffer: the
    /// written bits packed most-significant-bit first, the final byte
    /// zero-padded.
    pub fn finish(self) -> (r: Vec<u8>)
        requires
            self.wf(),
        ensures
            r@.len() == (self@.len() + 7) / 8,
            forall|k: int| 0 <= k < self@.len() ==> #[trigger] stream_bit(r@, k) == self@[k],
            forall|k: int| self@.len() <= k < r@.len() * 8 ==> !(#[trigger] stream_bit(r@, k)),
    {
        self.buff
    }
}

} // verus!
