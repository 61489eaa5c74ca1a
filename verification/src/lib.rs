//! Bit-level binary codec: a writer that packs individually sized bit fields
//! (single bits, arbitrary-width unsigned integers, fixed-length padded text)
//! into a contiguous byte buffer with no padding between fields, and a
//! companion routine that decodes a byte stream back into fixed-width
//! unsigned integer fields.

mod bits;
mod bitbuf;
mod laws;
mod reader;

pub use bitbuf::BitBuf;
pub use bitbuf::CodecError;
pub use bits::be_bytes;
pub use bits::bit_of_byte;
pub use bits::bits_of_bytes;
pub use bits::int_bits;
pub use bits::lemma_int_bits_val;
pub use bits::space_padded;
pub use bits::stream_bit;
pub use bits::val_of_bits;
pub use laws::int_fields_bits;
pub use laws::lemma_encode_decode_round_trip;
pub use laws::lemma_field_round_trip;
pub use laws::lemma_finish_deterministic;
pub use laws::lemma_int_bits_be_bytes;
pub use laws::lemma_stream_round_trip;
pub use reader::decode_all;
