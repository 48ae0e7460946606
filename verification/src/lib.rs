//! Binary wire format of a real-time game network protocol: primitive and
//! variable-length field codecs, the recursive NBT tagged-value codec, and
//! the outbound packet framing, compression and encryption pipeline.
use vstd::prelude::*;

pub mod err;
pub mod ident;
pub mod conn;
pub mod nbt;
pub mod nbt_laws;
pub mod netty;
pub mod packing;
pub mod nums;
pub mod packets;
pub mod seqs;
pub mod strings;
pub mod varint;

verus! {

/// Greatest number of bytes a variable-length encoding of an integer of
/// `bits` bits can occupy: one byte per started group of seven payload bits.
pub fn var_size(bits: u32) -> (n: usize)
    ensures
        n == (bits + 6) / 7,
{
    (((bits as u64) + 6) / 7) as usize
}

} // verus!

