//! The 128-bit identifier field: carried on the wire as its 36-character
//! hyphenated lowercase string form, itself length-prefixed like a string.
use vstd::prelude::*;
use crate::err::{ReadError, WriteError};
use crate::netty::{ProtocolRead, ProtocolWrite};
use crate::strings::Utf8String;

verus! {

/// Names the hyphenated lowercase text the uuid crate assigns to 128 bits:
/// a function of the bits alone.
pub uninterp spec fn uuid_hyphenated(bits: u128) -> Seq<u8>;

/// Names the parse the uuid crate assigns to an identifier string: the 128
/// bits it stands for, or nothing when malformed; a function of the bytes
/// alone.
pub uninterp spec fn uuid_parse(s: Seq<u8>) -> Option<u128>;

/// Relies on uuid::Uuid::hyphenated and fmt::Hyphenated::encode_lower: the
/// 36-byte lowercase hyphenated text of an identifier, a function of its
/// 128 bits alone; the buffer handed in is exactly as long as it needs.
/// The text is ASCII, hence valid UTF-8, and uuid::Uuid::try_parse_ascii
/// accepts the hyphenated form and returns the same 128 bits.
#[verifier::external_body]
fn uuid_to_hyphenated(bits: u128) -> (r: Vec<u8>)
    ensures
        r@ == uuid_hyphenated(bits),
        r@.len() == 36,
        crate::strings::is_utf8(r@),
        uuid_parse(r@) == Some(bits),
{
    let mut buf = [0u8; 36];
    uuid::Uuid::from_u128(bits).hyphenated().encode_lower(&mut buf);
    buf.to_vec()
}

/// Relies on uuid::Uuid::try_parse_ascii and as_u128: whether a byte
/// string is a well-formed identifier and, if so, its 128 bits; a function
/// of the bytes alone.
#[verifier::external_body]
fn uuid_parse_bytes(s: &Vec<u8>) -> (r: Option<u128>)
    ensures
        r == uuid_parse(s@),
{
    match uuid::Uuid::try_parse_ascii(s.as_slice()) {
        Ok(u) => Some(u.as_u128()),
        Err(_) => None,
    }
}

/// A 128-bit identifier, held as its bits.
#[derive(Clone, Copy, Debug, PartialEq, Eq, Structural)]
pub struct Uuid {
    pub bits: u128,
}

impl DeepView for Uuid {
    type V = u128;

    open spec fn deep_view(&self) -> u128 {
        self.bits
    }
}

impl ProtocolRead for Uuid {
    open spec fn sread(d: Seq<u8>) -> Result<(u128, int), ReadError> {
        match <Utf8String as ProtocolRead>::sread(d) {
            Ok((s, n)) => match uuid_parse(s) {
                Some(bits) => Ok((bits, n)),
                None => Err(ReadError::UuidError),
            },
            Err(e) => Err(e),
        }
    }

    fn read(data: &[u8], pos: &mut usize) -> (r: Result<Self, ReadError>) {
        match <Utf8String as ProtocolRead>::read(data, pos) {
            Ok(s) => match uuid_parse_bytes(&s.bytes) {
                Some(bits) => Ok(Uuid { bits }),
                None => Err(ReadError::UuidError),
            },
            Err(e) => Err(e),
        }
    }
}

impl ProtocolWrite for Uuid {
    open spec fn sencodable(v: u128) -> bool {
        true
    }

    open spec fn swire(v: u128) -> Seq<u8> {
        seq![36u8] + uuid_hyphenated(v)
    }

    fn write(self, out: &mut Vec<u8>) -> (r: Result<(), WriteError>) {
        out.push(36u8);
        let mut h = uuid_to_hyphenated(self.bits);
        out.append(&mut h);
        proof {
            assert(out@ =~= old(out)@ + Self::swire(self.deep_view()));
        }
        Ok(())
    }

    fn size_hint() -> (n: usize) {
        36
    }
}

} // verus!
