//! Fixed-width big-endian and variable-length codecs for every signed and
//! unsigned integer width up to 128 bits.  Signed values take the wire image
//! of their unsigned bit pattern; decoding reinterprets by bit pattern.
use vstd::prelude::*;
use crate::err::ReadError;
use crate::err::WriteError;
use crate::netty::{ProtocolRead, ProtocolWrite, Var};
use crate::varint::{varint_bytes, sdec_varint, encode_varint, decode_varint,
    lemma_varint_roundtrip, lemma_varint_len};

verus! {

/// Fixed-width big-endian image of one `u8`: exactly 1 byte.
impl ProtocolWrite for u8 {
    open spec fn sencodable(v: u8) -> bool {
        true
    }

    open spec fn swire(v: u8) -> Seq<u8> {
        seq![v]
    }

    fn write(self, out: &mut Vec<u8>) -> (r: Result<(), WriteError>) {
        out.push(self);
        proof {
            assert(out@ =~= old(out)@ + Self::swire(self));
        }
        Ok(())
    }

    fn size_hint() -> (n: usize) {
        1
    }
}

impl ProtocolRead for u8 {
    open spec fn sread(d: Seq<u8>) -> Result<(u8, int), ReadError> {
        if d.len() < 1 {
            Err(ReadError::IoError)
        } else {
            Ok((d[0], 1))
        }
    }

    fn read(data: &[u8], pos: &mut usize) -> (r: Result<Self, ReadError>) {
        if data.len() - *pos < 1 {
            return Err(ReadError::IoError);
        }
        let v: u8 = data[*pos];
        *pos = *pos + 1;
        Ok(v)
    }
}

/// Variable-length image of one `u8`: the continuation-bit encoding of
/// its unsigned bit pattern, at most 2 bytes.
impl ProtocolWrite for Var<u8> {
    open spec fn sencodable(v: u8) -> bool {
        true
    }

    open spec fn swire(v: u8) -> Seq<u8> {
        varint_bytes(v as u128)
    }

    fn write(self, out: &mut Vec<u8>) -> (r: Result<(), WriteError>) {
        encode_varint(self.0 as u128, out);
        Ok(())
    }

    fn size_hint() -> (n: usize) {
        1
    }
}

impl ProtocolRead for Var<u8> {
    open spec fn sread(d: Seq<u8>) -> Result<(u8, int), ReadError> {
        match sdec_varint(d, 2) {
            Ok((v, n)) => Ok(((v as u8), n as int)),
            Err(e) => Err(e),
        }
    }

    fn read(data: &[u8], pos: &mut usize) -> (r: Result<Self, ReadError>) {
        match decode_varint(data, pos, 2) {
            Ok(v) => Ok(Var(#[verifier::truncate] (v as u8))),
            Err(e) => Err(e),
        }
    }
}

/// Round trip of the variable-length codec at 8 bits: decoding the
/// encoding of any `u8` yields it back, and the encoding never exceeds
/// 2 bytes.
pub proof fn lemma_var_u8_roundtrip(v: u8, rest: Seq<u8>)
    ensures
        <Var<u8> as ProtocolWrite>::swire(v).len() <= 2,
        <Var<u8> as ProtocolRead>::sread(<Var<u8> as ProtocolWrite>::swire(v) + rest)
            == Ok::<(u8, int), ReadError>((
            v,
            <Var<u8> as ProtocolWrite>::swire(v).len() as int,
        )),
{
    assert((v as u128) < (1u128 << 8u128)) by (bit_vector);
    lemma_varint_len((v as u128), 8);
    lemma_varint_roundtrip((v as u128), rest, 2);
    assert(((v as u128) as u8) == v) by (bit_vector);
}

/// Fixed-width big-endian image of one `i8`: exactly 1 byte.
impl ProtocolWrite for i8 {
    open spec fn sencodable(v: i8) -> bool {
        true
    }

    open spec fn swire(v: i8) -> Seq<u8> {
        seq![(v as u8)]
    }

    fn write(self, out: &mut Vec<u8>) -> (r: Result<(), WriteError>) {
        out.push(#[verifier::truncate] ((self as u8) as u8));
        proof {
            assert(out@ =~= old(out)@ + Self::swire(self));
        }
        Ok(())
    }

    fn size_hint() -> (n: usize) {
        1
    }
}

impl ProtocolRead for i8 {
    open spec fn sread(d: Seq<u8>) -> Result<(i8, int), ReadError> {
        if d.len() < 1 {
            Err(ReadError::IoError)
        } else {
            Ok(((d[0] as i8), 1))
        }
    }

    fn read(data: &[u8], pos: &mut usize) -> (r: Result<Self, ReadError>) {
        if data.len() - *pos < 1 {
            return Err(ReadError::IoError);
        }
        let v: i8 = #[verifier::truncate] (data[*pos] as i8);
        *pos = *pos + 1;
        Ok(v)
    }
}

/// Variable-length image of one `i8`: the continuation-bit encoding of
/// its unsigned bit pattern, at most 2 bytes.
impl ProtocolWrite for Var<i8> {
    open spec fn sencodable(v: i8) -> bool {
        true
    }

    open spec fn swire(v: i8) -> Seq<u8> {
        varint_bytes((v as u8) as u128)
    }

    fn write(self, out: &mut Vec<u8>) -> (r: Result<(), WriteError>) {
        encode_varint((self.0 as u8) as u128, out);
        Ok(())
    }

    fn size_hint() -> (n: usize) {
        1
    }
}

impl ProtocolRead for Var<i8> {
    open spec fn sread(d: Seq<u8>) -> Result<(i8, int), ReadError> {
        match sdec_varint(d, 2) {
            Ok((v, n)) => Ok(((v as i8), n as int)),
            Err(e) => Err(e),
        }
    }

    fn read(data: &[u8], pos: &mut usize) -> (r: Result<Self, ReadError>) {
        match decode_varint(data, pos, 2) {
            Ok(v) => Ok(Var(#[verifier::truncate] (v as i8))),
            Err(e) => Err(e),
        }
    }
}

/// Round trip of the variable-length codec at 8 bits: decoding the
/// encoding of any `i8` yields it back, and the encoding never exceeds
/// 2 bytes.
pub proof fn lemma_var_i8_roundtrip(v: i8, rest: Seq<u8>)
    ensures
        <Var<i8> as ProtocolWrite>::swire(v).len() <= 2,
        <Var<i8> as ProtocolRead>::sread(<Var<i8> as ProtocolWrite>::swire(v) + rest)
            == Ok::<(i8, int), ReadError>((
            v,
            <Var<i8> as ProtocolWrite>::swire(v).len() as int,
        )),
{
    assert(((v as u8) as u128) < (1u128 << 8u128)) by (bit_vector);
    lemma_varint_len(((v as u8) as u128), 8);
    lemma_varint_roundtrip(((v as u8) as u128), rest, 2);
    assert((((v as u8) as u128) as i8) == v) by (bit_vector);
}

/// Fixed-width big-endian image of one `u16`: exactly 2 bytes.
impl ProtocolWrite for u16 {
    open spec fn sencodable(v: u16) -> bool {
        true
    }

    open spec fn swire(v: u16) -> Seq<u8> {
        seq![((v) >> 8) as u8, (v) as u8]
    }

    fn write(self, out: &mut Vec<u8>) -> (r: Result<(), WriteError>) {
        out.push(#[verifier::truncate] (((self) >> 8) as u8));
        out.push(#[verifier::truncate] ((self) as u8));
        proof {
            assert(out@ =~= old(out)@ + Self::swire(self));
        }
        Ok(())
    }

    fn size_hint() -> (n: usize) {
        2
    }
}

impl ProtocolRead for u16 {
    open spec fn sread(d: Seq<u8>) -> Result<(u16, int), ReadError> {
        if d.len() < 2 {
            Err(ReadError::IoError)
        } else {
            Ok((((d[0] as u16) << 8) | (d[1] as u16), 2))
        }
    }

    fn read(data: &[u8], pos: &mut usize) -> (r: Result<Self, ReadError>) {
        if data.len() - *pos < 2 {
            return Err(ReadError::IoError);
        }
        let v: u16 = ((data[*pos] as u16) << 8) | (data[*pos + 1] as u16);
        *pos = *pos + 2;
        Ok(v)
    }
}

/// Variable-length image of one `u16`: the continuation-bit encoding of
/// its unsigned bit pattern, at most 3 bytes.
impl ProtocolWrite for Var<u16> {
    open spec fn sencodable(v: u16) -> bool {
        true
    }

    open spec fn swire(v: u16) -> Seq<u8> {
        varint_bytes(v as u128)
    }

    fn write(self, out: &mut Vec<u8>) -> (r: Result<(), WriteError>) {
        encode_varint(self.0 as u128, out);
        Ok(())
    }

    fn size_hint() -> (n: usize) {
        1
    }
}

impl ProtocolRead for Var<u16> {
    open spec fn sread(d: Seq<u8>) -> Result<(u16, int), ReadError> {
        match sdec_varint(d, 3) {
            Ok((v, n)) => Ok(((v as u16), n as int)),
            Err(e) => Err(e),
        }
    }

    fn read(data: &[u8], pos: &mut usize) -> (r: Result<Self, ReadError>) {
        match decode_varint(data, pos, 3) {
            Ok(v) => Ok(Var(#[verifier::truncate] (v as u16))),
            Err(e) => Err(e),
        }
    }
}

/// Round trip of the variable-length codec at 16 bits: decoding the
/// encoding of any `u16` yields it back, and the encoding never exceeds
/// 3 bytes.
pub proof fn lemma_var_u16_roundtrip(v: u16, rest: Seq<u8>)
    ensures
        <Var<u16> as ProtocolWrite>::swire(v).len() <= 3,
        <Var<u16> as ProtocolRead>::sread(<Var<u16> as ProtocolWrite>::swire(v) + rest)
            == Ok::<(u16, int), ReadError>((
            v,
            <Var<u16> as ProtocolWrite>::swire(v).len() as int,
        )),
{
    assert((v as u128) < (1u128 << 16u128)) by (bit_vector);
    lemma_varint_len((v as u128), 16);
    lemma_varint_roundtrip((v as u128), rest, 3);
    assert(((v as u128) as u16) == v) by (bit_vector);
}

/// Fixed-width big-endian image of one `i16`: exactly 2 bytes.
impl ProtocolWrite for i16 {
    open spec fn sencodable(v: i16) -> bool {
        true
    }

    open spec fn swire(v: i16) -> Seq<u8> {
        seq![(((v as u16)) >> 8) as u8, ((v as u16)) as u8]
    }

    fn write(self, out: &mut Vec<u8>) -> (r: Result<(), WriteError>) {
        out.push(#[verifier::truncate] ((((self as u16)) >> 8) as u8));
        out.push(#[verifier::truncate] (((self as u16)) as u8));
        proof {
            assert(out@ =~= old(out)@ + Self::swire(self));
        }
        Ok(())
    }

    fn size_hint() -> (n: usize) {
        2
    }
}

impl ProtocolRead for i16 {
    open spec fn sread(d: Seq<u8>) -> Result<(i16, int), ReadError> {
        if d.len() < 2 {
            Err(ReadError::IoError)
        } else {
            Ok(((((d[0] as u16) << 8) | (d[1] as u16)) as i16, 2))
        }
    }

    fn read(data: &[u8], pos: &mut usize) -> (r: Result<Self, ReadError>) {
        if data.len() - *pos < 2 {
            return Err(ReadError::IoError);
        }
        let v: i16 = #[verifier::truncate] ((((data[*pos] as u16) << 8) | (data[*pos + 1] as u16)) as i16);
        *pos = *pos + 2;
        Ok(v)
    }
}

/// Variable-length image of one `i16`: the continuation-bit encoding of
/// its unsigned bit pattern, at most 3 bytes.
impl ProtocolWrite for Var<i16> {
    open spec fn sencodable(v: i16) -> bool {
        true
    }

    open spec fn swire(v: i16) -> Seq<u8> {
        varint_bytes((v as u16) as u128)
    }

    fn write(self, out: &mut Vec<u8>) -> (r: Result<(), WriteError>) {
        encode_varint((self.0 as u16) as u128, out);
        Ok(())
    }

    fn size_hint() -> (n: usize) {
        1
    }
}

impl ProtocolRead for Var<i16> {
    open spec fn sread(d: Seq<u8>) -> Result<(i16, int), ReadError> {
        match sdec_varint(d, 3) {
            Ok((v, n)) => Ok(((v as i16), n as int)),
            Err(e) => Err(e),
        }
    }

    fn read(data: &[u8], pos: &mut usize) -> (r: Result<Self, ReadError>) {
        match decode_varint(data, pos, 3) {
            Ok(v) => Ok(Var(#[verifier::truncate] (v as i16))),
            Err(e) => Err(e),
        }
    }
}

/// Round trip of the variable-length codec at 16 bits: decoding the
/// encoding of any `i16` yields it back, and the encoding never exceeds
/// 3 bytes.
pub proof fn lemma_var_i16_roundtrip(v: i16, rest: Seq<u8>)
    ensures
        <Var<i16> as ProtocolWrite>::swire(v).len() <= 3,
        <Var<i16> as ProtocolRead>::sread(<Var<i16> as ProtocolWrite>::swire(v) + rest)
            == Ok::<(i16, int), ReadError>((
            v,
            <Var<i16> as ProtocolWrite>::swire(v).len() as int,
        )),
{
    assert(((v as u16) as u128) < (1u128 << 16u128)) by (bit_vector);
    lemma_varint_len(((v as u16) as u128), 16);
    lemma_varint_roundtrip(((v as u16) as u128), rest, 3);
    assert((((v as u16) as u128) as i16) == v) by (bit_vector);
}

/// Fixed-width big-endian image of one `u32`: exactly 4 bytes.
impl ProtocolWrite for u32 {
    open spec fn sencodable(v: u32) -> bool {
        true
    }

    open spec fn swire(v: u32) -> Seq<u8> {
        seq![((v) >> 24) as u8, ((v) >> 16) as u8, ((v) >> 8) as u8, (v) as u8]
    }

    fn write(self, out: &mut Vec<u8>) -> (r: Result<(), WriteError>) {
        out.push(#[verifier::truncate] (((self) >> 24) as u8));
        out.push(#[verifier::truncate] (((self) >> 16) as u8));
        out.push(#[verifier::truncate] (((self) >> 8) as u8));
        out.push(#[verifier::truncate] ((self) as u8));
        proof {
            assert(out@ =~= old(out)@ + Self::swire(self));
        }
        Ok(())
    }

    fn size_hint() -> (n: usize) {
        4
    }
}

impl ProtocolRead for u32 {
    open spec fn sread(d: Seq<u8>) -> Result<(u32, int), ReadError> {
        if d.len() < 4 {
            Err(ReadError::IoError)
        } else {
            Ok((((d[0] as u32) << 24) | ((d[1] as u32) << 16) | ((d[2] as u32) << 8) | (d[3] as u32), 4))
        }
    }

    fn read(data: &[u8], pos: &mut usize) -> (r: Result<Self, ReadError>) {
        if data.len() - *pos < 4 {
            return Err(ReadError::IoError);
        }
        let v: u32 = ((data[*pos] as u32) << 24) | ((data[*pos + 1] as u32) << 16) | ((data[*pos + 2] as u32) << 8) | (data[*pos + 3] as u32);
        *pos = *pos + 4;
        Ok(v)
    }
}

/// Variable-length image of one `u32`: the continuation-bit encoding of
/// its unsigned bit pattern, at most 5 bytes.
impl ProtocolWrite for Var<u32> {
    open spec fn sencodable(v: u32) -> bool {
        true
    }

    open spec fn swire(v: u32) -> Seq<u8> {
        varint_bytes(v as u128)
    }

    fn write(self, out: &mut Vec<u8>) -> (r: Result<(), WriteError>) {
        encode_varint(self.0 as u128, out);
        Ok(())
    }

    fn size_hint() -> (n: usize) {
        1
    }
}

impl ProtocolRead for Var<u32> {
    open spec fn sread(d: Seq<u8>) -> Result<(u32, int), ReadError> {
        match sdec_varint(d, 5) {
            Ok((v, n)) => Ok(((v as u32), n as int)),
            Err(e) => Err(e),
        }
    }

    fn read(data: &[u8], pos: &mut usize) -> (r: Result<Self, ReadError>) {
        match decode_varint(data, pos, 5) {
            Ok(v) => Ok(Var(#[verifier::truncate] (v as u32))),
            Err(e) => Err(e),
        }
    }
}

/// Round trip of the variable-length codec at 32 bits: decoding the
/// encoding of any `u32` yields it back, and the encoding never exceeds
/// 5 bytes.
pub proof fn lemma_var_u32_roundtrip(v: u32, rest: Seq<u8>)
    ensures
        <Var<u32> as ProtocolWrite>::swire(v).len() <= 5,
        <Var<u32> as ProtocolRead>::sread(<Var<u32> as ProtocolWrite>::swire(v) + rest)
            == Ok::<(u32, int), ReadError>((
            v,
            <Var<u32> as ProtocolWrite>::swire(v).len() as int,
        )),
{
    assert((v as u128) < (1u128 << 32u128)) by (bit_vector);
    lemma_varint_len((v as u128), 32);
    lemma_varint_roundtrip((v as u128), rest, 5);
    assert(((v as u128) as u32) == v) by (bit_vector);
}

/// Fixed-width big-endian image of one `i32`: exactly 4 bytes.
impl ProtocolWrite for i32 {
    open spec fn sencodable(v: i32) -> bool {
        true
    }

    open spec fn swire(v: i32) -> Seq<u8> {
        seq![(((v as u32)) >> 24) as u8, (((v as u32)) >> 16) as u8, (((v as u32)) >> 8) as u8, ((v as u32)) as u8]
    }

    fn write(self, out: &mut Vec<u8>) -> (r: Result<(), WriteError>) {
        out.push(#[verifier::truncate] ((((self as u32)) >> 24) as u8));
        out.push(#[verifier::truncate] ((((self as u32)) >> 16) as u8));
        out.push(#[verifier::truncate] ((((self as u32)) >> 8) as u8));
        out.push(#[verifier::truncate] (((self as u32)) as u8));
        proof {
            assert(out@ =~= old(out)@ + Self::swire(self));
        }
        Ok(())
    }

    fn size_hint() -> (n: usize) {
        4
    }
}

impl ProtocolRead for i32 {
    open spec fn sread(d: Seq<u8>) -> Result<(i32, int), ReadError> {
        if d.len() < 4 {
            Err(ReadError::IoError)
        } else {
            Ok(((((d[0] as u32) << 24) | ((d[1] as u32) << 16) | ((d[2] as u32) << 8) | (d[3] as u32)) as i32, 4))
        }
    }

    fn read(data: &[u8], pos: &mut usize) -> (r: Result<Self, ReadError>) {
        if data.len() - *pos < 4 {
            return Err(ReadError::IoError);
        }
        let v: i32 = #[verifier::truncate] ((((data[*pos] as u32) << 24) | ((data[*pos + 1] as u32) << 16) | ((data[*pos + 2] as u32) << 8) | (data[*pos + 3] as u32)) as i32);
        *pos = *pos + 4;
        Ok(v)
    }
}

/// Variable-length image of one `i32`: the continuation-bit encoding of
/// its unsigned bit pattern, at most 5 bytes.
impl ProtocolWrite for Var<i32> {
    open spec fn sencodable(v: i32) -> bool {
        true
    }

    open spec fn swire(v: i32) -> Seq<u8> {
        varint_bytes((v as u32) as u128)
    }

    fn write(self, out: &mut Vec<u8>) -> (r: Result<(), WriteError>) {
        encode_varint((self.0 as u32) as u128, out);
        Ok(())
    }

    fn size_hint() -> (n: usize) {
        1
    }
}

impl ProtocolRead for Var<i32> {
    open spec fn sread(d: Seq<u8>) -> Result<(i32, int), ReadError> {
        match sdec_varint(d, 5) {
            Ok((v, n)) => Ok(((v as i32), n as int)),
            Err(e) => Err(e),
        }
    }

    fn read(data: &[u8], pos: &mut usize) -> (r: Result<Self, ReadError>) {
        match decode_varint(data, pos, 5) {
            Ok(v) => Ok(Var(#[verifier::truncate] (v as i32))),
            Err(e) => Err(e),
        }
    }
}

/// Round trip of the variable-length codec at 32 bits: decoding the
/// encoding of any `i32` yields it back, and the encoding never exceeds
/// 5 bytes.
pub proof fn lemma_var_i32_roundtrip(v: i32, rest: Seq<u8>)
    ensures
        <Var<i32> as ProtocolWrite>::swire(v).len() <= 5,
        <Var<i32> as ProtocolRead>::sread(<Var<i32> as ProtocolWrite>::swire(v) + rest)
            == Ok::<(i32, int), ReadError>((
            v,
            <Var<i32> as ProtocolWrite>::swire(v).len() as int,
        )),
{
    assert(((v as u32) as u128) < (1u128 << 32u128)) by (bit_vector);
    lemma_varint_len(((v as u32) as u128), 32);
    lemma_varint_roundtrip(((v as u32) as u128), rest, 5);
    assert((((v as u32) as u128) as i32) == v) by (bit_vector);
}

/// Fixed-width big-endian image of one `u64`: exactly 8 bytes.
impl ProtocolWrite for u64 {
    open spec fn sencodable(v: u64) -> bool {
        true
    }

    open spec fn swire(v: u64) -> Seq<u8> {
        seq![((v) >> 56) as u8, ((v) >> 48) as u8, ((v) >> 40) as u8, ((v) >> 32) as u8, ((v) >> 24) as u8, ((v) >> 16) as u8, ((v) >> 8) as u8, (v) as u8]
    }

    fn write(self, out: &mut Vec<u8>) -> (r: Result<(), WriteError>) {
        out.push(#[verifier::truncate] (((self) >> 56) as u8));
        out.push(#[verifier::truncate] (((self) >> 48) as u8));
        out.push(#[verifier::truncate] (((self) >> 40) as u8));
        out.push(#[verifier::truncate] (((self) >> 32) as u8));
        out.push(#[verifier::truncate] (((self) >> 24) as u8));
        out.push(#[verifier::truncate] (((self) >> 16) as u8));
        out.push(#[verifier::truncate] (((self) >> 8) as u8));
        out.push(#[verifier::truncate] ((self) as u8));
        proof {
            assert(out@ =~= old(out)@ + Self::swire(self));
        }
        Ok(())
    }

    fn size_hint() -> (n: usize) {
        8
    }
}

impl ProtocolRead for u64 {
    open spec fn sread(d: Seq<u8>) -> Result<(u64, int), ReadError> {
        if d.len() < 8 {
            Err(ReadError::IoError)
        } else {
            Ok((((d[0] as u64) << 56) | ((d[1] as u64) << 48) | ((d[2] as u64) << 40) | ((d[3] as u64) << 32) | ((d[4] as u64) << 24) | ((d[5] as u64) << 16) | ((d[6] as u64) << 8) | (d[7] as u64), 8))
        }
    }

    fn read(data: &[u8], pos: &mut usize) -> (r: Result<Self, ReadError>) {
        if data.len() - *pos < 8 {
            return Err(ReadError::IoError);
        }
        let v: u64 = ((data[*pos] as u64) << 56) | ((data[*pos + 1] as u64) << 48) | ((data[*pos + 2] as u64) << 40) | ((data[*pos + 3] as u64) << 32) | ((data[*pos + 4] as u64) << 24) | ((data[*pos + 5] as u64) << 16) | ((data[*pos + 6] as u64) << 8) | (data[*pos + 7] as u64);
        *pos = *pos + 8;
        Ok(v)
    }
}

/// Variable-length image of one `u64`: the continuation-bit encoding of
/// its unsigned bit pattern, at most 10 bytes.
impl ProtocolWrite for Var<u64> {
    open spec fn sencodable(v: u64) -> bool {
        true
    }

    open spec fn swire(v: u64) -> Seq<u8> {
        varint_bytes(v as u128)
    }

    fn write(self, out: &mut Vec<u8>) -> (r: Result<(), WriteError>) {
        encode_varint(self.0 as u128, out);
        Ok(())
    }

    fn size_hint() -> (n: usize) {
        1
    }
}

impl ProtocolRead for Var<u64> {
    open spec fn sread(d: Seq<u8>) -> Result<(u64, int), ReadError> {
        match sdec_varint(d, 10) {
            Ok((v, n)) => Ok(((v as u64), n as int)),
            Err(e) => Err(e),
        }
    }

    fn read(data: &[u8], pos: &mut usize) -> (r: Result<Self, ReadError>) {
        match decode_varint(data, pos, 10) {
            Ok(v) => Ok(Var(#[verifier::truncate] (v as u64))),
            Err(e) => Err(e),
        }
    }
}

/// Round trip of the variable-length codec at 64 bits: decoding the
/// encoding of any `u64` yields it back, and the encoding never exceeds
/// 10 bytes.
pub proof fn lemma_var_u64_roundtrip(v: u64, rest: Seq<u8>)
    ensures
        <Var<u64> as ProtocolWrite>::swire(v).len() <= 10,
        <Var<u64> as ProtocolRead>::sread(<Var<u64> as ProtocolWrite>::swire(v) + rest)
            == Ok::<(u64, int), ReadError>((
            v,
            <Var<u64> as ProtocolWrite>::swire(v).len() as int,
        )),
{
    assert((v as u128) < (1u128 << 64u128)) by (bit_vector);
    lemma_varint_len((v as u128), 64);
    lemma_varint_roundtrip((v as u128), rest, 10);
    assert(((v as u128) as u64) == v) by (bit_vector);
}

/// Fixed-width big-endian image of one `i64`: exactly 8 bytes.
impl ProtocolWrite for i64 {
    open spec fn sencodable(v: i64) -> bool {
        true
    }

    open spec fn swire(v: i64) -> Seq<u8> {
        seq![(((v as u64)) >> 56) as u8, (((v as u64)) >> 48) as u8, (((v as u64)) >> 40) as u8, (((v as u64)) >> 32) as u8, (((v as u64)) >> 24) as u8, (((v as u64)) >> 16) as u8, (((v as u64)) >> 8) as u8, ((v as u64)) as u8]
    }

    fn write(self, out: &mut Vec<u8>) -> (r: Result<(), WriteError>) {
        out.push(#[verifier::truncate] ((((self as u64)) >> 56) as u8));
        out.push(#[verifier::truncate] ((((self as u64)) >> 48) as u8));
        out.push(#[verifier::truncate] ((((self as u64)) >> 40) as u8));
        out.push(#[verifier::truncate] ((((self as u64)) >> 32) as u8));
        out.push(#[verifier::truncate] ((((self as u64)) >> 24) as u8));
        out.push(#[verifier::truncate] ((((self as u64)) >> 16) as u8));
        out.push(#[verifier::truncate] ((((self as u64)) >> 8) as u8));
        out.push(#[verifier::truncate] (((self as u64)) as u8));
        proof {
            assert(out@ =~= old(out)@ + Self::swire(self));
        }
        Ok(())
    }

    fn size_hint() -> (n: usize) {
        8
    }
}

impl ProtocolRead for i64 {
    open spec fn sread(d: Seq<u8>) -> Result<(i64, int), ReadError> {
        if d.len() < 8 {
            Err(ReadError::IoError)
        } else {
            Ok(((((d[0] as u64) << 56) | ((d[1] as u64) << 48) | ((d[2] as u64) << 40) | ((d[3] as u64) << 32) | ((d[4] as u64) << 24) | ((d[5] as u64) << 16) | ((d[6] as u64) << 8) | (d[7] as u64)) as i64, 8))
        }
    }

    fn read(data: &[u8], pos: &mut usize) -> (r: Result<Self, ReadError>) {
        if data.len() - *pos < 8 {
            return Err(ReadError::IoError);
        }
        let v: i64 = #[verifier::truncate] ((((data[*pos] as u64) << 56) | ((data[*pos + 1] as u64) << 48) | ((data[*pos + 2] as u64) << 40) | ((data[*pos + 3] as u64) << 32) | ((data[*pos + 4] as u64) << 24) | ((data[*pos + 5] as u64) << 16) | ((data[*pos + 6] as u64) << 8) | (data[*pos + 7] as u64)) as i64);
        *pos = *pos + 8;
        Ok(v)
    }
}

/// Variable-length image of one `i64`: the continuation-bit encoding of
/// its unsigned bit pattern, at most 10 bytes.
impl ProtocolWrite for Var<i64> {
    open spec fn sencodable(v: i64) -> bool {
        true
    }

    open spec fn swire(v: i64) -> Seq<u8> {
        varint_bytes((v as u64) as u128)
    }

    fn write(self, out: &mut Vec<u8>) -> (r: Result<(), WriteError>) {
        encode_varint((self.0 as u64) as u128, out);
        Ok(())
    }

    fn size_hint() -> (n: usize) {
        1
    }
}

impl ProtocolRead for Var<i64> {
    open spec fn sread(d: Seq<u8>) -> Result<(i64, int), ReadError> {
        match sdec_varint(d, 10) {
            Ok((v, n)) => Ok(((v as i64), n as int)),
            Err(e) => Err(e),
        }
    }

    fn read(data: &[u8], pos: &mut usize) -> (r: Result<Self, ReadError>) {
        match decode_varint(data, pos, 10) {
            Ok(v) => Ok(Var(#[verifier::truncate] (v as i64))),
            Err(e) => Err(e),
        }
    }
}

/// Round trip of the variable-length codec at 64 bits: decoding the
/// encoding of any `i64` yields it back, and the encoding never exceeds
/// 10 bytes.
pub proof fn lemma_var_i64_roundtrip(v: i64, rest: Seq<u8>)
    ensures
        <Var<i64> as ProtocolWrite>::swire(v).len() <= 10,
        <Var<i64> as ProtocolRead>::sread(<Var<i64> as ProtocolWrite>::swire(v) + rest)
            == Ok::<(i64, int), ReadError>((
            v,
            <Var<i64> as ProtocolWrite>::swire(v).len() as int,
        )),
{
    assert(((v as u64) as u128) < (1u128 << 64u128)) by (bit_vector);
    lemma_varint_len(((v as u64) as u128), 64);
    lemma_varint_roundtrip(((v as u64) as u128), rest, 10);
    assert((((v as u64) as u128) as i64) == v) by (bit_vector);
}

/// Fixed-width big-endian image of one `u128`: exactly 16 bytes.
impl ProtocolWrite for u128 {
    open spec fn sencodable(v: u128) -> bool {
        true
    }

    open spec fn swire(v: u128) -> Seq<u8> {
        seq![((v) >> 120) as u8, ((v) >> 112) as u8, ((v) >> 104) as u8, ((v) >> 96) as u8, ((v) >> 88) as u8, ((v) >> 80) as u8, ((v) >> 72) as u8, ((v) >> 64) as u8, ((v) >> 56) as u8, ((v) >> 48) as u8, ((v) >> 40) as u8, ((v) >> 32) as u8, ((v) >> 24) as u8, ((v) >> 16) as u8, ((v) >> 8) as u8, (v) as u8]
    }

    fn write(self, out: &mut Vec<u8>) -> (r: Result<(), WriteError>) {
        out.push(#[verifier::truncate] (((self) >> 120) as u8));
        out.push(#[verifier::truncate] (((self) >> 112) as u8));
        out.push(#[verifier::truncate] (((self) >> 104) as u8));
        out.push(#[verifier::truncate] (((self) >> 96) as u8));
        out.push(#[verifier::truncate] (((self) >> 88) as u8));
        out.push(#[verifier::truncate] (((self) >> 80) as u8));
        out.push(#[verifier::truncate] (((self) >> 72) as u8));
        out.push(#[verifier::truncate] (((self) >> 64) as u8));
        out.push(#[verifier::truncate] (((self) >> 56) as u8));
        out.push(#[verifier::truncate] (((self) >> 48) as u8));
        out.push(#[verifier::truncate] (((self) >> 40) as u8));
        out.push(#[verifier::truncate] (((self) >> 32) as u8));
        out.push(#[verifier::truncate] (((self) >> 24) as u8));
        out.push(#[verifier::truncate] (((self) >> 16) as u8));
        out.push(#[verifier::truncate] (((self) >> 8) as u8));
        out.push(#[verifier::truncate] ((self) as u8));
        proof {
            assert(out@ =~= old(out)@ + Self::swire(self));
        }
        Ok(())
    }

    fn size_hint() -> (n: usize) {
        16
    }
}

impl ProtocolRead for u128 {
    open spec fn sread(d: Seq<u8>) -> Result<(u128, int), ReadError> {
        if d.len() < 16 {
            Err(ReadError::IoError)
        } else {
            Ok((((d[0] as u128) << 120) | ((d[1] as u128) << 112) | ((d[2] as u128) << 104) | ((d[3] as u128) << 96) | ((d[4] as u128) << 88) | ((d[5] as u128) << 80) | ((d[6] as u128) << 72) | ((d[7] as u128) << 64) | ((d[8] as u128) << 56) | ((d[9] as u128) << 48) | ((d[10] as u128) << 40) | ((d[11] as u128) << 32) | ((d[12] as u128) << 24) | ((d[13] as u128) << 16) | ((d[14] as u128) << 8) | (d[15] as u128), 16))
        }
    }

    fn read(data: &[u8], pos: &mut usize) -> (r: Result<Self, ReadError>) {
        if data.len() - *pos < 16 {
            return Err(ReadError::IoError);
        }
        let v: u128 = ((data[*pos] as u128) << 120) | ((data[*pos + 1] as u128) << 112) | ((data[*pos + 2] as u128) << 104) | ((data[*pos + 3] as u128) << 96) | ((data[*pos + 4] as u128) << 88) | ((data[*pos + 5] as u128) << 80) | ((data[*pos + 6] as u128) << 72) | ((data[*pos + 7] as u128) << 64) | ((data[*pos + 8] as u128) << 56) | ((data[*pos + 9] as u128) << 48) | ((data[*pos + 10] as u128) << 40) | ((data[*pos + 11] as u128) << 32) | ((data[*pos + 12] as u128) << 24) | ((data[*pos + 13] as u128) << 16) | ((data[*pos + 14] as u128) << 8) | (data[*pos + 15] as u128);
        *pos = *pos + 16;
        Ok(v)
    }
}

/// Variable-length image of one `u128`: the continuation-bit encoding of
/// its unsigned bit pattern, at most 19 bytes.
impl ProtocolWrite for Var<u128> {
    open spec fn sencodable(v: u128) -> bool {
        true
    }

    open spec fn swire(v: u128) -> Seq<u8> {
        varint_bytes(v)
    }

    fn write(self, out: &mut Vec<u8>) -> (r: Result<(), WriteError>) {
        encode_varint(self.0, out);
        Ok(())
    }

    fn size_hint() -> (n: usize) {
        1
    }
}

impl ProtocolRead for Var<u128> {
    open spec fn sread(d: Seq<u8>) -> Result<(u128, int), ReadError> {
        match sdec_varint(d, 19) {
            Ok((v, n)) => Ok(((v), n as int)),
            Err(e) => Err(e),
        }
    }

    fn read(data: &[u8], pos: &mut usize) -> (r: Result<Self, ReadError>) {
        match decode_varint(data, pos, 19) {
            Ok(v) => Ok(Var(v)),
            Err(e) => Err(e),
        }
    }
}

/// Round trip of the variable-length codec at 128 bits: decoding the
/// encoding of any `u128` yields it back, and the encoding never exceeds
/// 19 bytes.
pub proof fn lemma_var_u128_roundtrip(v: u128, rest: Seq<u8>)
    ensures
        <Var<u128> as ProtocolWrite>::swire(v).len() <= 19,
        <Var<u128> as ProtocolRead>::sread(<Var<u128> as ProtocolWrite>::swire(v) + rest)
            == Ok::<(u128, int), ReadError>((
            v,
            <Var<u128> as ProtocolWrite>::swire(v).len() as int,
        )),
{
    lemma_varint_len(v, 128);
    lemma_varint_roundtrip(v, rest, 19);
}

/// Fixed-width big-endian image of one `i128`: exactly 16 bytes.
impl ProtocolWrite for i128 {
    open spec fn sencodable(v: i128) -> bool {
        true
    }

    open spec fn swire(v: i128) -> Seq<u8> {
        seq![(((v as u128)) >> 120) as u8, (((v as u128)) >> 112) as u8, (((v as u128)) >> 104) as u8, (((v as u128)) >> 96) as u8, (((v as u128)) >> 88) as u8, (((v as u128)) >> 80) as u8, (((v as u128)) >> 72) as u8, (((v as u128)) >> 64) as u8, (((v as u128)) >> 56) as u8, (((v as u128)) >> 48) as u8, (((v as u128)) >> 40) as u8, (((v as u128)) >> 32) as u8, (((v as u128)) >> 24) as u8, (((v as u128)) >> 16) as u8, (((v as u128)) >> 8) as u8, ((v as u128)) as u8]
    }

    fn write(self, out: &mut Vec<u8>) -> (r: Result<(), WriteError>) {
        out.push(#[verifier::truncate] ((((self as u128)) >> 120) as u8));
        out.push(#[verifier::truncate] ((((self as u128)) >> 112) as u8));
        out.push(#[verifier::truncate] ((((self as u128)) >> 104) as u8));
        out.push(#[verifier::truncate] ((((self as u128)) >> 96) as u8));
        out.push(#[verifier::truncate] ((((self as u128)) >> 88) as u8));
        out.push(#[verifier::truncate] ((((self as u128)) >> 80) as u8));
        out.push(#[verifier::truncate] ((((self as u128)) >> 72) as u8));
        out.push(#[verifier::truncate] ((((self as u128)) >> 64) as u8));
        out.push(#[verifier::truncate] ((((self as u128)) >> 56) as u8));
        out.push(#[verifier::truncate] ((((self as u128)) >> 48) as u8));
        out.push(#[verifier::truncate] ((((self as u128)) >> 40) as u8));
        out.push(#[verifier::truncate] ((((self as u128)) >> 32) as u8));
        out.push(#[verifier::truncate] ((((self as u128)) >> 24) as u8));
        out.push(#[verifier::truncate] ((((self as u128)) >> 16) as u8));
        out.push(#[verifier::truncate] ((((self as u128)) >> 8) as u8));
        out.push(#[verifier::truncate] (((self as u128)) as u8));
        proof {
            assert(out@ =~= old(out)@ + Self::swire(self));
        }
        Ok(())
    }

    fn size_hint() -> (n: usize) {
        16
    }
}

impl ProtocolRead for i128 {
    open spec fn sread(d: Seq<u8>) -> Result<(i128, int), ReadError> {
        if d.len() < 16 {
            Err(ReadError::IoError)
        } else {
            Ok(((((d[0] as u128) << 120) | ((d[1] as u128) << 112) | ((d[2] as u128) << 104) | ((d[3] as u128) << 96) | ((d[4] as u128) << 88) | ((d[5] as u128) << 80) | ((d[6] as u128) << 72) | ((d[7] as u128) << 64) | ((d[8] as u128) << 56) | ((d[9] as u128) << 48) | ((d[10] as u128) << 40) | ((d[11] as u128) << 32) | ((d[12] as u128) << 24) | ((d[13] as u128) << 16) | ((d[14] as u128) << 8) | (d[15] as u128)) as i128, 16))
        }
    }

    fn read(data: &[u8], pos: &mut usize) -> (r: Result<Self, ReadError>) {
        if data.len() - *pos < 16 {
            return Err(ReadError::IoError);
        }
        let v: i128 = #[verifier::truncate] ((((data[*pos] as u128) << 120) | ((data[*pos + 1] as u128) << 112) | ((data[*pos + 2] as u128) << 104) | ((data[*pos + 3] as u128) << 96) | ((data[*pos + 4] as u128) << 88) | ((data[*pos + 5] as u128) << 80) | ((data[*pos + 6] as u128) << 72) | ((data[*pos + 7] as u128) << 64) | ((data[*pos + 8] as u128) << 56) | ((data[*pos + 9] as u128) << 48) | ((data[*pos + 10] as u128) << 40) | ((data[*pos + 11] as u128) << 32) | ((data[*pos + 12] as u128) << 24) | ((data[*pos + 13] as u128) << 16) | ((data[*pos + 14] as u128) << 8) | (data[*pos + 15] as u128)) as i128);
        *pos = *pos + 16;
        Ok(v)
    }
}

/// Variable-length image of one `i128`: the continuation-bit encoding of
/// its unsigned bit pattern, at most 19 bytes.
impl ProtocolWrite for Var<i128> {
    open spec fn sencodable(v: i128) -> bool {
        true
    }

    open spec fn swire(v: i128) -> Seq<u8> {
        varint_bytes((v as u128) as u128)
    }

    fn write(self, out: &mut Vec<u8>) -> (r: Result<(), WriteError>) {
        encode_varint((self.0 as u128) as u128, out);
        Ok(())
    }

    fn size_hint() -> (n: usize) {
        1
    }
}

impl ProtocolRead for Var<i128> {
    open spec fn sread(d: Seq<u8>) -> Result<(i128, int), ReadError> {
        match sdec_varint(d, 19) {
            Ok((v, n)) => Ok(((v as i128), n as int)),
            Err(e) => Err(e),
        }
    }

    fn read(data: &[u8], pos: &mut usize) -> (r: Result<Self, ReadError>) {
        match decode_varint(data, pos, 19) {
            Ok(v) => Ok(Var(#[verifier::truncate] (v as i128))),
            Err(e) => Err(e),
        }
    }
}

/// Round trip of the variable-length codec at 128 bits: decoding the
/// encoding of any `i128` yields it back, and the encoding never exceeds
/// 19 bytes.
pub proof fn lemma_var_i128_roundtrip(v: i128, rest: Seq<u8>)
    ensures
        <Var<i128> as ProtocolWrite>::swire(v).len() <= 19,
        <Var<i128> as ProtocolRead>::sread(<Var<i128> as ProtocolWrite>::swire(v) + rest)
            == Ok::<(i128, int), ReadError>((
            v,
            <Var<i128> as ProtocolWrite>::swire(v).len() as int,
        )),
{
    lemma_varint_len(((v as u128) as u128), 128);
    lemma_varint_roundtrip(((v as u128) as u128), rest, 19);
    assert((((v as u128) as u128) as i128) == v) by (bit_vector);
}

} // verus!
