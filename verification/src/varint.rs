//! Continuation-bit variable-length integer encoding: seven payload bits and
//! one continuation bit per byte, little-endian group order.
use vstd::prelude::*;
use crate::err::ReadError;

verus! {

/// The byte sequence the continuation-bit scheme assigns to `v`: the seven
/// low bits of the working value, with the high bit set while more nonzero
/// bits remain after an unsigned shift by seven.  Zero encodes as one 0x00.
pub open spec fn varint_bytes(v: u128) -> Seq<u8>
    decreases v,
    via varint_bytes_dec
{
    if v < 128 {
        seq![v as u8]
    } else {
        seq![(v as u8) | 0x80u8] + varint_bytes(v >> 7)
    }
}

#[via_fn]
proof fn varint_bytes_dec(v: u128) {
    assert(v >= 128 ==> (v >> 7) < v) by (bit_vector);
}

/// Value and consumed byte count that decoding assigns to the head of `d`,
/// reading at most `max` bytes.  The accumulator wraps at 128 bits, as the
/// shift-and-or accumulation drops bits above the width.  A byte that still
/// signals continuation once `max` bytes were allowed is a malformed varint;
/// running out of input first is an underrun.
pub open spec fn sdec_varint(d: Seq<u8>, max: nat) -> Result<(u128, nat), ReadError>
    decreases max,
{
    if max == 0 {
        Err(ReadError::MalformedVarInt)
    } else if d.len() == 0 {
        Err(ReadError::IoError)
    } else if d[0] < 128 {
        Ok((d[0] as u128, 1))
    } else {
        match sdec_varint(d.skip(1), (max - 1) as nat) {
            Ok((v, n)) => Ok((((d[0] & 0x7fu8) as u128) | (v << 7), n + 1)),
            Err(e) => Err(e),
        }
    }
}

/// Appends the continuation-bit encoding of `v` to `out`.
pub fn encode_varint(v: u128, out: &mut Vec<u8>)
    ensures
        final(out)@ == old(out)@ + varint_bytes(v),
{
    let mut x: u128 = v;
    loop
        invariant_except_break
            old(out)@ + varint_bytes(v) == out@ + varint_bytes(x),
        ensures
            out@ == old(out)@ + varint_bytes(v),
        decreases x,
    {
        let ghost pre = out@;
        if x < 128 {
            out.push(x as u8);
            proof {
                assert(varint_bytes(x) == seq![x as u8]);
                assert(out@ =~= pre + varint_bytes(x));
            }
            break;
        } else {
            let b: u8 = (x as u8) | 0x80;
            out.push(b);
            proof {
                assert(x >= 128 ==> (x >> 7) < x) by (bit_vector);
                assert(varint_bytes(x) == seq![b] + varint_bytes(x >> 7));
                assert(out@ =~= pre + seq![b]);
                assert(out@ + varint_bytes(x >> 7) =~= pre + varint_bytes(x));
            }
            x = x >> 7;
        }
    }
}

/// Decodes a continuation-bit integer from `data` at `pos`, reading at most
/// `max` bytes, and advances `pos` past the bytes consumed.
pub fn decode_varint(data: &[u8], pos: &mut usize, max: usize) -> (r: Result<u128, ReadError>)
    requires
        *old(pos) <= data@.len(),
        1 <= max,
    ensures
        match sdec_varint(data@.skip(*old(pos) as int), max as nat) {
            Ok((v, n)) => r matches Ok(x) && x == v && *final(pos) == *old(pos) + n
                && *final(pos) <= data@.len(),
            Err(e) => r matches Err(e2) && e2 == e,
        },
{
    match decode_varint_rec(data, *pos, max) {
        Ok((v, end)) => {
            *pos = end;
            Ok(v)
        },
        Err(e) => Err(e),
    }
}

fn decode_varint_rec(data: &[u8], pos: usize, max: usize) -> (r: Result<(u128, usize), ReadError>)
    requires
        pos <= data@.len(),
        1 <= max,
    ensures
        match sdec_varint(data@.skip(pos as int), max as nat) {
            Ok((v, n)) => r matches Ok(p) && p.0 == v && p.1 == pos + n && pos + n
                <= data@.len(),
            Err(e) => r matches Err(e2) && e2 == e,
        },
    decreases max,
{
    let ghost d = data@.skip(pos as int);
    proof {
        assert(d.len() == data@.len() - pos);
    }
    if pos == data.len() {
        return Err(ReadError::IoError);
    }
    let b = data[pos];
    proof {
        assert(d[0] == data@[pos as int]);
    }
    if b < 128 {
        Ok((b as u128, pos + 1))
    } else if max == 1 {
        proof {
            assert(sdec_varint(d.skip(1), 0)
                == Err::<(u128, nat), ReadError>(ReadError::MalformedVarInt));
        }
        Err(ReadError::MalformedVarInt)
    } else {
        proof {
            assert(d.skip(1) =~= data@.skip(pos + 1));
        }
        match decode_varint_rec(data, pos + 1, max - 1) {
            Ok((v, end)) => Ok((((b & 0x7f) as u128) | (v << 7), end)),
            Err(e) => Err(e),
        }
    }
}

/// Decoding the encoding of `v`, with any trailing bytes after it, yields `v`
/// back and consumes exactly the encoding, whenever `max` bytes are allowed.
pub proof fn lemma_varint_roundtrip(v: u128, rest: Seq<u8>, max: nat)
    requires
        varint_bytes(v).len() <= max,
    ensures
        sdec_varint(varint_bytes(v) + rest, max)
            == Ok::<(u128, nat), ReadError>((v, varint_bytes(v).len() as nat)),
    decreases v,
{
    let e = varint_bytes(v);
    if v < 128 {
        assert(e == seq![v as u8]);
        assert((e + rest)[0] == v as u8);
        assert(v < 128 ==> (v as u8) < 128 && (v as u8) as u128 == v) by (bit_vector);
    } else {
        assert(((v as u8) | 0x80u8) >= 128) by (bit_vector);
        assert(v >= 128 ==> (v >> 7) < v) by (bit_vector);
        assert(e == seq![(v as u8) | 0x80u8] + varint_bytes(v >> 7));
        assert((e + rest)[0] == (v as u8) | 0x80u8);
        assert((e + rest).skip(1) =~= varint_bytes(v >> 7) + rest);
        lemma_varint_roundtrip(v >> 7, rest, (max - 1) as nat);
        assert(((((v as u8) | 0x80u8) & 0x7fu8) as u128) | ((v >> 7) << 7) == v)
            by (bit_vector);
    }
}

/// The encoding of `v` spans at most `(bits + 6) / 7` bytes whenever `v`
/// fits in `bits` bits; no value takes more than nineteen bytes.
pub proof fn lemma_varint_len(v: u128, bits: u32)
    requires
        7 <= bits,
        bits < 128 ==> v < (1u128 << (bits as u128)),
    ensures
        varint_bytes(v).len() <= (bits + 6) / 7,
    decreases v,
{
    if v < 128 {
        assert(varint_bytes(v).len() == 1);
    } else {
        assert(v >= 128 ==> (v >> 7) < v) by (bit_vector);
        assert(varint_bytes(v).len() == 1 + varint_bytes(v >> 7).len());
        if bits < 14 {
            assert((1u128 << 7u128) == 128) by (bit_vector);
            assert(bits < 14 && v < (1u128 << (bits as u128)) && 8 <= bits ==> v < 128 * 128)
                by (bit_vector);
            assert(v >= 128 && v < 128 * 128 ==> (v >> 7) < 128) by (bit_vector);
            assert(varint_bytes(v >> 7).len() == 1);
        } else if bits >= 134 {
            lemma_varint_len(v >> 7, 128);
        } else {
            assert(((bits - 7) + 6) / 7 == (bits + 6) / 7 - 1);
            assert(14 <= bits < 134 && (bits < 128 ==> v < (1u128 << (bits as u128)))
                ==> (v >> 7) < (1u128 << ((bits - 7) as u128))) by (bit_vector);
            lemma_varint_len(v >> 7, (bits - 7) as u32);
        }
    }
}

} // verus!
