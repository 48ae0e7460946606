//! Length-prefixed UTF-8 text fields: a variable-length byte count followed
//! by that many bytes of UTF-8, with no terminator.
use vstd::prelude::*;
use crate::err::{ReadError, WriteError};
use crate::netty::{ProtocolRead, ProtocolWrite};
use crate::varint::{varint_bytes, sdec_varint, encode_varint, decode_varint,
    lemma_varint_roundtrip, lemma_varint_len};

verus! {

/// A continuation byte of a multi-byte UTF-8 sequence.
pub open spec fn is_cont(b: u8) -> bool {
    0x80 <= b && b <= 0xBF
}

/// Strict UTF-8 validity: one-byte sequences below 0x80, two to four byte
/// sequences with their leading-byte ranges, no overlong forms, no
/// surrogates, nothing above U+10FFFF.
pub open spec fn is_utf8(s: Seq<u8>) -> bool
    decreases s.len(),
{
    if s.len() == 0 {
        true
    } else {
        let b0 = s[0];
        if b0 < 0x80 {
            is_utf8(s.skip(1))
        } else if 0xC2 <= b0 && b0 <= 0xDF {
            s.len() >= 2 && is_cont(s[1]) && is_utf8(s.skip(2))
        } else if b0 == 0xE0 {
            s.len() >= 3 && 0xA0 <= s[1] && s[1] <= 0xBF && is_cont(s[2]) && is_utf8(s.skip(3))
        } else if b0 == 0xED {
            s.len() >= 3 && 0x80 <= s[1] && s[1] <= 0x9F && is_cont(s[2]) && is_utf8(s.skip(3))
        } else if (0xE1 <= b0 && b0 <= 0xEF) {
            s.len() >= 3 && is_cont(s[1]) && is_cont(s[2]) && is_utf8(s.skip(3))
        } else if b0 == 0xF0 {
            s.len() >= 4 && 0x90 <= s[1] && s[1] <= 0xBF && is_cont(s[2]) && is_cont(s[3])
                && is_utf8(s.skip(4))
        } else if 0xF1 <= b0 && b0 <= 0xF3 {
            s.len() >= 4 && is_cont(s[1]) && is_cont(s[2]) && is_cont(s[3]) && is_utf8(s.skip(4))
        } else if b0 == 0xF4 {
            s.len() >= 4 && 0x80 <= s[1] && s[1] <= 0x8F && is_cont(s[2]) && is_cont(s[3])
                && is_utf8(s.skip(4))
        } else {
            false
        }
    }
}

/// Whether `data[start..end]` is valid UTF-8.
pub fn check_utf8_range(data: &[u8], start: usize, end: usize) -> (ok: bool)
    requires
        start <= end <= data@.len(),
    ensures
        ok == is_utf8(data@.subrange(start as int, end as int)),
{
    let ghost g = data@.subrange(start as int, end as int);
    proof {
        assert(g.skip(0) =~= g);
    }
    let mut i: usize = start;
    while i < end
        invariant
            start <= i <= end <= data@.len(),
            g == data@.subrange(start as int, end as int),
            is_utf8(g) == is_utf8(g.skip(i - start)),
        decreases end - i,
    {
        let ghost m = i - start;
        proof {
            assert(g.skip(m)[0] == data@[i as int]);
            assert(g.skip(m).len() == end - i);
        }
        let b0 = data[i];
        if b0 < 0x80 {
            proof {
                assert(g.skip(m).skip(1) =~= g.skip(m + 1));
            }
            i = i + 1;
        } else if 0xC2 <= b0 && b0 <= 0xDF {
            if end - i < 2 {
                return false;
            }
            proof {
                assert(g.skip(m)[1] == data@[i + 1]);
            }
            let b1 = data[i + 1];
            if !(0x80 <= b1 && b1 <= 0xBF) {
                return false;
            }
            proof {
                assert(g.skip(m).skip(2) =~= g.skip(m + 2));
            }
            i = i + 2;
        } else if 0xE0 <= b0 && b0 <= 0xEF {
            if end - i < 3 {
                return false;
            }
            proof {
                assert(g.skip(m)[1] == data@[i + 1]);
                assert(g.skip(m)[2] == data@[i + 2]);
            }
            let b1 = data[i + 1];
            let b2 = data[i + 2];
            let lo1: u8 = if b0 == 0xE0 {
                0xA0
            } else {
                0x80
            };
            let hi1: u8 = if b0 == 0xED {
                0x9F
            } else {
                0xBF
            };
            if !(lo1 <= b1 && b1 <= hi1) {
                return false;
            }
            if !(0x80 <= b2 && b2 <= 0xBF) {
                return false;
            }
            proof {
                assert(g.skip(m).skip(3) =~= g.skip(m + 3));
            }
            i = i + 3;
        } else if 0xF0 <= b0 && b0 <= 0xF4 {
            if end - i < 4 {
                return false;
            }
            proof {
                assert(g.skip(m)[1] == data@[i + 1]);
                assert(g.skip(m)[2] == data@[i + 2]);
                assert(g.skip(m)[3] == data@[i + 3]);
            }
            let b1 = data[i + 1];
            let b2 = data[i + 2];
            let b3 = data[i + 3];
            let lo1: u8 = if b0 == 0xF0 {
                0x90
            } else {
                0x80
            };
            let hi1: u8 = if b0 == 0xF4 {
                0x8F
            } else {
                0xBF
            };
            if !(lo1 <= b1 && b1 <= hi1) {
                return false;
            }
            if !(0x80 <= b2 && b2 <= 0xBF) {
                return false;
            }
            if !(0x80 <= b3 && b3 <= 0xBF) {
                return false;
            }
            proof {
                assert(g.skip(m).skip(4) =~= g.skip(m + 4));
            }
            i = i + 4;
        } else {
            return false;
        }
    }
    proof {
        assert(g.skip(i - start) =~= Seq::<u8>::empty());
    }
    true
}

/// Copies `data[start..end]` into an owned buffer.
pub fn copy_range(data: &[u8], start: usize, end: usize) -> (r: Vec<u8>)
    requires
        start <= end <= data@.len(),
    ensures
        r@ == data@.subrange(start as int, end as int),
{
    let mut v: Vec<u8> = Vec::new();
    let mut i: usize = start;
    while i < end
        invariant
            start <= i <= end <= data@.len(),
            v@ == data@.subrange(start as int, i as int),
        decreases end - i,
    {
        v.push(data[i]);
        proof {
            assert(v@ =~= data@.subrange(start as int, i + 1));
        }
        i = i + 1;
    }
    v
}

/// An owned text value: UTF-8 bytes, length-prefixed on the wire.  Decoded
/// values always satisfy `wf`; values built by hand should too.
#[derive(Debug, Clone, PartialEq, Eq)]
pub struct Utf8String {
    pub bytes: Vec<u8>,
}

impl Utf8String {
    /// Well-formedness: the held bytes are valid UTF-8.
    pub open spec fn wf(&self) -> bool {
        is_utf8(self.bytes@)
    }

    /// Wraps `bytes` as text if they are valid UTF-8.
    pub fn from_bytes(bytes: Vec<u8>) -> (r: Option<Utf8String>)
        ensures
            is_utf8(bytes@) ==> (r matches Some(s) && s.bytes@ == bytes@ && s.wf()),
            !is_utf8(bytes@) ==> r is None,
    {
        let n = bytes.len();
        if check_utf8_range(bytes.as_slice(), 0, n) {
            proof {
                assert(bytes@.subrange(0, n as int) =~= bytes@);
            }
            Some(Utf8String { bytes })
        } else {
            proof {
                assert(bytes@.subrange(0, n as int) =~= bytes@);
            }
            None
        }
    }
}

impl DeepView for Utf8String {
    type V = Seq<u8>;

    open spec fn deep_view(&self) -> Seq<u8> {
        self.bytes@
    }
}

impl ProtocolRead for Utf8String {
    open spec fn sread(d: Seq<u8>) -> Result<(Seq<u8>, int), ReadError> {
        match sdec_varint(d, 5) {
            Ok((lv, n)) => {
                let len = lv as i32;
                if len < 0 {
                    Err(ReadError::IoError)
                } else if n + len > d.len() {
                    Err(ReadError::IoError)
                } else if !is_utf8(d.subrange(n as int, n + len)) {
                    Err(ReadError::Utf8Error)
                } else {
                    Ok((d.subrange(n as int, n + len), n + len))
                }
            },
            Err(e) => Err(e),
        }
    }

    fn read(data: &[u8], pos: &mut usize) -> (r: Result<Self, ReadError>) {
        let ghost d = data@.skip(*old(pos) as int);
        match decode_varint(data, pos, 5) {
            Ok(lv) => {
                let len32 = #[verifier::truncate] (lv as i32);
                if len32 < 0 {
                    return Err(ReadError::IoError);
                }
                let len = len32 as usize;
                if data.len() - *pos < len {
                    return Err(ReadError::IoError);
                }
                proof {
                    assert(d.subrange(
                        (*pos - *old(pos)) as int,
                        *pos - *old(pos) + len,
                    ) =~= data@.subrange(*pos as int, *pos + len));
                }
                if !check_utf8_range(data, *pos, *pos + len) {
                    return Err(ReadError::Utf8Error);
                }
                let bytes = copy_range(data, *pos, *pos + len);
                *pos = *pos + len;
                Ok(Utf8String { bytes })
            },
            Err(e) => Err(e),
        }
    }
}

impl ProtocolWrite for Utf8String {
    open spec fn sencodable(v: Seq<u8>) -> bool {
        v.len() <= 0x7fffffff
    }

    open spec fn swire(v: Seq<u8>) -> Seq<u8> {
        varint_bytes(v.len() as u128) + v
    }

    fn write(self, out: &mut Vec<u8>) -> (r: Result<(), WriteError>)
        ensures
            !Self::sencodable(self.deep_view()) ==> final(out)@ == old(out)@,
    {
        let mut b = self.bytes;
        if b.len() > 0x7fffffff {
            return Err(WriteError::StringTooLong);
        }
        encode_varint(b.len() as u128, out);
        out.append(&mut b);
        proof {
            assert(out@ =~= old(out)@ + Self::swire(self.deep_view()));
        }
        Ok(())
    }

    fn size_hint() -> (n: usize) {
        1
    }
}

/// Round trip of the string codec: decoding the encoding of any valid UTF-8
/// byte string under the length limit yields it back, byte-identical, and
/// consumes exactly the encoding.
pub proof fn lemma_string_roundtrip(s: Seq<u8>, rest: Seq<u8>)
    requires
        is_utf8(s),
        s.len() <= 0x7fffffff,
    ensures
        <Utf8String as ProtocolRead>::sread(<Utf8String as ProtocolWrite>::swire(s) + rest)
            == Ok::<(Seq<u8>, int), ReadError>((
            s,
            <Utf8String as ProtocolWrite>::swire(s).len() as int,
        )),
{
    let lv = s.len() as u128;
    let vb = varint_bytes(lv);
    assert(lv < (1u128 << 31u128)) by (bit_vector)
        requires
            lv <= 0x7fffffff,
    ;
    lemma_varint_len(lv, 31);
    assert((31 + 6) / 7 == 5);
    lemma_varint_roundtrip(lv, s + rest, 5);
    assert((vb + s) + rest =~= vb + (s + rest));
    let d = vb + (s + rest);
    assert(sdec_varint(d, 5) == Ok::<(u128, nat), ReadError>((lv, vb.len() as nat)));
    assert(lv as i32 >= 0 && (lv as i32) as u128 == lv) by (bit_vector)
        requires
            lv <= 0x7fffffff,
    ;
    assert(d.subrange(vb.len() as int, vb.len() as int + s.len() as int) =~= s);
}

} // verus!
