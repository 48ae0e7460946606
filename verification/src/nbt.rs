//! The recursive tagged binary tree codec: a type tag byte followed by a
//! type-specific payload; compounds and lists are the recursive cases, with
//! big-endian fixed-width scalars and modified-UTF-8 strings at the leaves.
use vstd::prelude::*;
use crate::strings::copy_range;

verus! {

broadcast use vstd::std_specs::vec::group_vec_axioms;

/// Failure of a tagged-tree decode or encode; all are recoverable.
#[derive(Clone, Copy, Debug, PartialEq, Eq, Structural)]
pub enum NbtError {
    /// The input ended while more bytes were owed.
    Eof,
    /// An unrecognized tag byte.
    InvalidTag,
    /// A list with element tag End and a positive count.
    EndTagInList,
    /// Bytes that are not valid modified UTF-8 where a name or string is owed.
    Mutf8Error,
    /// A negative element count.
    NegativeCount,
    /// A sequence longer than its length field can carry.
    TooLong,
}

/// The tag byte values identifying the shape of a value.
#[derive(Clone, Copy, Debug, PartialEq, Eq, Structural)]
pub enum NbtTag {
    End,
    Byte,
    Short,
    Int,
    Long,
    Float,
    Double,
    ByteArray,
    String,
    List,
    Compound,
    IntArray,
    LongArray,
}

impl NbtTag {
    /// The byte carrying this tag on the wire: 0 for End through 12 for
    /// LongArray, in declaration order.
    pub open spec fn spec_byte(self) -> u8 {
        match self {
            NbtTag::End => 0,
            NbtTag::Byte => 1,
            NbtTag::Short => 2,
            NbtTag::Int => 3,
            NbtTag::Long => 4,
            NbtTag::Float => 5,
            NbtTag::Double => 6,
            NbtTag::ByteArray => 7,
            NbtTag::String => 8,
            NbtTag::List => 9,
            NbtTag::Compound => 10,
            NbtTag::IntArray => 11,
            NbtTag::LongArray => 12,
        }
    }

    /// The byte carrying this tag on the wire.
    pub fn byte(self) -> (b: u8)
        ensures
            b == self.spec_byte(),
    {
        match self {
            NbtTag::End => 0,
            NbtTag::Byte => 1,
            NbtTag::Short => 2,
            NbtTag::Int => 3,
            NbtTag::Long => 4,
            NbtTag::Float => 5,
            NbtTag::Double => 6,
            NbtTag::ByteArray => 7,
            NbtTag::String => 8,
            NbtTag::List => 9,
            NbtTag::Compound => 10,
            NbtTag::IntArray => 11,
            NbtTag::LongArray => 12,
        }
    }

    /// The tag a byte stands for, if any.
    pub open spec fn spec_from_byte(b: u8) -> Option<NbtTag> {
        if b == 0 {
            Some(NbtTag::End)
        } else if b == 1 {
            Some(NbtTag::Byte)
        } else if b == 2 {
            Some(NbtTag::Short)
        } else if b == 3 {
            Some(NbtTag::Int)
        } else if b == 4 {
            Some(NbtTag::Long)
        } else if b == 5 {
            Some(NbtTag::Float)
        } else if b == 6 {
            Some(NbtTag::Double)
        } else if b == 7 {
            Some(NbtTag::ByteArray)
        } else if b == 8 {
            Some(NbtTag::String)
        } else if b == 9 {
            Some(NbtTag::List)
        } else if b == 10 {
            Some(NbtTag::Compound)
        } else if b == 11 {
            Some(NbtTag::IntArray)
        } else if b == 12 {
            Some(NbtTag::LongArray)
        } else {
            None
        }
    }

    /// The tag a byte stands for; an unrecognized byte is the malformed-tag
    /// error.
    pub fn from_byte(b: u8) -> (r: Option<NbtTag>)
        ensures
            r == NbtTag::spec_from_byte(b),
    {
        match b {
            0 => Some(NbtTag::End),
            1 => Some(NbtTag::Byte),
            2 => Some(NbtTag::Short),
            3 => Some(NbtTag::Int),
            4 => Some(NbtTag::Long),
            5 => Some(NbtTag::Float),
            6 => Some(NbtTag::Double),
            7 => Some(NbtTag::ByteArray),
            8 => Some(NbtTag::String),
            9 => Some(NbtTag::List),
            10 => Some(NbtTag::Compound),
            11 => Some(NbtTag::IntArray),
            12 => Some(NbtTag::LongArray),
            _ => None,
        }
    }
}

/// A name and value pair of a compound.
pub struct Entry {
    /// The entry's name, as modified-UTF-8 bytes.
    pub name: Vec<u8>,
    /// The entry's value.
    pub value: Value,
}

/// An ordered sequence of named values, terminated on the wire by an End
/// tag; insertion order is wire-significant and duplicate names are kept.
pub struct Compound {
    pub entries: Vec<Entry>,
}

/// A tagged payload.  Floating-point values are held as their IEEE-754 bit
/// patterns, which is what the wire carries; strings as modified-UTF-8
/// bytes.
pub enum Value {
    Byte(i8),
    Short(i16),
    Int(i32),
    Long(i64),
    Float(u32),
    Double(u64),
    ByteArray(Vec<u8>),
    String(Vec<u8>),
    List(List),
    Compound(Compound),
    IntArray(Vec<i32>),
    LongArray(Vec<i64>),
}

/// A homogeneous sequence of untagged payloads, one concrete variant per
/// element type; `Invalid` stands for "tag End, count 0", the only legal
/// encoding of an empty list absent element-type information.
pub enum List {
    Byte(Vec<i8>),
    Short(Vec<i16>),
    Int(Vec<i32>),
    Long(Vec<i64>),
    Float(Vec<u32>),
    Double(Vec<u64>),
    ByteArray(Vec<Vec<u8>>),
    String(Vec<Vec<u8>>),
    List(Vec<List>),
    Compound(Vec<Compound>),
    IntArray(Vec<Vec<i32>>),
    LongArray(Vec<Vec<i64>>),
    Invalid,
}

/// Mathematical image of an entry.
pub struct EntryV {
    pub name: Seq<u8>,
    pub value: ValueV,
}

/// Mathematical image of a value.
pub enum ValueV {
    Byte(i8),
    Short(i16),
    Int(i32),
    Long(i64),
    Float(u32),
    Double(u64),
    ByteArray(Seq<u8>),
    String(Seq<u8>),
    List(ListV),
    Compound(Seq<EntryV>),
    IntArray(Seq<i32>),
    LongArray(Seq<i64>),
}

/// Mathematical image of a list: the element tag and the element payloads;
/// the invalid empty list is the End tag with no elements.
pub struct ListV {
    pub etag: NbtTag,
    pub elems: Seq<ValueV>,
}

/// Mathematical image of a value.
pub open spec fn view_value(v: Value) -> ValueV
    decreases v,
{
    match v {
        Value::Byte(b) => ValueV::Byte(b),
        Value::Short(x) => ValueV::Short(x),
        Value::Int(x) => ValueV::Int(x),
        Value::Long(x) => ValueV::Long(x),
        Value::Float(x) => ValueV::Float(x),
        Value::Double(x) => ValueV::Double(x),
        Value::ByteArray(b) => ValueV::ByteArray(b@),
        Value::String(s) => ValueV::String(s@),
        Value::List(l) => ValueV::List(view_list(l)),
        Value::Compound(c) => ValueV::Compound(view_compound(c)),
        Value::IntArray(a) => ValueV::IntArray(a@),
        Value::LongArray(a) => ValueV::LongArray(a@),
    }
}

/// Mathematical image of a compound: its entries in order.
pub open spec fn view_compound(c: Compound) -> Seq<EntryV>
    decreases c,
{
    Seq::new(
        c.entries@.len(),
        |i: int|
            if 0 <= i < c.entries@.len() {
                EntryV { name: c.entries@[i].name@, value: view_value(c.entries@[i].value) }
            } else {
                arbitrary()
            },
    )
}

/// Mathematical image of a list.
pub open spec fn view_list(l: List) -> ListV
    decreases l,
{
    match l {
        List::Byte(s) => ListV {
            etag: NbtTag::Byte,
            elems: Seq::new(s@.len(), |i: int| ValueV::Byte(s@[i])),
        },
        List::Short(s) => ListV {
            etag: NbtTag::Short,
            elems: Seq::new(s@.len(), |i: int| ValueV::Short(s@[i])),
        },
        List::Int(s) => ListV {
            etag: NbtTag::Int,
            elems: Seq::new(s@.len(), |i: int| ValueV::Int(s@[i])),
        },
        List::Long(s) => ListV {
            etag: NbtTag::Long,
            elems: Seq::new(s@.len(), |i: int| ValueV::Long(s@[i])),
        },
        List::Float(s) => ListV {
            etag: NbtTag::Float,
            elems: Seq::new(s@.len(), |i: int| ValueV::Float(s@[i])),
        },
        List::Double(s) => ListV {
            etag: NbtTag::Double,
            elems: Seq::new(s@.len(), |i: int| ValueV::Double(s@[i])),
        },
        List::ByteArray(s) => ListV {
            etag: NbtTag::ByteArray,
            elems: Seq::new(s@.len(), |i: int| ValueV::ByteArray(s@[i]@)),
        },
        List::String(s) => ListV {
            etag: NbtTag::String,
            elems: Seq::new(s@.len(), |i: int| ValueV::String(s@[i]@)),
        },
        List::List(s) => ListV {
            etag: NbtTag::List,
            elems: Seq::new(
                s@.len(),
                |i: int|
                    if 0 <= i < s@.len() {
                        ValueV::List(view_list(s@[i]))
                    } else {
                        arbitrary()
                    },
            ),
        },
        List::Compound(s) => ListV {
            etag: NbtTag::Compound,
            elems: Seq::new(
                s@.len(),
                |i: int|
                    if 0 <= i < s@.len() {
                        ValueV::Compound(view_compound(s@[i]))
                    } else {
                        arbitrary()
                    },
            ),
        },
        List::IntArray(s) => ListV {
            etag: NbtTag::IntArray,
            elems: Seq::new(s@.len(), |i: int| ValueV::IntArray(s@[i]@)),
        },
        List::LongArray(s) => ListV {
            etag: NbtTag::LongArray,
            elems: Seq::new(s@.len(), |i: int| ValueV::LongArray(s@[i]@)),
        },
        List::Invalid => ListV { etag: NbtTag::End, elems: Seq::empty() },
    }
}

/// The tag of a payload.
pub open spec fn elem_tag(w: ValueV) -> NbtTag {
    match w {
        ValueV::Byte(b) => NbtTag::Byte,
        ValueV::Short(x) => NbtTag::Short,
        ValueV::Int(x) => NbtTag::Int,
        ValueV::Long(x) => NbtTag::Long,
        ValueV::Float(x) => NbtTag::Float,
        ValueV::Double(x) => NbtTag::Double,
        ValueV::ByteArray(b) => NbtTag::ByteArray,
        ValueV::String(s) => NbtTag::String,
        ValueV::List(l) => NbtTag::List,
        ValueV::Compound(c) => NbtTag::Compound,
        ValueV::IntArray(a) => NbtTag::IntArray,
        ValueV::LongArray(a) => NbtTag::LongArray,
    }
}

/// Big-endian bytes of a 16-bit value.
pub open spec fn sbe16(v: u16) -> Seq<u8> {
    seq![(v >> 8) as u8, v as u8]
}

/// Big-endian bytes of a 32-bit value.
pub open spec fn sbe32(v: u32) -> Seq<u8> {
    seq![(v >> 24) as u8, (v >> 16) as u8, (v >> 8) as u8, v as u8]
}

/// Big-endian bytes of a 64-bit value.
pub open spec fn sbe64(v: u64) -> Seq<u8> {
    seq![
        (v >> 56) as u8,
        (v >> 48) as u8,
        (v >> 40) as u8,
        (v >> 32) as u8,
        (v >> 24) as u8,
        (v >> 16) as u8,
        (v >> 8) as u8,
        v as u8,
    ]
}

/// The 16-bit value read big-endian at the head of `d`.
pub open spec fn rdu16(d: Seq<u8>) -> u16 {
    ((d[0] as u16) << 8) | (d[1] as u16)
}

/// The 32-bit value read big-endian at the head of `d`.
pub open spec fn rdu32(d: Seq<u8>) -> u32 {
    ((d[0] as u32) << 24) | ((d[1] as u32) << 16) | ((d[2] as u32) << 8) | (d[3] as u32)
}

/// The 64-bit value read big-endian at the head of `d`.
pub open spec fn rdu64(d: Seq<u8>) -> u64 {
    ((d[0] as u64) << 56) | ((d[1] as u64) << 48) | ((d[2] as u64) << 40) | ((d[3] as u64) << 32)
        | ((d[4] as u64) << 24) | ((d[5] as u64) << 16) | ((d[6] as u64) << 8) | (d[7] as u64)
}

/// Byte image of one untagged payload.
pub open spec fn wire_payload(w: ValueV) -> Seq<u8>
    decreases w, 0int, 0int,
{
    match w {
        ValueV::Byte(b) => seq![b as u8],
        ValueV::Short(x) => sbe16(x as u16),
        ValueV::Int(x) => sbe32(x as u32),
        ValueV::Long(x) => sbe64(x as u64),
        ValueV::Float(x) => sbe32(x),
        ValueV::Double(x) => sbe64(x),
        ValueV::ByteArray(b) => sbe32(b.len() as u32) + b,
        ValueV::String(s) => sbe16(s.len() as u16) + s,
        ValueV::List(l) => seq![l.etag.spec_byte()] + sbe32(l.elems.len() as u32) + wire_payloads(
            l.elems,
            0,
        ),
        ValueV::Compound(es) => wire_entries(es, 0) + seq![0u8],
        ValueV::IntArray(a) => sbe32(a.len() as u32) + wire_ints(a),
        ValueV::LongArray(a) => sbe32(a.len() as u32) + wire_longs(a),
    }
}

/// Byte image of the payloads of `s` from index `i` on, in order.
pub open spec fn wire_payloads(s: Seq<ValueV>, i: int) -> Seq<u8>
    decreases s, 1int, s.len() - i,
{
    if i < 0 || i >= s.len() {
        Seq::empty()
    } else {
        wire_payload(s[i]) + wire_payloads(s, i + 1)
    }
}

/// Byte image of the entries of `es` from index `i` on: tag byte, name as
/// length-prefixed modified UTF-8, payload, in order.
pub open spec fn wire_entries(es: Seq<EntryV>, i: int) -> Seq<u8>
    decreases es, 1int, es.len() - i,
{
    if i < 0 || i >= es.len() {
        Seq::empty()
    } else {
        seq![elem_tag(es[i].value).spec_byte()] + sbe16(es[i].name.len() as u16) + es[i].name
            + wire_payload(es[i].value) + wire_entries(es, i + 1)
    }
}

/// Byte image of 32-bit array elements.
pub open spec fn wire_ints(a: Seq<i32>) -> Seq<u8>
    decreases a.len(),
{
    if a.len() == 0 {
        Seq::empty()
    } else {
        sbe32(a[0] as u32) + wire_ints(a.skip(1))
    }
}

/// Byte image of 64-bit array elements.
pub open spec fn wire_longs(a: Seq<i64>) -> Seq<u8>
    decreases a.len(),
{
    if a.len() == 0 {
        Seq::empty()
    } else {
        sbe64(a[0] as u64) + wire_longs(a.skip(1))
    }
}


/// Modified-UTF-8 validity: no zero byte, one-byte sequences below 0x80,
/// two and three byte sequences with standard continuation bytes, no
/// four-byte sequences; the null character travels as 0xC0 0x80 and
/// supplementary-plane characters as surrogate pairs of three-byte forms.
pub open spec fn is_mutf8(s: Seq<u8>) -> bool
    decreases s.len(),
{
    if s.len() == 0 {
        true
    } else {
        let b0 = s[0];
        if b0 == 0 {
            false
        } else if b0 < 0x80 {
            is_mutf8(s.skip(1))
        } else if 0xC0 <= b0 && b0 <= 0xDF {
            s.len() >= 2 && crate::strings::is_cont(s[1]) && is_mutf8(s.skip(2))
        } else if 0xE0 <= b0 && b0 <= 0xEF {
            s.len() >= 3 && crate::strings::is_cont(s[1]) && crate::strings::is_cont(s[2])
                && is_mutf8(s.skip(3))
        } else {
            false
        }
    }
}

/// Whether `data[start..end]` is valid modified UTF-8.
pub fn check_mutf8_range(data: &[u8], start: usize, end: usize) -> (ok: bool)
    requires
        start <= end <= data@.len(),
    ensures
        ok == is_mutf8(data@.subrange(start as int, end as int)),
{
    let ghost g = data@.subrange(start as int, end as int);
    proof {
        assert(g.skip(0) =~= g);
    }
    let mut i: usize = start;
    while i < end
        invariant
            start <= i <= end <= data@.len(),
            g == data@.subrange(start as int, end as int),
            is_mutf8(g) == is_mutf8(g.skip(i - start)),
        decreases end - i,
    {
        let ghost m = i - start;
        proof {
            assert(g.skip(m)[0] == data@[i as int]);
            assert(g.skip(m).len() == end - i);
        }
        let b0 = data[i];
        if b0 == 0 {
            return false;
        } else if b0 < 0x80 {
            proof {
                assert(g.skip(m).skip(1) =~= g.skip(m + 1));
            }
            i = i + 1;
        } else if 0xC0 <= b0 && b0 <= 0xDF {
            if end - i < 2 {
                return false;
            }
            proof {
                assert(g.skip(m)[1] == data@[i + 1]);
            }
            let b1 = data[i + 1];
            if !(0x80 <= b1 && b1 <= 0xBF) {
                return false;
            }
            proof {
                assert(g.skip(m).skip(2) =~= g.skip(m + 2));
            }
            i = i + 2;
        } else if 0xE0 <= b0 && b0 <= 0xEF {
            if end - i < 3 {
                return false;
            }
            proof {
                assert(g.skip(m)[1] == data@[i + 1]);
                assert(g.skip(m)[2] == data@[i + 2]);
            }
            let b1 = data[i + 1];
            let b2 = data[i + 2];
            if !(0x80 <= b1 && b1 <= 0xBF) {
                return false;
            }
            if !(0x80 <= b2 && b2 <= 0xBF) {
                return false;
            }
            proof {
                assert(g.skip(m).skip(3) =~= g.skip(m + 3));
            }
            i = i + 3;
        } else {
            return false;
        }
    }
    proof {
        assert(g.skip(i - start) =~= Seq::<u8>::empty());
    }
    true
}

/// Value and consumed byte count assigned to the head of `d`: one tag byte,
/// then the payload of that tag; an End tag carries no value here.
pub open spec fn sdec_value(d: Seq<u8>) -> Result<(ValueV, nat), NbtError>
    decreases d.len(), 3int, 0int,
{
    if d.len() < 1 {
        Err(NbtError::Eof)
    } else {
        match NbtTag::spec_from_byte(d[0]) {
            Some(t) => if t == NbtTag::End {
                Err(NbtError::InvalidTag)
            } else {
                match sdec_payload(t, d.skip(1)) {
                    Ok((w, n)) => Ok((w, (n + 1) as nat)),
                    Err(e) => Err(e),
                }
            },
            None => Err(NbtError::InvalidTag),
        }
    }
}

/// Payload of tag `t` at the head of `d` and the bytes it spans.
pub open spec fn sdec_payload(t: NbtTag, d: Seq<u8>) -> Result<(ValueV, nat), NbtError>
    decreases d.len(), 1int, 0int,
{
    match t {
        NbtTag::End => Err(NbtError::InvalidTag),
        NbtTag::Byte => if d.len() < 1 {
            Err(NbtError::Eof)
        } else {
            Ok((ValueV::Byte(d[0] as i8), 1))
        },
        NbtTag::Short => if d.len() < 2 {
            Err(NbtError::Eof)
        } else {
            Ok((ValueV::Short(rdu16(d) as i16), 2))
        },
        NbtTag::Int => if d.len() < 4 {
            Err(NbtError::Eof)
        } else {
            Ok((ValueV::Int(rdu32(d) as i32), 4))
        },
        NbtTag::Long => if d.len() < 8 {
            Err(NbtError::Eof)
        } else {
            Ok((ValueV::Long(rdu64(d) as i64), 8))
        },
        NbtTag::Float => if d.len() < 4 {
            Err(NbtError::Eof)
        } else {
            Ok((ValueV::Float(rdu32(d)), 4))
        },
        NbtTag::Double => if d.len() < 8 {
            Err(NbtError::Eof)
        } else {
            Ok((ValueV::Double(rdu64(d)), 8))
        },
        NbtTag::ByteArray => if d.len() < 4 {
            Err(NbtError::Eof)
        } else {
            let c = rdu32(d) as i32;
            if c < 0 {
                Err(NbtError::NegativeCount)
            } else if 4 + c > d.len() {
                Err(NbtError::Eof)
            } else {
                Ok((ValueV::ByteArray(d.subrange(4, 4 + c)), (4 + c) as nat))
            }
        },
        NbtTag::String => if d.len() < 2 {
            Err(NbtError::Eof)
        } else {
            let c = rdu16(d) as int;
            if 2 + c > d.len() {
                Err(NbtError::Eof)
            } else if !is_mutf8(d.subrange(2, 2 + c)) {
                Err(NbtError::Mutf8Error)
            } else {
                Ok((ValueV::String(d.subrange(2, 2 + c)), (2 + c) as nat))
            }
        },
        NbtTag::List => if d.len() < 5 {
            Err(NbtError::Eof)
        } else {
            match NbtTag::spec_from_byte(d[0]) {
                None => Err(NbtError::InvalidTag),
                Some(et) => {
                    let c = rdu32(d.subrange(1, 5)) as i32;
                    if et == NbtTag::End {
                        if c > 0 {
                            Err(NbtError::EndTagInList)
                        } else {
                            Ok(
                                (
                                    ValueV::List(
                                        ListV { etag: NbtTag::End, elems: Seq::empty() },
                                    ),
                                    5,
                                ),
                            )
                        }
                    } else if c < 0 {
                        Err(NbtError::NegativeCount)
                    } else {
                        match sdec_payloads(et, c as nat, d.skip(5)) {
                            Ok((es, n)) => Ok(
                                (ValueV::List(ListV { etag: et, elems: es }), (5 + n) as nat),
                            ),
                            Err(e) => Err(e),
                        }
                    }
                },
            }
        },
        NbtTag::Compound => match sdec_entries(d) {
            Ok((es, n)) => Ok((ValueV::Compound(es), n)),
            Err(e) => Err(e),
        },
        NbtTag::IntArray => if d.len() < 4 {
            Err(NbtError::Eof)
        } else {
            let c = rdu32(d) as i32;
            if c < 0 {
                Err(NbtError::NegativeCount)
            } else {
                match sdec_ints(c as nat, d.skip(4)) {
                    Ok((a, n)) => Ok((ValueV::IntArray(a), (4 + n) as nat)),
                    Err(e) => Err(e),
                }
            }
        },
        NbtTag::LongArray => if d.len() < 4 {
            Err(NbtError::Eof)
        } else {
            let c = rdu32(d) as i32;
            if c < 0 {
                Err(NbtError::NegativeCount)
            } else {
                match sdec_longs(c as nat, d.skip(4)) {
                    Ok((a, n)) => Ok((ValueV::LongArray(a), (4 + n) as nat)),
                    Err(e) => Err(e),
                }
            }
        },
    }
}

/// `count` big-endian 32-bit elements at the head of `d`.
pub open spec fn sdec_ints(count: nat, d: Seq<u8>) -> Result<(Seq<i32>, nat), NbtError>
    decreases d.len(), 0int, count,
{
    if count == 0 {
        Ok((Seq::empty(), 0))
    } else if d.len() < 4 {
        Err(NbtError::Eof)
    } else {
        match sdec_ints((count - 1) as nat, d.skip(4)) {
            Ok((a, n)) => Ok((seq![rdu32(d) as i32] + a, (4 + n) as nat)),
            Err(e) => Err(e),
        }
    }
}

/// `count` big-endian 64-bit elements at the head of `d`.
pub open spec fn sdec_longs(count: nat, d: Seq<u8>) -> Result<(Seq<i64>, nat), NbtError>
    decreases d.len(), 0int, count,
{
    if count == 0 {
        Ok((Seq::empty(), 0))
    } else if d.len() < 8 {
        Err(NbtError::Eof)
    } else {
        match sdec_longs((count - 1) as nat, d.skip(8)) {
            Ok((a, n)) => Ok((seq![rdu64(d) as i64] + a, (8 + n) as nat)),
            Err(e) => Err(e),
        }
    }
}

/// `count` untagged payloads of tag `t`, one after another at the head of
/// `d`, and the bytes they span; the first element error ends the read.
pub open spec fn sdec_payloads(t: NbtTag, count: nat, d: Seq<u8>) -> Result<
    (Seq<ValueV>, nat),
    NbtError,
>
    decreases d.len(), 3int, count,
{
    if count == 0 {
        Ok((Seq::empty(), 0))
    } else {
        match sdec_payload(t, d) {
            Ok((w, n)) => if n > d.len() {
                Err(NbtError::Eof)
            } else {
                match sdec_payloads(t, (count - 1) as nat, d.skip(n as int)) {
                    Ok((es, m)) => Ok((seq![w] + es, (n + m) as nat)),
                    Err(e) => Err(e),
                }
            },
            Err(e) => Err(e),
        }
    }
}

/// Entries at the head of `d` up to and including the terminating End
/// byte: tag, length-prefixed modified-UTF-8 name, payload, repeated.
pub open spec fn sdec_entries(d: Seq<u8>) -> Result<(Seq<EntryV>, nat), NbtError>
    decreases d.len(), 0int, 0int,
{
    if d.len() < 1 {
        Err(NbtError::Eof)
    } else if d[0] == 0 {
        Ok((Seq::empty(), 1))
    } else {
        match NbtTag::spec_from_byte(d[0]) {
            None => Err(NbtError::InvalidTag),
            Some(t) => if d.len() < 3 {
                Err(NbtError::Eof)
            } else {
                let nl = rdu16(d.subrange(1, 3)) as int;
                if 3 + nl > d.len() {
                    Err(NbtError::Eof)
                } else if !is_mutf8(d.subrange(3, 3 + nl)) {
                    Err(NbtError::Mutf8Error)
                } else {
                    match sdec_payload(t, d.skip(3 + nl)) {
                        Ok((w, n)) => if 3 + nl + n > d.len() {
                            Err(NbtError::Eof)
                        } else {
                            match sdec_entries(d.skip(3 + nl + n)) {
                                Ok((es, m)) => Ok(
                                    (
                                        seq![EntryV { name: d.subrange(3, 3 + nl), value: w }]
                                            + es,
                                        (3 + nl + n + m) as nat,
                                    ),
                                ),
                                Err(e) => Err(e),
                            }
                        },
                        Err(e) => Err(e),
                    }
                }
            },
        }
    }
}

/// Byte image of one tagged value: its tag byte, then its payload.
pub open spec fn wire_value(w: ValueV) -> Seq<u8> {
    seq![elem_tag(w).spec_byte()] + wire_payload(w)
}

} // verus!

verus! {

/// Whether the length fields of a payload can carry it: counts fit a
/// signed 32-bit field, string and name lengths an unsigned 16-bit field.
pub open spec fn encodable_payload(w: ValueV) -> bool
    decreases w, 1int, 0int,
{
    match w {
        ValueV::Byte(b) => true,
        ValueV::Short(x) => true,
        ValueV::Int(x) => true,
        ValueV::Long(x) => true,
        ValueV::Float(x) => true,
        ValueV::Double(x) => true,
        ValueV::ByteArray(b) => b.len() <= 0x7fffffff,
        ValueV::String(s) => s.len() <= 0xffff,
        ValueV::List(l) => l.elems.len() <= 0x7fffffff && encodable_payloads(l.elems, 0),
        ValueV::Compound(es) => encodable_entries(es, 0),
        ValueV::IntArray(a) => a.len() <= 0x7fffffff,
        ValueV::LongArray(a) => a.len() <= 0x7fffffff,
    }
}

/// Whether every payload of `s` from index `i` on can be carried.
pub open spec fn encodable_payloads(s: Seq<ValueV>, i: int) -> bool
    decreases s, 2int, s.len() - i,
{
    if i < 0 || i >= s.len() {
        true
    } else {
        encodable_payload(s[i]) && encodable_payloads(s, i + 1)
    }
}

/// Whether every entry of `es` from index `i` on can be carried.
pub open spec fn encodable_entries(es: Seq<EntryV>, i: int) -> bool
    decreases es, 2int, es.len() - i,
{
    if i < 0 || i >= es.len() {
        true
    } else {
        es[i].name.len() <= 0xffff && encodable_payload(es[i].value) && encodable_entries(
            es,
            i + 1,
        )
    }
}

/// Appends the bytes of `src` to `out`.
fn push_bytes(src: &Vec<u8>, out: &mut Vec<u8>)
    ensures
        final(out)@ == old(out)@ + src@,
{
    let mut i: usize = 0;
    while i < src.len()
        invariant
            i <= src@.len(),
            out@ == old(out)@ + src@.take(i as int),
        decreases src@.len() - i,
    {
        out.push(src[i]);
        proof {
            assert(out@ =~= old(out)@ + src@.take(i + 1));
        }
        i = i + 1;
    }
    proof {
        assert(src@.take(src@.len() as int) =~= src@);
    }
}

/// Appends the big-endian bytes of a 16-bit value.
fn wbe16(v: u16, out: &mut Vec<u8>)
    ensures
        final(out)@ == old(out)@ + sbe16(v),
{
    out.push((v >> 8) as u8);
    out.push(v as u8);
    proof {
        assert(out@ =~= old(out)@ + sbe16(v));
    }
}

/// Appends the big-endian bytes of a 32-bit value.
fn wbe32(v: u32, out: &mut Vec<u8>)
    ensures
        final(out)@ == old(out)@ + sbe32(v),
{
    out.push((v >> 24) as u8);
    out.push((v >> 16) as u8);
    out.push((v >> 8) as u8);
    out.push(v as u8);
    proof {
        assert(out@ =~= old(out)@ + sbe32(v));
    }
}

/// Appends the big-endian bytes of a 64-bit value.
fn wbe64(v: u64, out: &mut Vec<u8>)
    ensures
        final(out)@ == old(out)@ + sbe64(v),
{
    out.push((v >> 56) as u8);
    out.push((v >> 48) as u8);
    out.push((v >> 40) as u8);
    out.push((v >> 32) as u8);
    out.push((v >> 24) as u8);
    out.push((v >> 16) as u8);
    out.push((v >> 8) as u8);
    out.push(v as u8);
    proof {
        assert(out@ =~= old(out)@ + sbe64(v));
    }
}

/// Appends a count-prefixed byte array payload, or reports that the count
/// field cannot carry it.
fn encode_byte_array(b: &Vec<u8>, out: &mut Vec<u8>) -> (r: Result<(), NbtError>)
    ensures
        b@.len() <= 0x7fffffff ==> (r matches Ok(u) && final(out)@ == old(out)@ + sbe32(
            b@.len() as u32,
        ) + b@),
        b@.len() > 0x7fffffff ==> (r matches Err(e) && e == NbtError::TooLong),
{
    if b.len() > 0x7fffffff {
        return Err(NbtError::TooLong);
    }
    wbe32(b.len() as u32, out);
    push_bytes(b, out);
    Ok(())
}

/// Appends a length-prefixed string payload, or reports that the length
/// field cannot carry it.
fn encode_string(s: &Vec<u8>, out: &mut Vec<u8>) -> (r: Result<(), NbtError>)
    ensures
        s@.len() <= 0xffff ==> (r matches Ok(u) && final(out)@ == old(out)@ + sbe16(
            s@.len() as u16,
        ) + s@),
        s@.len() > 0xffff ==> (r matches Err(e) && e == NbtError::TooLong),
{
    if s.len() > 0xffff {
        return Err(NbtError::TooLong);
    }
    wbe16(s.len() as u16, out);
    push_bytes(s, out);
    Ok(())
}

/// Appends a count-prefixed sequence of big-endian 32-bit elements, or
/// reports that the count field cannot carry it.
fn encode_int_array(a: &Vec<i32>, out: &mut Vec<u8>) -> (r: Result<(), NbtError>)
    ensures
        a@.len() <= 0x7fffffff ==> (r matches Ok(u) && final(out)@ == old(out)@ + sbe32(
            a@.len() as u32,
        ) + wire_ints(a@)),
        a@.len() > 0x7fffffff ==> (r matches Err(e) && e == NbtError::TooLong),
{
    if a.len() > 0x7fffffff {
        return Err(NbtError::TooLong);
    }
    wbe32(a.len() as u32, out);
    let ghost base = out@;
    proof {
        assert(a@.skip(0) =~= a@);
    }
    let mut i: usize = 0;
    while i < a.len()
        invariant
            i <= a@.len(),
            base + wire_ints(a@) == out@ + wire_ints(a@.skip(i as int)),
        decreases a@.len() - i,
    {
        proof {
            assert(a@.skip(i as int)[0] == a@[i as int]);
            assert(a@.skip(i as int).skip(1) =~= a@.skip(i + 1));
        }
        wbe32(a[i] as u32, out);
        proof {
            assert(out@ + wire_ints(a@.skip(i + 1)) =~= out@.subrange(0, out@.len() - 4)
                + wire_ints(a@.skip(i as int)));
        }
        i = i + 1;
    }
    proof {
        assert(wire_ints(a@.skip(a@.len() as int)) =~= Seq::<u8>::empty());
        assert(out@ =~= out@ + wire_ints(a@.skip(a@.len() as int)));
    }
    Ok(())
}

/// Appends a count-prefixed sequence of big-endian 64-bit elements, or
/// reports that the count field cannot carry it.
fn encode_long_array(a: &Vec<i64>, out: &mut Vec<u8>) -> (r: Result<(), NbtError>)
    ensures
        a@.len() <= 0x7fffffff ==> (r matches Ok(u) && final(out)@ == old(out)@ + sbe32(
            a@.len() as u32,
        ) + wire_longs(a@)),
        a@.len() > 0x7fffffff ==> (r matches Err(e) && e == NbtError::TooLong),
{
    if a.len() > 0x7fffffff {
        return Err(NbtError::TooLong);
    }
    wbe32(a.len() as u32, out);
    let ghost base = out@;
    proof {
        assert(a@.skip(0) =~= a@);
    }
    let mut i: usize = 0;
    while i < a.len()
        invariant
            i <= a@.len(),
            base + wire_longs(a@) == out@ + wire_longs(a@.skip(i as int)),
        decreases a@.len() - i,
    {
        proof {
            assert(a@.skip(i as int)[0] == a@[i as int]);
            assert(a@.skip(i as int).skip(1) =~= a@.skip(i + 1));
        }
        wbe64(a[i] as u64, out);
        proof {
            assert(out@ + wire_longs(a@.skip(i + 1)) =~= out@.subrange(0, out@.len() - 8)
                + wire_longs(a@.skip(i as int)));
        }
        i = i + 1;
    }
    proof {
        assert(wire_longs(a@.skip(a@.len() as int)) =~= Seq::<u8>::empty());
        assert(out@ =~= out@ + wire_longs(a@.skip(a@.len() as int)));
    }
    Ok(())
}

} // verus!

verus! {

/// `encodable_payloads` from `i` on is exactly elementwise encodability.
pub proof fn lemma_encodable_payloads_iff(m: Seq<ValueV>, i: int)
    requires
        0 <= i,
    ensures
        encodable_payloads(m, i) <==> (forall|j: int|
            i <= j < m.len() ==> encodable_payload(#[trigger] m[j])),
    decreases m.len() - i,
{
    if i < m.len() {
        lemma_encodable_payloads_iff(m, i + 1);
    }
}

/// `encodable_entries` from `i` on is exactly elementwise encodability.
pub proof fn lemma_encodable_entries_iff(es: Seq<EntryV>, i: int)
    requires
        0 <= i,
    ensures
        encodable_entries(es, i) <==> (forall|j: int|
            i <= j < es.len() ==> (#[trigger] es[j]).name.len() <= 0xffff && encodable_payload(
                es[j].value,
            )),
    decreases es.len() - i,
{
    if i < es.len() {
        lemma_encodable_entries_iff(es, i + 1);
    }
}

/// The tag of a value.
pub fn tag_of_value(v: &Value) -> (t: NbtTag)
    ensures
        t == elem_tag(view_value(*v)),
{
    match v {
        Value::Byte(b) => NbtTag::Byte,
        Value::Short(x) => NbtTag::Short,
        Value::Int(x) => NbtTag::Int,
        Value::Long(x) => NbtTag::Long,
        Value::Float(x) => NbtTag::Float,
        Value::Double(x) => NbtTag::Double,
        Value::ByteArray(b) => NbtTag::ByteArray,
        Value::String(s) => NbtTag::String,
        Value::List(l) => NbtTag::List,
        Value::Compound(c) => NbtTag::Compound,
        Value::IntArray(a) => NbtTag::IntArray,
        Value::LongArray(a) => NbtTag::LongArray,
    }
}

/// Appends the untagged payload of a list: element tag, count, then each
/// element's payload only, or the invalid empty form.
fn encode_list(l: &List, out: &mut Vec<u8>) -> (r: Result<(), NbtError>)
    ensures
        encodable_payload(ValueV::List(view_list(*l))) ==> (r matches Ok(u) && final(out)@ == old(
            out,
        )@ + wire_payload(ValueV::List(view_list(*l)))),
        !encodable_payload(ValueV::List(view_list(*l))) ==> (r matches Err(e) && e
            == NbtError::TooLong),
    decreases *l, 0int,
{
    let ghost lv = view_list(*l);
    let ghost m = lv.elems;
    let ghost wire_whole = wire_payload(ValueV::List(lv));
    match l {
        List::Byte(s) => {
            if s.len() > 0x7fffffff {
                return Err(NbtError::TooLong);
            }
            out.push(1u8);
            wbe32(s.len() as u32, out);
            proof {
                assert(wire_payloads(m, m.len() as int) =~= Seq::<u8>::empty());
            }
            let mut i: usize = 0;
            while i < s.len()
                invariant
                    i <= s@.len(),
                    *l == List::Byte(*s),
                    m == view_list(*l).elems,
                    m.len() == s@.len(),
                    old(out)@ + wire_whole == out@ + wire_payloads(m, i as int),
                    wire_whole == seq![1u8] + sbe32(s@.len() as u32) + wire_payloads(m, 0),
                decreases s@.len() - i,
            {
                let ghost pre = out@;
                proof {
                    assert(m[i as int] == ValueV::Byte(s@[i as int]));
                }
                proof {
                    assert(wire_payload(m[i as int]) =~= seq![s@[i as int] as u8]);
                }
                out.push(s[i] as u8);
                proof {
                    assert(wire_payloads(m, i as int) == wire_payload(m[i as int])
                        + wire_payloads(m, i + 1));
                    assert(out@ + wire_payloads(m, i + 1) =~= pre + wire_payloads(m, i as int));
                }
                i = i + 1;
            }
            proof {
                assert(out@ =~= old(out)@ + wire_whole);
                lemma_encodable_payloads_iff(m, 0);
                assert(forall|j: int| 0 <= j < m.len() ==> encodable_payload(#[trigger] m[j]))
                    by {
                    assert(forall|j: int|
                        0 <= j < m.len() ==> m[j] == ValueV::Byte(s@[j]));
                }
            }
            Ok(())
        },
        List::Short(s) => {
            if s.len() > 0x7fffffff {
                return Err(NbtError::TooLong);
            }
            out.push(2u8);
            wbe32(s.len() as u32, out);
            proof {
                assert(wire_payloads(m, m.len() as int) =~= Seq::<u8>::empty());
            }
            let mut i: usize = 0;
            while i < s.len()
                invariant
                    i <= s@.len(),
                    *l == List::Short(*s),
                    m == view_list(*l).elems,
                    m.len() == s@.len(),
                    old(out)@ + wire_whole == out@ + wire_payloads(m, i as int),
                    wire_whole == seq![2u8] + sbe32(s@.len() as u32) + wire_payloads(m, 0),
                decreases s@.len() - i,
            {
                let ghost pre = out@;
                proof {
                    assert(m[i as int] == ValueV::Short(s@[i as int]));
                }
                wbe16(s[i] as u16, out);
                proof {
                    assert(wire_payloads(m, i as int) == wire_payload(m[i as int])
                        + wire_payloads(m, i + 1));
                    assert(out@ + wire_payloads(m, i + 1) =~= pre + wire_payloads(m, i as int));
                }
                i = i + 1;
            }
            proof {
                assert(out@ =~= old(out)@ + wire_whole);
                lemma_encodable_payloads_iff(m, 0);
                assert(forall|j: int| 0 <= j < m.len() ==> encodable_payload(#[trigger] m[j]))
                    by {
                    assert(forall|j: int|
                        0 <= j < m.len() ==> m[j] == ValueV::Short(s@[j]));
                }
            }
            Ok(())
        },
        List::Int(s) => {
            if s.len() > 0x7fffffff {
                return Err(NbtError::TooLong);
            }
            out.push(3u8);
            wbe32(s.len() as u32, out);
            proof {
                assert(wire_payloads(m, m.len() as int) =~= Seq::<u8>::empty());
            }
            let mut i: usize = 0;
            while i < s.len()
                invariant
                    i <= s@.len(),
                    *l == List::Int(*s),
                    m == view_list(*l).elems,
                    m.len() == s@.len(),
                    old(out)@ + wire_whole == out@ + wire_payloads(m, i as int),
                    wire_whole == seq![3u8] + sbe32(s@.len() as u32) + wire_payloads(m, 0),
                decreases s@.len() - i,
            {
                let ghost pre = out@;
                proof {
                    assert(m[i as int] == ValueV::Int(s@[i as int]));
                }
                wbe32(s[i] as u32, out);
                proof {
                    assert(wire_payloads(m, i as int) == wire_payload(m[i as int])
                        + wire_payloads(m, i + 1));
                    assert(out@ + wire_payloads(m, i + 1) =~= pre + wire_payloads(m, i as int));
                }
                i = i + 1;
            }
            proof {
                assert(out@ =~= old(out)@ + wire_whole);
                lemma_encodable_payloads_iff(m, 0);
                assert(forall|j: int| 0 <= j < m.len() ==> encodable_payload(#[trigger] m[j]))
                    by {
                    assert(forall|j: int|
                        0 <= j < m.len() ==> m[j] == ValueV::Int(s@[j]));
                }
            }
            Ok(())
        },
        List::Long(s) => {
            if s.len() > 0x7fffffff {
                return Err(NbtError::TooLong);
            }
            out.push(4u8);
            wbe32(s.len() as u32, out);
            proof {
                assert(wire_payloads(m, m.len() as int) =~= Seq::<u8>::empty());
            }
            let mut i: usize = 0;
            while i < s.len()
                invariant
                    i <= s@.len(),
                    *l == List::Long(*s),
                    m == view_list(*l).elems,
                    m.len() == s@.len(),
                    old(out)@ + wire_whole == out@ + wire_payloads(m, i as int),
                    wire_whole == seq![4u8] + sbe32(s@.len() as u32) + wire_payloads(m, 0),
                decreases s@.len() - i,
            {
                let ghost pre = out@;
                proof {
                    assert(m[i as int] == ValueV::Long(s@[i as int]));
                }
                wbe64(s[i] as u64, out);
                proof {
                    assert(wire_payloads(m, i as int) == wire_payload(m[i as int])
                        + wire_payloads(m, i + 1));
                    assert(out@ + wire_payloads(m, i + 1) =~= pre + wire_payloads(m, i as int));
                }
                i = i + 1;
            }
            proof {
                assert(out@ =~= old(out)@ + wire_whole);
                lemma_encodable_payloads_iff(m, 0);
                assert(forall|j: int| 0 <= j < m.len() ==> encodable_payload(#[trigger] m[j]))
                    by {
                    assert(forall|j: int|
                        0 <= j < m.len() ==> m[j] == ValueV::Long(s@[j]));
                }
            }
            Ok(())
        },
        List::Float(s) => {
            if s.len() > 0x7fffffff {
                return Err(NbtError::TooLong);
            }
            out.push(5u8);
            wbe32(s.len() as u32, out);
            proof {
                assert(wire_payloads(m, m.len() as int) =~= Seq::<u8>::empty());
            }
            let mut i: usize = 0;
            while i < s.len()
                invariant
                    i <= s@.len(),
                    *l == List::Float(*s),
                    m == view_list(*l).elems,
                    m.len() == s@.len(),
                    old(out)@ + wire_whole == out@ + wire_payloads(m, i as int),
                    wire_whole == seq![5u8] + sbe32(s@.len() as u32) + wire_payloads(m, 0),
                decreases s@.len() - i,
            {
                let ghost pre = out@;
                proof {
                    assert(m[i as int] == ValueV::Float(s@[i as int]));
                }
                wbe32(s[i], out);
                proof {
                    assert(wire_payloads(m, i as int) == wire_payload(m[i as int])
                        + wire_payloads(m, i + 1));
                    assert(out@ + wire_payloads(m, i + 1) =~= pre + wire_payloads(m, i as int));
                }
                i = i + 1;
            }
            proof {
                assert(out@ =~= old(out)@ + wire_whole);
                lemma_encodable_payloads_iff(m, 0);
                assert(forall|j: int| 0 <= j < m.len() ==> encodable_payload(#[trigger] m[j]))
                    by {
                    assert(forall|j: int|
                        0 <= j < m.len() ==> m[j] == ValueV::Float(s@[j]));
                }
            }
            Ok(())
        },
        List::Double(s) => {
            if s.len() > 0x7fffffff {
                return Err(NbtError::TooLong);
            }
            out.push(6u8);
            wbe32(s.len() as u32, out);
            proof {
                assert(wire_payloads(m, m.len() as int) =~= Seq::<u8>::empty());
            }
            let mut i: usize = 0;
            while i < s.len()
                invariant
                    i <= s@.len(),
                    *l == List::Double(*s),
                    m == view_list(*l).elems,
                    m.len() == s@.len(),
                    old(out)@ + wire_whole == out@ + wire_payloads(m, i as int),
                    wire_whole == seq![6u8] + sbe32(s@.len() as u32) + wire_payloads(m, 0),
                decreases s@.len() - i,
            {
                let ghost pre = out@;
                proof {
                    assert(m[i as int] == ValueV::Double(s@[i as int]));
                }
                wbe64(s[i], out);
                proof {
                    assert(wire_payloads(m, i as int) == wire_payload(m[i as int])
                        + wire_payloads(m, i + 1));
                    assert(out@ + wire_payloads(m, i + 1) =~= pre + wire_payloads(m, i as int));
                }
                i = i + 1;
            }
            proof {
                assert(out@ =~= old(out)@ + wire_whole);
                lemma_encodable_payloads_iff(m, 0);
                assert(forall|j: int| 0 <= j < m.len() ==> encodable_payload(#[trigger] m[j]))
                    by {
                    assert(forall|j: int|
                        0 <= j < m.len() ==> m[j] == ValueV::Double(s@[j]));
                }
            }
            Ok(())
        },
        List::ByteArray(s) => {
            if s.len() > 0x7fffffff {
                return Err(NbtError::TooLong);
            }
            out.push(7u8);
            wbe32(s.len() as u32, out);
            proof {
                assert(wire_payloads(m, m.len() as int) =~= Seq::<u8>::empty());
            }
            let mut i: usize = 0;
            while i < s.len()
                invariant
                    i <= s@.len(),
                    *l == List::ByteArray(*s),
                    m == view_list(*l).elems,
                    m.len() == s@.len(),
                    old(out)@ + wire_whole == out@ + wire_payloads(m, i as int),
                    wire_whole == seq![7u8] + sbe32(s@.len() as u32) + wire_payloads(m, 0),
                    forall|j: int| 0 <= j < i ==> encodable_payload(#[trigger] m[j]),
                decreases s@.len() - i,
            {
                let ghost pre = out@;
                proof {
                    assert(m[i as int] == ValueV::ByteArray(s@[i as int]@));
                }
                match encode_byte_array(&s[i], out) {
                    Ok(u) => {
                        proof {
                            assert(wire_payloads(m, i as int) == wire_payload(m[i as int])
                                + wire_payloads(m, i + 1));
                            assert(out@ + wire_payloads(m, i + 1) =~= pre + wire_payloads(
                                m,
                                i as int,
                            ));
                        }
                    },
                    Err(e) => {
                        proof {
                            assert(!encodable_payload(m[i as int]));
                            lemma_encodable_payloads_iff(m, 0);
                        }
                        return Err(e);
                    },
                }
                i = i + 1;
            }
            proof {
                assert(out@ =~= old(out)@ + wire_whole);
                lemma_encodable_payloads_iff(m, 0);
            }
            Ok(())
        },
        List::String(s) => {
            if s.len() > 0x7fffffff {
                return Err(NbtError::TooLong);
            }
            out.push(8u8);
            wbe32(s.len() as u32, out);
            proof {
                assert(wire_payloads(m, m.len() as int) =~= Seq::<u8>::empty());
            }
            let mut i: usize = 0;
            while i < s.len()
                invariant
                    i <= s@.len(),
                    *l == List::String(*s),
                    m == view_list(*l).elems,
                    m.len() == s@.len(),
                    old(out)@ + wire_whole == out@ + wire_payloads(m, i as int),
                    wire_whole == seq![8u8] + sbe32(s@.len() as u32) + wire_payloads(m, 0),
                    forall|j: int| 0 <= j < i ==> encodable_payload(#[trigger] m[j]),
                decreases s@.len() - i,
            {
                let ghost pre = out@;
                proof {
                    assert(m[i as int] == ValueV::String(s@[i as int]@));
                }
                match encode_string(&s[i], out) {
                    Ok(u) => {
                        proof {
                            assert(wire_payloads(m, i as int) == wire_payload(m[i as int])
                                + wire_payloads(m, i + 1));
                            assert(out@ + wire_payloads(m, i + 1) =~= pre + wire_payloads(
                                m,
                                i as int,
                            ));
                        }
                    },
                    Err(e) => {
                        proof {
                            assert(!encodable_payload(m[i as int]));
                            lemma_encodable_payloads_iff(m, 0);
                        }
                        return Err(e);
                    },
                }
                i = i + 1;
            }
            proof {
                assert(out@ =~= old(out)@ + wire_whole);
                lemma_encodable_payloads_iff(m, 0);
            }
            Ok(())
        },
        List::IntArray(s) => {
            if s.len() > 0x7fffffff {
                return Err(NbtError::TooLong);
            }
            out.push(11u8);
            wbe32(s.len() as u32, out);
            proof {
                assert(wire_payloads(m, m.len() as int) =~= Seq::<u8>::empty());
            }
            let mut i: usize = 0;
            while i < s.len()
                invariant
                    i <= s@.len(),
                    *l == List::IntArray(*s),
                    m == view_list(*l).elems,
                    m.len() == s@.len(),
                    old(out)@ + wire_whole == out@ + wire_payloads(m, i as int),
                    wire_whole == seq![11u8] + sbe32(s@.len() as u32) + wire_payloads(m, 0),
                    forall|j: int| 0 <= j < i ==> encodable_payload(#[trigger] m[j]),
                decreases s@.len() - i,
            {
                let ghost pre = out@;
                proof {
                    assert(m[i as int] == ValueV::IntArray(s@[i as int]@));
                }
                match encode_int_array(&s[i], out) {
                    Ok(u) => {
                        proof {
                            assert(wire_payloads(m, i as int) == wire_payload(m[i as int])
                                + wire_payloads(m, i + 1));
                            assert(out@ + wire_payloads(m, i + 1) =~= pre + wire_payloads(
                                m,
                                i as int,
                            ));
                        }
                    },
                    Err(e) => {
                        proof {
                            assert(!encodable_payload(m[i as int]));
                            lemma_encodable_payloads_iff(m, 0);
                        }
                        return Err(e);
                    },
                }
                i = i + 1;
            }
            proof {
                assert(out@ =~= old(out)@ + wire_whole);
                lemma_encodable_payloads_iff(m, 0);
            }
            Ok(())
        },
        List::LongArray(s) => {
            if s.len() > 0x7fffffff {
                return Err(NbtError::TooLong);
            }
            out.push(12u8);
            wbe32(s.len() as u32, out);
            proof {
                assert(wire_payloads(m, m.len() as int) =~= Seq::<u8>::empty());
            }
            let mut i: usize = 0;
            while i < s.len()
                invariant
                    i <= s@.len(),
                    *l == List::LongArray(*s),
                    m == view_list(*l).elems,
                    m.len() == s@.len(),
                    old(out)@ + wire_whole == out@ + wire_payloads(m, i as int),
                    wire_whole == seq![12u8] + sbe32(s@.len() as u32) + wire_payloads(m, 0),
                    forall|j: int| 0 <= j < i ==> encodable_payload(#[trigger] m[j]),
                decreases s@.len() - i,
            {
                let ghost pre = out@;
                proof {
                    assert(m[i as int] == ValueV::LongArray(s@[i as int]@));
                }
                match encode_long_array(&s[i], out) {
                    Ok(u) => {
                        proof {
                            assert(wire_payloads(m, i as int) == wire_payload(m[i as int])
                                + wire_payloads(m, i + 1));
                            assert(out@ + wire_payloads(m, i + 1) =~= pre + wire_payloads(
                                m,
                                i as int,
                            ));
                        }
                    },
                    Err(e) => {
                        proof {
                            assert(!encodable_payload(m[i as int]));
                            lemma_encodable_payloads_iff(m, 0);
                        }
                        return Err(e);
                    },
                }
                i = i + 1;
            }
            proof {
                assert(out@ =~= old(out)@ + wire_whole);
                lemma_encodable_payloads_iff(m, 0);
            }
            Ok(())
        },
        List::List(s) => {
            if s.len() > 0x7fffffff {
                return Err(NbtError::TooLong);
            }
            out.push(9u8);
            wbe32(s.len() as u32, out);
            proof {
                assert(wire_payloads(m, m.len() as int) =~= Seq::<u8>::empty());
            }
            let mut i: usize = 0;
            while i < s.len()
                invariant
                    i <= s@.len(),
                    *l == List::List(*s),
                    m == view_list(*l).elems,
                    m.len() == s@.len(),
                    old(out)@ + wire_whole == out@ + wire_payloads(m, i as int),
                    wire_whole == seq![9u8] + sbe32(s@.len() as u32) + wire_payloads(m, 0),
                    forall|j: int| 0 <= j < i ==> encodable_payload(#[trigger] m[j]),
                decreases s@.len() - i,
            {
                let ghost pre = out@;
                proof {
                    assert(m[i as int] == ValueV::List(view_list(s@[i as int])));
                }
                match encode_list(&s[i], out) {
                    Ok(u) => {
                        proof {
                            assert(wire_payloads(m, i as int) == wire_payload(m[i as int])
                                + wire_payloads(m, i + 1));
                            assert(out@ + wire_payloads(m, i + 1) =~= pre + wire_payloads(
                                m,
                                i as int,
                            ));
                        }
                    },
                    Err(e) => {
                        proof {
                            assert(!encodable_payload(m[i as int]));
                            lemma_encodable_payloads_iff(m, 0);
                        }
                        return Err(e);
                    },
                }
                i = i + 1;
            }
            proof {
                assert(out@ =~= old(out)@ + wire_whole);
                lemma_encodable_payloads_iff(m, 0);
            }
            Ok(())
        },
        List::Compound(s) => {
            if s.len() > 0x7fffffff {
                return Err(NbtError::TooLong);
            }
            out.push(10u8);
            wbe32(s.len() as u32, out);
            proof {
                assert(wire_payloads(m, m.len() as int) =~= Seq::<u8>::empty());
            }
            let mut i: usize = 0;
            while i < s.len()
                invariant
                    i <= s@.len(),
                    *l == List::Compound(*s),
                    m == view_list(*l).elems,
                    m.len() == s@.len(),
                    old(out)@ + wire_whole == out@ + wire_payloads(m, i as int),
                    wire_whole == seq![10u8] + sbe32(s@.len() as u32) + wire_payloads(m, 0),
                    forall|j: int| 0 <= j < i ==> encodable_payload(#[trigger] m[j]),
                decreases s@.len() - i,
            {
                let ghost pre = out@;
                proof {
                    assert(m[i as int] == ValueV::Compound(view_compound(s@[i as int])));
                }
                match encode_compound(&s[i], out) {
                    Ok(u) => {
                        proof {
                            assert(wire_payloads(m, i as int) == wire_payload(m[i as int])
                                + wire_payloads(m, i + 1));
                            assert(out@ + wire_payloads(m, i + 1) =~= pre + wire_payloads(
                                m,
                                i as int,
                            ));
                        }
                    },
                    Err(e) => {
                        proof {
                            assert(!encodable_payload(m[i as int]));
                            lemma_encodable_payloads_iff(m, 0);
                        }
                        return Err(e);
                    },
                }
                i = i + 1;
            }
            proof {
                assert(out@ =~= old(out)@ + wire_whole);
                lemma_encodable_payloads_iff(m, 0);
            }
            Ok(())
        },
        List::Invalid => {
            out.push(0u8);
            wbe32(0, out);
            proof {
                assert(wire_payloads(m, 0) =~= Seq::<u8>::empty());
                assert(out@ =~= old(out)@ + wire_payload(ValueV::List(lv)));
            }
            Ok(())
        },
    }
}

/// Appends the entries of a compound in order, then the terminating End
/// byte.
fn encode_compound(c: &Compound, out: &mut Vec<u8>) -> (r: Result<(), NbtError>)
    ensures
        encodable_entries(view_compound(*c), 0) ==> (r matches Ok(u) && final(out)@ == old(out)@
            + wire_entries(view_compound(*c), 0) + seq![0u8]),
        !encodable_entries(view_compound(*c), 0) ==> (r matches Err(e) && e == NbtError::TooLong),
    decreases *c, 0int,
{
    let ghost ev = view_compound(*c);
    let n = c.entries.len();
    let mut i: usize = 0;
    proof {
        assert(wire_entries(ev, ev.len() as int) =~= Seq::<u8>::empty());
    }
    while i < n
        invariant
            i <= n == c.entries@.len(),
            ev == view_compound(*c),
            ev.len() == n,
            old(out)@ + wire_entries(ev, 0) == out@ + wire_entries(ev, i as int),
            forall|j: int| 0 <= j < i ==> (#[trigger] ev[j]).name.len() <= 0xffff
                && encodable_payload(ev[j].value),
        decreases n - i,
    {
        let ghost pre = out@;
        proof {
            assert(ev[i as int] == EntryV {
                name: c.entries@[i as int].name@,
                value: view_value(c.entries@[i as int].value),
            });
        }
        let e = &c.entries[i];
        let t = tag_of_value(&e.value);
        out.push(t.byte());
        match encode_string(&e.name, out) {
            Ok(u) => {},
            Err(er) => {
                proof {
                    lemma_encodable_entries_iff(ev, 0);
                }
                return Err(er);
            },
        }
        match encode_payload(&e.value, out) {
            Ok(u) => {},
            Err(er) => {
                proof {
                    lemma_encodable_entries_iff(ev, 0);
                }
                return Err(er);
            },
        }
        proof {
            assert(out@ + wire_entries(ev, i + 1) =~= pre + wire_entries(ev, i as int));
        }
        i = i + 1;
    }
    out.push(0u8);
    proof {
        assert(out@ =~= old(out)@ + wire_entries(ev, 0) + seq![0u8]);
        lemma_encodable_entries_iff(ev, 0);
    }
    Ok(())
}

/// Appends the untagged payload of one value, or reports the size-limit
/// error when a length field cannot carry part of it.
pub fn encode_payload(v: &Value, out: &mut Vec<u8>) -> (r: Result<(), NbtError>)
    ensures
        encodable_payload(view_value(*v)) ==> (r matches Ok(u) && final(out)@ == old(out)@
            + wire_payload(view_value(*v))),
        !encodable_payload(view_value(*v)) ==> (r matches Err(e) && e == NbtError::TooLong),
    decreases *v, 1int,
{
    match v {
        Value::Byte(b) => {
            out.push(*b as u8);
            proof {
                assert(out@ =~= old(out)@ + wire_payload(view_value(*v)));
            }
            Ok(())
        },
        Value::Short(x) => {
            wbe16(*x as u16, out);
            Ok(())
        },
        Value::Int(x) => {
            wbe32(*x as u32, out);
            Ok(())
        },
        Value::Long(x) => {
            wbe64(*x as u64, out);
            Ok(())
        },
        Value::Float(x) => {
            wbe32(*x, out);
            Ok(())
        },
        Value::Double(x) => {
            wbe64(*x, out);
            Ok(())
        },
        Value::ByteArray(b) => encode_byte_array(b, out),
        Value::String(s) => encode_string(s, out),
        Value::List(l) => encode_list(l, out),
        Value::Compound(c) => match encode_compound(c, out) {
            Ok(u) => {
                proof {
                    assert(old(out)@ + wire_entries(view_compound(*c), 0) + seq![0u8] =~= old(
                        out,
                    )@ + wire_payload(view_value(*v)));
                }
                Ok(())
            },
            Err(e) => Err(e),
        },
        Value::IntArray(a) => encode_int_array(a, out),
        Value::LongArray(a) => encode_long_array(a, out),
    }
}

/// Appends one tagged value: its tag byte, then its payload; the size-limit
/// error is reported when a length field cannot carry part of it.
pub fn encode_value(v: &Value, out: &mut Vec<u8>) -> (r: Result<(), NbtError>)
    ensures
        encodable_payload(view_value(*v)) ==> (r matches Ok(u) && final(out)@ == old(out)@
            + wire_value(view_value(*v))),
        !encodable_payload(view_value(*v)) ==> (r matches Err(e) && e == NbtError::TooLong),
    decreases *v, 2int,
{
    let t = tag_of_value(v);
    out.push(t.byte());
    match encode_payload(v, out) {
        Ok(u) => {
            proof {
                assert(out@ =~= old(out)@ + wire_value(view_value(*v)));
            }
            Ok(())
        },
        Err(e) => Err(e),
    }
}

} // verus!

verus! {

/// Reads one byte.
fn rbyte(data: &[u8], pos: &mut usize) -> (r: Result<u8, NbtError>)
    requires
        *old(pos) <= data@.len(),
    ensures
        ({
            let d = data@.skip(*old(pos) as int);
            if d.len() < 1 {
                r matches Err(e) && e == NbtError::Eof
            } else {
                r matches Ok(v) && v == d[0] && *final(pos) == *old(pos) + 1 && *final(pos)
                    <= data@.len()
            }
        }),
{
    if data.len() - *pos < 1 {
        return Err(NbtError::Eof);
    }
    let b = data[*pos];
    proof {
        assert(data@.skip(*old(pos) as int)[0] == data@[*old(pos) as int]);
    }
    *pos = *pos + 1;
    Ok(b)
}

/// Reads one big-endian 16-bit value.
fn rbe16(data: &[u8], pos: &mut usize) -> (r: Result<u16, NbtError>)
    requires
        *old(pos) <= data@.len(),
    ensures
        ({
            let d = data@.skip(*old(pos) as int);
            if d.len() < 2 {
                r matches Err(e) && e == NbtError::Eof
            } else {
                r matches Ok(v) && v == rdu16(d) && *final(pos) == *old(pos) + 2 && *final(pos)
                    <= data@.len()
            }
        }),
{
    if data.len() - *pos < 2 {
        return Err(NbtError::Eof);
    }
    proof {
        assert(data@.skip(*old(pos) as int)[0] == data@[*old(pos) as int]);
        assert(data@.skip(*old(pos) as int)[1] == data@[*old(pos) + 1]);
    }
    let v = ((data[*pos] as u16) << 8) | (data[*pos + 1] as u16);
    *pos = *pos + 2;
    Ok(v)
}

/// Reads one big-endian 32-bit value.
fn rbe32(data: &[u8], pos: &mut usize) -> (r: Result<u32, NbtError>)
    requires
        *old(pos) <= data@.len(),
    ensures
        ({
            let d = data@.skip(*old(pos) as int);
            if d.len() < 4 {
                r matches Err(e) && e == NbtError::Eof
            } else {
                r matches Ok(v) && v == rdu32(d) && *final(pos) == *old(pos) + 4 && *final(pos)
                    <= data@.len()
            }
        }),
{
    if data.len() - *pos < 4 {
        return Err(NbtError::Eof);
    }
    proof {
        assert(data@.skip(*old(pos) as int)[0] == data@[*old(pos) as int]);
        assert(data@.skip(*old(pos) as int)[1] == data@[*old(pos) + 1]);
        assert(data@.skip(*old(pos) as int)[2] == data@[*old(pos) + 2]);
        assert(data@.skip(*old(pos) as int)[3] == data@[*old(pos) + 3]);
    }
    let v = ((data[*pos] as u32) << 24) | ((data[*pos + 1] as u32) << 16) | ((data[*pos + 2] as u32)
        << 8) | (data[*pos + 3] as u32);
    *pos = *pos + 4;
    Ok(v)
}

/// Reads one big-endian 64-bit value.
fn rbe64(data: &[u8], pos: &mut usize) -> (r: Result<u64, NbtError>)
    requires
        *old(pos) <= data@.len(),
    ensures
        ({
            let d = data@.skip(*old(pos) as int);
            if d.len() < 8 {
                r matches Err(e) && e == NbtError::Eof
            } else {
                r matches Ok(v) && v == rdu64(d) && *final(pos) == *old(pos) + 8 && *final(pos)
                    <= data@.len()
            }
        }),
{
    if data.len() - *pos < 8 {
        return Err(NbtError::Eof);
    }
    proof {
        assert(data@.skip(*old(pos) as int)[0] == data@[*old(pos) as int]);
        assert(data@.skip(*old(pos) as int)[1] == data@[*old(pos) + 1]);
        assert(data@.skip(*old(pos) as int)[2] == data@[*old(pos) + 2]);
        assert(data@.skip(*old(pos) as int)[3] == data@[*old(pos) + 3]);
        assert(data@.skip(*old(pos) as int)[4] == data@[*old(pos) + 4]);
        assert(data@.skip(*old(pos) as int)[5] == data@[*old(pos) + 5]);
        assert(data@.skip(*old(pos) as int)[6] == data@[*old(pos) + 6]);
        assert(data@.skip(*old(pos) as int)[7] == data@[*old(pos) + 7]);
    }
    let v = ((data[*pos] as u64) << 56) | ((data[*pos + 1] as u64) << 48) | ((data[*pos + 2] as u64)
        << 40) | ((data[*pos + 3] as u64) << 32) | ((data[*pos + 4] as u64) << 24) | ((data[*pos
        + 5] as u64) << 16) | ((data[*pos + 6] as u64) << 8) | (data[*pos + 7] as u64);
    *pos = *pos + 8;
    Ok(v)
}

/// Reads `count` big-endian 32-bit elements.
fn decode_ints(count: u32, data: &[u8], pos: &mut usize) -> (r: Result<Vec<i32>, NbtError>)
    requires
        *old(pos) <= data@.len(),
    ensures
        match sdec_ints(count as nat, data@.skip(*old(pos) as int)) {
            Ok((a, n)) => r matches Ok(x) && x@ == a && *final(pos) == *old(pos) + n && *final(pos)
                <= data@.len(),
            Err(e) => r matches Err(e2) && e2 == e,
        },
    decreases count,
{
    let ghost d = data@.skip(*old(pos) as int);
    if count == 0 {
        let empty: Vec<i32> = Vec::new();
        proof {
            assert(empty@ =~= Seq::<i32>::empty());
        }
        return Ok(empty);
    }
    match rbe32(data, pos) {
        Ok(v) => {
            proof {
                assert(d.skip(4) =~= data@.skip(*pos as int));
            }
            match decode_ints(count - 1, data, pos) {
                Ok(mut rest) => {
                    let ghost rv = rest@;
                    rest.insert(0, #[verifier::truncate] (v as i32));
                    proof {
                        assert(rest@ =~= seq![rdu32(d) as i32] + rv);
                    }
                    Ok(rest)
                },
                Err(e) => Err(e),
            }
        },
        Err(e) => Err(e),
    }
}

/// Reads `count` big-endian 64-bit elements.
fn decode_longs(count: u32, data: &[u8], pos: &mut usize) -> (r: Result<Vec<i64>, NbtError>)
    requires
        *old(pos) <= data@.len(),
    ensures
        match sdec_longs(count as nat, data@.skip(*old(pos) as int)) {
            Ok((a, n)) => r matches Ok(x) && x@ == a && *final(pos) == *old(pos) + n && *final(pos)
                <= data@.len(),
            Err(e) => r matches Err(e2) && e2 == e,
        },
    decreases count,
{
    let ghost d = data@.skip(*old(pos) as int);
    if count == 0 {
        let empty: Vec<i64> = Vec::new();
        proof {
            assert(empty@ =~= Seq::<i64>::empty());
        }
        return Ok(empty);
    }
    match rbe64(data, pos) {
        Ok(v) => {
            proof {
                assert(d.skip(8) =~= data@.skip(*pos as int));
            }
            match decode_longs(count - 1, data, pos) {
                Ok(mut rest) => {
                    let ghost rv = rest@;
                    rest.insert(0, #[verifier::truncate] (v as i64));
                    proof {
                        assert(rest@ =~= seq![rdu64(d) as i64] + rv);
                    }
                    Ok(rest)
                },
                Err(e) => Err(e),
            }
        },
        Err(e) => Err(e),
    }
}

} // verus!

verus! {

/// Builds a Byte list from `c` decoded payloads.
fn decode_list_bytes(c: u32, data: &[u8], pos: &mut usize) -> (r: Result<List, NbtError>)
    requires
        *old(pos) <= data@.len(),
    ensures
        match sdec_payloads(NbtTag::Byte, c as nat, data@.skip(*old(pos) as int)) {
            Ok((es, n)) => r matches Ok(x) && view_list(x) == (ListV {
                etag: NbtTag::Byte,
                elems: es,
            }) && *final(pos) == *old(pos) + n && *final(pos) <= data@.len(),
            Err(e) => r matches Err(e2) && e2 == e,
        },
    decreases data@.len() - *pos, 4int, 0int,
{
    match decode_elems_bytes(c, data, pos) {
        Ok(x) => {
            let r = List::Byte(x);
            proof {
                assert(view_list(r).elems =~= sdec_payloads(
                    NbtTag::Byte,
                    c as nat,
                    data@.skip(*old(pos) as int),
                )->Ok_0.0);
            }
            Ok(r)
        },
        Err(e) => Err(e),
    }
}

/// Builds a Short list from `c` decoded payloads.
fn decode_list_shorts(c: u32, data: &[u8], pos: &mut usize) -> (r: Result<List, NbtError>)
    requires
        *old(pos) <= data@.len(),
    ensures
        match sdec_payloads(NbtTag::Short, c as nat, data@.skip(*old(pos) as int)) {
            Ok((es, n)) => r matches Ok(x) && view_list(x) == (ListV {
                etag: NbtTag::Short,
                elems: es,
            }) && *final(pos) == *old(pos) + n && *final(pos) <= data@.len(),
            Err(e) => r matches Err(e2) && e2 == e,
        },
    decreases data@.len() - *pos, 4int, 0int,
{
    match decode_elems_shorts(c, data, pos) {
        Ok(x) => {
            let r = List::Short(x);
            proof {
                assert(view_list(r).elems =~= sdec_payloads(
                    NbtTag::Short,
                    c as nat,
                    data@.skip(*old(pos) as int),
                )->Ok_0.0);
            }
            Ok(r)
        },
        Err(e) => Err(e),
    }
}

/// Builds a Int list from `c` decoded payloads.
fn decode_list_intvals(c: u32, data: &[u8], pos: &mut usize) -> (r: Result<List, NbtError>)
    requires
        *old(pos) <= data@.len(),
    ensures
        match sdec_payloads(NbtTag::Int, c as nat, data@.skip(*old(pos) as int)) {
            Ok((es, n)) => r matches Ok(x) && view_list(x) == (ListV {
                etag: NbtTag::Int,
                elems: es,
            }) && *final(pos) == *old(pos) + n && *final(pos) <= data@.len(),
            Err(e) => r matches Err(e2) && e2 == e,
        },
    decreases data@.len() - *pos, 4int, 0int,
{
    match decode_elems_intvals(c, data, pos) {
        Ok(x) => {
            let r = List::Int(x);
            proof {
                assert(view_list(r).elems =~= sdec_payloads(
                    NbtTag::Int,
                    c as nat,
                    data@.skip(*old(pos) as int),
                )->Ok_0.0);
            }
            Ok(r)
        },
        Err(e) => Err(e),
    }
}

/// Builds a Long list from `c` decoded payloads.
fn decode_list_longvals(c: u32, data: &[u8], pos: &mut usize) -> (r: Result<List, NbtError>)
    requires
        *old(pos) <= data@.len(),
    ensures
        match sdec_payloads(NbtTag::Long, c as nat, data@.skip(*old(pos) as int)) {
            Ok((es, n)) => r matches Ok(x) && view_list(x) == (ListV {
                etag: NbtTag::Long,
                elems: es,
            }) && *final(pos) == *old(pos) + n && *final(pos) <= data@.len(),
            Err(e) => r matches Err(e2) && e2 == e,
        },
    decreases data@.len() - *pos, 4int, 0int,
{
    match decode_elems_longvals(c, data, pos) {
        Ok(x) => {
            let r = List::Long(x);
            proof {
                assert(view_list(r).elems =~= sdec_payloads(
                    NbtTag::Long,
                    c as nat,
                    data@.skip(*old(pos) as int),
                )->Ok_0.0);
            }
            Ok(r)
        },
        Err(e) => Err(e),
    }
}

/// Builds a Float list from `c` decoded payloads.
fn decode_list_floats(c: u32, data: &[u8], pos: &mut usize) -> (r: Result<List, NbtError>)
    requires
        *old(pos) <= data@.len(),
    ensures
        match sdec_payloads(NbtTag::Float, c as nat, data@.skip(*old(pos) as int)) {
            Ok((es, n)) => r matches Ok(x) && view_list(x) == (ListV {
                etag: NbtTag::Float,
                elems: es,
            }) && *final(pos) == *old(pos) + n && *final(pos) <= data@.len(),
            Err(e) => r matches Err(e2) && e2 == e,
        },
    decreases data@.len() - *pos, 4int, 0int,
{
    match decode_elems_floats(c, data, pos) {
        Ok(x) => {
            let r = List::Float(x);
            proof {
                assert(view_list(r).elems =~= sdec_payloads(
                    NbtTag::Float,
                    c as nat,
                    data@.skip(*old(pos) as int),
                )->Ok_0.0);
            }
            Ok(r)
        },
        Err(e) => Err(e),
    }
}

/// Builds a Double list from `c` decoded payloads.
fn decode_list_doubles(c: u32, data: &[u8], pos: &mut usize) -> (r: Result<List, NbtError>)
    requires
        *old(pos) <= data@.len(),
    ensures
        match sdec_payloads(NbtTag::Double, c as nat, data@.skip(*old(pos) as int)) {
            Ok((es, n)) => r matches Ok(x) && view_list(x) == (ListV {
                etag: NbtTag::Double,
                elems: es,
            }) && *final(pos) == *old(pos) + n && *final(pos) <= data@.len(),
            Err(e) => r matches Err(e2) && e2 == e,
        },
    decreases data@.len() - *pos, 4int, 0int,
{
    match decode_elems_doubles(c, data, pos) {
        Ok(x) => {
            let r = List::Double(x);
            proof {
                assert(view_list(r).elems =~= sdec_payloads(
                    NbtTag::Double,
                    c as nat,
                    data@.skip(*old(pos) as int),
                )->Ok_0.0);
            }
            Ok(r)
        },
        Err(e) => Err(e),
    }
}

/// Builds a ByteArray list from `c` decoded payloads.
fn decode_list_bytearrays(c: u32, data: &[u8], pos: &mut usize) -> (r: Result<List, NbtError>)
    requires
        *old(pos) <= data@.len(),
    ensures
        match sdec_payloads(NbtTag::ByteArray, c as nat, data@.skip(*old(pos) as int)) {
            Ok((es, n)) => r matches Ok(x) && view_list(x) == (ListV {
                etag: NbtTag::ByteArray,
                elems: es,
            }) && *final(pos) == *old(pos) + n && *final(pos) <= data@.len(),
            Err(e) => r matches Err(e2) && e2 == e,
        },
    decreases data@.len() - *pos, 4int, 0int,
{
    match decode_elems_bytearrays(c, data, pos) {
        Ok(x) => {
            let r = List::ByteArray(x);
            proof {
                assert(view_list(r).elems =~= sdec_payloads(
                    NbtTag::ByteArray,
                    c as nat,
                    data@.skip(*old(pos) as int),
                )->Ok_0.0);
            }
            Ok(r)
        },
        Err(e) => Err(e),
    }
}

/// Builds a String list from `c` decoded payloads.
fn decode_list_strs(c: u32, data: &[u8], pos: &mut usize) -> (r: Result<List, NbtError>)
    requires
        *old(pos) <= data@.len(),
    ensures
        match sdec_payloads(NbtTag::String, c as nat, data@.skip(*old(pos) as int)) {
            Ok((es, n)) => r matches Ok(x) && view_list(x) == (ListV {
                etag: NbtTag::String,
                elems: es,
            }) && *final(pos) == *old(pos) + n && *final(pos) <= data@.len(),
            Err(e) => r matches Err(e2) && e2 == e,
        },
    decreases data@.len() - *pos, 4int, 0int,
{
    match decode_elems_strs(c, data, pos) {
        Ok(x) => {
            let r = List::String(x);
            proof {
                assert(view_list(r).elems =~= sdec_payloads(
                    NbtTag::String,
                    c as nat,
                    data@.skip(*old(pos) as int),
                )->Ok_0.0);
            }
            Ok(r)
        },
        Err(e) => Err(e),
    }
}

/// Builds a List list from `c` decoded payloads.
fn decode_list_lists(c: u32, data: &[u8], pos: &mut usize) -> (r: Result<List, NbtError>)
    requires
        *old(pos) <= data@.len(),
    ensures
        match sdec_payloads(NbtTag::List, c as nat, data@.skip(*old(pos) as int)) {
            Ok((es, n)) => r matches Ok(x) && view_list(x) == (ListV {
                etag: NbtTag::List,
                elems: es,
            }) && *final(pos) == *old(pos) + n && *final(pos) <= data@.len(),
            Err(e) => r matches Err(e2) && e2 == e,
        },
    decreases data@.len() - *pos, 4int, 0int,
{
    match decode_elems_lists(c, data, pos) {
        Ok(x) => {
            let r = List::List(x);
            proof {
                assert(view_list(r).elems =~= sdec_payloads(
                    NbtTag::List,
                    c as nat,
                    data@.skip(*old(pos) as int),
                )->Ok_0.0);
            }
            Ok(r)
        },
        Err(e) => Err(e),
    }
}

/// Builds a Compound list from `c` decoded payloads.
fn decode_list_compounds(c: u32, data: &[u8], pos: &mut usize) -> (r: Result<List, NbtError>)
    requires
        *old(pos) <= data@.len(),
    ensures
        match sdec_payloads(NbtTag::Compound, c as nat, data@.skip(*old(pos) as int)) {
            Ok((es, n)) => r matches Ok(x) && view_list(x) == (ListV {
                etag: NbtTag::Compound,
                elems: es,
            }) && *final(pos) == *old(pos) + n && *final(pos) <= data@.len(),
            Err(e) => r matches Err(e2) && e2 == e,
        },
    decreases data@.len() - *pos, 4int, 0int,
{
    match decode_elems_compounds(c, data, pos) {
        Ok(x) => {
            let r = List::Compound(x);
            proof {
                assert(view_list(r).elems =~= sdec_payloads(
                    NbtTag::Compound,
                    c as nat,
                    data@.skip(*old(pos) as int),
                )->Ok_0.0);
            }
            Ok(r)
        },
        Err(e) => Err(e),
    }
}

/// Builds a IntArray list from `c` decoded payloads.
fn decode_list_intarrays(c: u32, data: &[u8], pos: &mut usize) -> (r: Result<List, NbtError>)
    requires
        *old(pos) <= data@.len(),
    ensures
        match sdec_payloads(NbtTag::IntArray, c as nat, data@.skip(*old(pos) as int)) {
            Ok((es, n)) => r matches Ok(x) && view_list(x) == (ListV {
                etag: NbtTag::IntArray,
                elems: es,
            }) && *final(pos) == *old(pos) + n && *final(pos) <= data@.len(),
            Err(e) => r matches Err(e2) && e2 == e,
        },
    decreases data@.len() - *pos, 4int, 0int,
{
    match decode_elems_intarrays(c, data, pos) {
        Ok(x) => {
            let r = List::IntArray(x);
            proof {
                assert(view_list(r).elems =~= sdec_payloads(
                    NbtTag::IntArray,
                    c as nat,
                    data@.skip(*old(pos) as int),
                )->Ok_0.0);
            }
            Ok(r)
        },
        Err(e) => Err(e),
    }
}

/// Builds a LongArray list from `c` decoded payloads.
fn decode_list_longarrays(c: u32, data: &[u8], pos: &mut usize) -> (r: Result<List, NbtError>)
    requires
        *old(pos) <= data@.len(),
    ensures
        match sdec_payloads(NbtTag::LongArray, c as nat, data@.skip(*old(pos) as int)) {
            Ok((es, n)) => r matches Ok(x) && view_list(x) == (ListV {
                etag: NbtTag::LongArray,
                elems: es,
            }) && *final(pos) == *old(pos) + n && *final(pos) <= data@.len(),
            Err(e) => r matches Err(e2) && e2 == e,
        },
    decreases data@.len() - *pos, 4int, 0int,
{
    match decode_elems_longarrays(c, data, pos) {
        Ok(x) => {
            let r = List::LongArray(x);
            proof {
                assert(view_list(r).elems =~= sdec_payloads(
                    NbtTag::LongArray,
                    c as nat,
                    data@.skip(*old(pos) as int),
                )->Ok_0.0);
            }
            Ok(r)
        },
        Err(e) => Err(e),
    }
}

/// Reads the untagged payload of a list: element tag, count, then each
/// element's payload; an End tag with a positive count is the
/// malformed-input error, with a zero or negative count the invalid empty
/// list.
#[verifier::rlimit(100)]
fn decode_list(data: &[u8], pos: &mut usize) -> (r: Result<List, NbtError>)
    requires
        *old(pos) <= data@.len(),
    ensures
        match sdec_payload(NbtTag::List, data@.skip(*old(pos) as int)) {
            Ok((w, n)) => r matches Ok(x) && w == ValueV::List(view_list(x)) && *final(pos)
                == *old(pos) + n && *final(pos) <= data@.len(),
            Err(e) => r matches Err(e2) && e2 == e,
        },
    decreases data@.len() - *pos, 1int, 0int,
{
    let ghost d = data@.skip(*old(pos) as int);
    if data.len() - *pos < 5 {
        return Err(NbtError::Eof);
    }
    let tb = data[*pos];
    proof {
        assert(d[0] == data@[*old(pos) as int]);
    }
    let et = match NbtTag::from_byte(tb) {
        Some(t) => t,
        None => {
            return Err(NbtError::InvalidTag);
        },
    };
    let mut p2: usize = *pos + 1;
    let c32 = match rbe32(data, &mut p2) {
        Ok(v) => v,
        Err(e) => {
            proof {
                assert(false);
            }
            return Err(NbtError::Eof);
        },
    };
    proof {
        assert(d.subrange(1, 5)[0] == data@[*old(pos) + 1]);
        assert(d.subrange(1, 5)[1] == data@[*old(pos) + 2]);
        assert(d.subrange(1, 5)[2] == data@[*old(pos) + 3]);
        assert(d.subrange(1, 5)[3] == data@[*old(pos) + 4]);
        assert(data@.skip(*old(pos) + 1)[0] == data@[*old(pos) + 1]);
        assert(data@.skip(*old(pos) + 1)[1] == data@[*old(pos) + 2]);
        assert(data@.skip(*old(pos) + 1)[2] == data@[*old(pos) + 3]);
        assert(data@.skip(*old(pos) + 1)[3] == data@[*old(pos) + 4]);
        assert(rdu32(d.subrange(1, 5)) == rdu32(data@.skip(*old(pos) + 1)));
    }
    let c = #[verifier::truncate] (c32 as i32);
    if matches!(et, NbtTag::End) {
        if c > 0 {
            return Err(NbtError::EndTagInList);
        }
        *pos = p2;
        let r = List::Invalid;
        proof {
            assert(view_list(r).elems =~= Seq::<ValueV>::empty());
        }
        return Ok(r);
    }
    if c < 0 {
        return Err(NbtError::NegativeCount);
    }
    *pos = p2;
    proof {
        assert(d.skip(5) =~= data@.skip(*pos as int));
    }
    let res = match et {
                NbtTag::Byte => decode_list_bytes(c as u32, data, pos),
                NbtTag::Short => decode_list_shorts(c as u32, data, pos),
                NbtTag::Int => decode_list_intvals(c as u32, data, pos),
                NbtTag::Long => decode_list_longvals(c as u32, data, pos),
                NbtTag::Float => decode_list_floats(c as u32, data, pos),
                NbtTag::Double => decode_list_doubles(c as u32, data, pos),
                NbtTag::ByteArray => decode_list_bytearrays(c as u32, data, pos),
                NbtTag::String => decode_list_strs(c as u32, data, pos),
                NbtTag::List => decode_list_lists(c as u32, data, pos),
                NbtTag::Compound => decode_list_compounds(c as u32, data, pos),
                NbtTag::IntArray => decode_list_intarrays(c as u32, data, pos),
                NbtTag::LongArray => decode_list_longarrays(c as u32, data, pos),
        NbtTag::End => {
            proof {
                assert(false);
            }
            Err(NbtError::Eof)
        },
    };
    res
}

/// Reads the entries of a compound up to and including the terminating End
/// byte.
fn decode_entries(data: &[u8], pos: &mut usize) -> (r: Result<Vec<Entry>, NbtError>)
    requires
        *old(pos) <= data@.len(),
    ensures
        match sdec_entries(data@.skip(*old(pos) as int)) {
            Ok((es, n)) => r matches Ok(x) && es.len() == x@.len() && (forall|j: int|
                0 <= j < es.len() ==> #[trigger] es[j] == EntryV {
                    name: x@[j].name@,
                    value: view_value(x@[j].value),
                }) && *final(pos) == *old(pos) + n && *final(pos) <= data@.len(),
            Err(e) => r matches Err(e2) && e2 == e,
        },
    decreases data@.len() - *pos, 0int, 0int,
{
    let ghost d = data@.skip(*old(pos) as int);
    if data.len() - *pos < 1 {
        return Err(NbtError::Eof);
    }
    let tb = data[*pos];
    proof {
        assert(d[0] == data@[*old(pos) as int]);
    }
    if tb == 0 {
        *pos = *pos + 1;
        let empty: Vec<Entry> = Vec::new();
        return Ok(empty);
    }
    let t = match NbtTag::from_byte(tb) {
        Some(t) => t,
        None => {
            return Err(NbtError::InvalidTag);
        },
    };
    let mut p2: usize = *pos + 1;
    let nl16 = match rbe16(data, &mut p2) {
        Ok(v) => v,
        Err(e) => {
            return Err(NbtError::Eof);
        },
    };
    proof {
        assert(d.subrange(1, 3)[0] == data@[*old(pos) + 1]);
        assert(d.subrange(1, 3)[1] == data@[*old(pos) + 2]);
        assert(data@.skip(*old(pos) + 1)[0] == data@[*old(pos) + 1]);
        assert(data@.skip(*old(pos) + 1)[1] == data@[*old(pos) + 2]);
        assert(rdu16(d.subrange(1, 3)) == rdu16(data@.skip(*old(pos) + 1)));
    }
    let nl = nl16 as usize;
    if data.len() - p2 < nl {
        return Err(NbtError::Eof);
    }
    proof {
        assert(d.subrange(3, 3 + nl as int) =~= data@.subrange(p2 as int, p2 + nl));
    }
    if !check_mutf8_range(data, p2, p2 + nl) {
        return Err(NbtError::Mutf8Error);
    }
    let name = copy_range(data, p2, p2 + nl);
    let mut p3: usize = p2 + nl;
    proof {
        assert(d.skip(3 + nl as int) =~= data@.skip(p3 as int));
    }
    let value = match decode_payload(t, data, &mut p3) {
        Ok(v) => v,
        Err(e) => {
            return Err(e);
        },
    };
    *pos = p3;
    proof {
        assert(d.skip(3 + nl + (p3 - p2 - nl) as int) =~= data@.skip(p3 as int));
    }
    match decode_entries(data, pos) {
        Ok(mut rest) => {
            let ghost rv = rest@;
            rest.insert(0, Entry { name, value });
            proof {
                assert(rest@ =~= seq![Entry { name, value }] + rv);
            }
            Ok(rest)
        },
        Err(e) => Err(e),
    }
}


/// Reads a count-prefixed byte array payload.
fn decode_byte_array_payload(data: &[u8], pos: &mut usize) -> (r: Result<Value, NbtError>)
    requires
        *old(pos) <= data@.len(),
    ensures
        match sdec_payload(NbtTag::ByteArray, data@.skip(*old(pos) as int)) {
            Ok((w, n)) => r matches Ok(x) && w == view_value(x) && *final(pos) == *old(pos) + n
                && *final(pos) <= data@.len(),
            Err(e) => r matches Err(e2) && e2 == e,
        },
{
    let ghost d = data@.skip(*old(pos) as int);
    match rbe32(data, pos) {
        Ok(v) => {
            let c = #[verifier::truncate] (v as i32);
            if c < 0 {
                return Err(NbtError::NegativeCount);
            }
            let cl = c as usize;
            if data.len() - *pos < cl {
                return Err(NbtError::Eof);
            }
            proof {
                assert(d.subrange(4, 4 + cl as int) =~= data@.subrange(*pos as int, *pos + cl));
            }
            let bytes = copy_range(data, *pos, *pos + cl);
            *pos = *pos + cl;
            Ok(Value::ByteArray(bytes))
        },
        Err(e) => Err(e),
    }
}

/// Reads a length-prefixed modified-UTF-8 string payload.
fn decode_string_payload(data: &[u8], pos: &mut usize) -> (r: Result<Value, NbtError>)
    requires
        *old(pos) <= data@.len(),
    ensures
        match sdec_payload(NbtTag::String, data@.skip(*old(pos) as int)) {
            Ok((w, n)) => r matches Ok(x) && w == view_value(x) && *final(pos) == *old(pos) + n
                && *final(pos) <= data@.len(),
            Err(e) => r matches Err(e2) && e2 == e,
        },
{
    let ghost d = data@.skip(*old(pos) as int);
    match rbe16(data, pos) {
        Ok(v) => {
            let cl = v as usize;
            if data.len() - *pos < cl {
                return Err(NbtError::Eof);
            }
            proof {
                assert(d.subrange(2, 2 + cl as int) =~= data@.subrange(*pos as int, *pos + cl));
            }
            if !check_mutf8_range(data, *pos, *pos + cl) {
                return Err(NbtError::Mutf8Error);
            }
            let bytes = copy_range(data, *pos, *pos + cl);
            *pos = *pos + cl;
            Ok(Value::String(bytes))
        },
        Err(e) => Err(e),
    }
}

/// Reads a count-prefixed array of big-endian 32-bit elements.
fn decode_int_array_payload(data: &[u8], pos: &mut usize) -> (r: Result<Value, NbtError>)
    requires
        *old(pos) <= data@.len(),
    ensures
        match sdec_payload(NbtTag::IntArray, data@.skip(*old(pos) as int)) {
            Ok((w, n)) => r matches Ok(x) && w == view_value(x) && *final(pos) == *old(pos) + n
                && *final(pos) <= data@.len(),
            Err(e) => r matches Err(e2) && e2 == e,
        },
{
    let ghost d = data@.skip(*old(pos) as int);
    match rbe32(data, pos) {
        Ok(v) => {
            let c = #[verifier::truncate] (v as i32);
            if c < 0 {
                return Err(NbtError::NegativeCount);
            }
            proof {
                assert(d.skip(4) =~= data@.skip(*pos as int));
            }
            match decode_ints(c as u32, data, pos) {
                Ok(a) => Ok(Value::IntArray(a)),
                Err(e) => Err(e),
            }
        },
        Err(e) => Err(e),
    }
}

/// Reads a count-prefixed array of big-endian 64-bit elements.
fn decode_long_array_payload(data: &[u8], pos: &mut usize) -> (r: Result<Value, NbtError>)
    requires
        *old(pos) <= data@.len(),
    ensures
        match sdec_payload(NbtTag::LongArray, data@.skip(*old(pos) as int)) {
            Ok((w, n)) => r matches Ok(x) && w == view_value(x) && *final(pos) == *old(pos) + n
                && *final(pos) <= data@.len(),
            Err(e) => r matches Err(e2) && e2 == e,
        },
{
    let ghost d = data@.skip(*old(pos) as int);
    match rbe32(data, pos) {
        Ok(v) => {
            let c = #[verifier::truncate] (v as i32);
            if c < 0 {
                return Err(NbtError::NegativeCount);
            }
            proof {
                assert(d.skip(4) =~= data@.skip(*pos as int));
            }
            match decode_longs(c as u32, data, pos) {
                Ok(a) => Ok(Value::LongArray(a)),
                Err(e) => Err(e),
            }
        },
        Err(e) => Err(e),
    }
}

/// Reads the untagged payload of tag `t`.
#[verifier::rlimit(100)]
pub fn decode_payload(t: NbtTag, data: &[u8], pos: &mut usize) -> (r: Result<Value, NbtError>)
    requires
        *old(pos) <= data@.len(),
    ensures
        match sdec_payload(t, data@.skip(*old(pos) as int)) {
            Ok((w, n)) => r matches Ok(x) && w == view_value(x) && *final(pos) == *old(pos) + n
                && *final(pos) <= data@.len(),
            Err(e) => r matches Err(e2) && e2 == e,
        },
    decreases data@.len() - *pos, 2int, 0int,
{
    let ghost d = data@.skip(*old(pos) as int);
    match t {
        NbtTag::End => Err(NbtError::InvalidTag),
        NbtTag::Byte => match rbyte(data, pos) {
            Ok(b) => Ok(Value::Byte(#[verifier::truncate] (b as i8))),
            Err(e) => Err(e),
        },
        NbtTag::Short => match rbe16(data, pos) {
            Ok(v) => Ok(Value::Short(#[verifier::truncate] (v as i16))),
            Err(e) => Err(e),
        },
        NbtTag::Int => match rbe32(data, pos) {
            Ok(v) => Ok(Value::Int(#[verifier::truncate] (v as i32))),
            Err(e) => Err(e),
        },
        NbtTag::Long => match rbe64(data, pos) {
            Ok(v) => Ok(Value::Long(#[verifier::truncate] (v as i64))),
            Err(e) => Err(e),
        },
        NbtTag::Float => match rbe32(data, pos) {
            Ok(v) => Ok(Value::Float(v)),
            Err(e) => Err(e),
        },
        NbtTag::Double => match rbe64(data, pos) {
            Ok(v) => Ok(Value::Double(v)),
            Err(e) => Err(e),
        },
        NbtTag::ByteArray => decode_byte_array_payload(data, pos),
        NbtTag::String => decode_string_payload(data, pos),
        NbtTag::List => match decode_list(data, pos) {
            Ok(l) => Ok(Value::List(l)),
            Err(e) => Err(e),
        },
        NbtTag::Compound => match decode_entries(data, pos) {
            Ok(es) => {
                let c = Compound { entries: es };
                proof {
                    assert(view_compound(c) =~= sdec_entries(d)->Ok_0.0);
                }
                Ok(Value::Compound(c))
            },
            Err(e) => Err(e),
        },
        NbtTag::IntArray => decode_int_array_payload(data, pos),
        NbtTag::LongArray => decode_long_array_payload(data, pos),
    }
}

/// Reads one tagged value: its tag byte, then its payload.
pub fn decode_value(data: &[u8], pos: &mut usize) -> (r: Result<Value, NbtError>)
    requires
        *old(pos) <= data@.len(),
    ensures
        match sdec_value(data@.skip(*old(pos) as int)) {
            Ok((w, n)) => r matches Ok(x) && w == view_value(x) && *final(pos) == *old(pos) + n
                && *final(pos) <= data@.len(),
            Err(e) => r matches Err(e2) && e2 == e,
        },
    decreases data@.len() - *pos, 3int, 0int,
{
    let ghost d = data@.skip(*old(pos) as int);
    let tb = match rbyte(data, pos) {
        Ok(b) => b,
        Err(e) => {
            return Err(e);
        },
    };
    let t = match NbtTag::from_byte(tb) {
        Some(t) => t,
        None => {
            return Err(NbtError::InvalidTag);
        },
    };
    if matches!(t, NbtTag::End) {
        return Err(NbtError::InvalidTag);
    }
    proof {
        assert(d.skip(1) =~= data@.skip(*pos as int));
    }
    match decode_payload(t, data, pos) {
        Ok(v) => Ok(v),
        Err(e) => Err(e),
    }
}

/// Reads `count` untagged payloads of the Byte tag.
fn decode_elems_bytes(count: u32, data: &[u8], pos: &mut usize) -> (r: Result<
    Vec<i8>,
    NbtError,
>)
    requires
        *old(pos) <= data@.len(),
    ensures
        match sdec_payloads(NbtTag::Byte, count as nat, data@.skip(*old(pos) as int)) {
            Ok((es, n)) => r matches Ok(x) && es.len() == x@.len() && (forall|j: int|
                0 <= j < es.len() ==> #[trigger] es[j] == ValueV::Byte(x@[j])) && *final(pos) == *old(pos) + n
                && *final(pos) <= data@.len(),
            Err(e) => r matches Err(e2) && e2 == e,
        },
    decreases data@.len() - *pos, 3int, count,
{
    let ghost d = data@.skip(*old(pos) as int);
    if count == 0 {
        let empty: Vec<i8> = Vec::new();
        return Ok(empty);
    }
    let ghost prepos = *pos;
    match decode_payload(NbtTag::Byte, data, pos) {
        Ok(v) => {
            let x = match v {
                Value::Byte(k) => k,
                _ => {
                    proof {
                        assert(false);
                    }
                    return Err(NbtError::Eof);
                },
            };
            proof {
                assert(d.skip((*pos - prepos) as int) =~= data@.skip(*pos as int));
            }
            match decode_elems_bytes(count - 1, data, pos) {
                Ok(mut rest) => {
                    let ghost rv = rest@;
                    rest.insert(0, x);
                    proof {
                        assert(rest@ =~= seq![x] + rv);
                    }
                    Ok(rest)
                },
                Err(e) => Err(e),
            }
        },
        Err(e) => Err(e),
    }
}

/// Reads `count` untagged payloads of the Short tag.
fn decode_elems_shorts(count: u32, data: &[u8], pos: &mut usize) -> (r: Result<
    Vec<i16>,
    NbtError,
>)
    requires
        *old(pos) <= data@.len(),
    ensures
        match sdec_payloads(NbtTag::Short, count as nat, data@.skip(*old(pos) as int)) {
            Ok((es, n)) => r matches Ok(x) && es.len() == x@.len() && (forall|j: int|
                0 <= j < es.len() ==> #[trigger] es[j] == ValueV::Short(x@[j])) && *final(pos) == *old(pos) + n
                && *final(pos) <= data@.len(),
            Err(e) => r matches Err(e2) && e2 == e,
        },
    decreases data@.len() - *pos, 3int, count,
{
    let ghost d = data@.skip(*old(pos) as int);
    if count == 0 {
        let empty: Vec<i16> = Vec::new();
        return Ok(empty);
    }
    let ghost prepos = *pos;
    match decode_payload(NbtTag::Short, data, pos) {
        Ok(v) => {
            let x = match v {
                Value::Short(k) => k,
                _ => {
                    proof {
                        assert(false);
                    }
                    return Err(NbtError::Eof);
                },
            };
            proof {
                assert(d.skip((*pos - prepos) as int) =~= data@.skip(*pos as int));
            }
            match decode_elems_shorts(count - 1, data, pos) {
                Ok(mut rest) => {
                    let ghost rv = rest@;
                    rest.insert(0, x);
                    proof {
                        assert(rest@ =~= seq![x] + rv);
                    }
                    Ok(rest)
                },
                Err(e) => Err(e),
            }
        },
        Err(e) => Err(e),
    }
}

/// Reads `count` untagged payloads of the Int tag.
fn decode_elems_intvals(count: u32, data: &[u8], pos: &mut usize) -> (r: Result<
    Vec<i32>,
    NbtError,
>)
    requires
        *old(pos) <= data@.len(),
    ensures
        match sdec_payloads(NbtTag::Int, count as nat, data@.skip(*old(pos) as int)) {
            Ok((es, n)) => r matches Ok(x) && es.len() == x@.len() && (forall|j: int|
                0 <= j < es.len() ==> #[trigger] es[j] == ValueV::Int(x@[j])) && *final(pos) == *old(pos) + n
                && *final(pos) <= data@.len(),
            Err(e) => r matches Err(e2) && e2 == e,
        },
    decreases data@.len() - *pos, 3int, count,
{
    let ghost d = data@.skip(*old(pos) as int);
    if count == 0 {
        let empty: Vec<i32> = Vec::new();
        return Ok(empty);
    }
    let ghost prepos = *pos;
    match decode_payload(NbtTag::Int, data, pos) {
        Ok(v) => {
            let x = match v {
                Value::Int(k) => k,
                _ => {
                    proof {
                        assert(false);
                    }
                    return Err(NbtError::Eof);
                },
            };
            proof {
                assert(d.skip((*pos - prepos) as int) =~= data@.skip(*pos as int));
            }
            match decode_elems_intvals(count - 1, data, pos) {
                Ok(mut rest) => {
                    let ghost rv = rest@;
                    rest.insert(0, x);
                    proof {
                        assert(rest@ =~= seq![x] + rv);
                    }
                    Ok(rest)
                },
                Err(e) => Err(e),
            }
        },
        Err(e) => Err(e),
    }
}

/// Reads `count` untagged payloads of the Long tag.
fn decode_elems_longvals(count: u32, data: &[u8], pos: &mut usize) -> (r: Result<
    Vec<i64>,
    NbtError,
>)
    requires
        *old(pos) <= data@.len(),
    ensures
        match sdec_payloads(NbtTag::Long, count as nat, data@.skip(*old(pos) as int)) {
            Ok((es, n)) => r matches Ok(x) && es.len() == x@.len() && (forall|j: int|
                0 <= j < es.len() ==> #[trigger] es[j] == ValueV::Long(x@[j])) && *final(pos) == *old(pos) + n
                && *final(pos) <= data@.len(),
            Err(e) => r matches Err(e2) && e2 == e,
        },
    decreases data@.len() - *pos, 3int, count,
{
    let ghost d = data@.skip(*old(pos) as int);
    if count == 0 {
        let empty: Vec<i64> = Vec::new();
        return Ok(empty);
    }
    let ghost prepos = *pos;
    match decode_payload(NbtTag::Long, data, pos) {
        Ok(v) => {
            let x = match v {
                Value::Long(k) => k,
                _ => {
                    proof {
                        assert(false);
                    }
                    return Err(NbtError::Eof);
                },
            };
            proof {
                assert(d.skip((*pos - prepos) as int) =~= data@.skip(*pos as int));
            }
            match decode_elems_longvals(count - 1, data, pos) {
                Ok(mut rest) => {
                    let ghost rv = rest@;
                    rest.insert(0, x);
                    proof {
                        assert(rest@ =~= seq![x] + rv);
                    }
                    Ok(rest)
                },
                Err(e) => Err(e),
            }
        },
        Err(e) => Err(e),
    }
}

/// Reads `count` untagged payloads of the Float tag.
fn decode_elems_floats(count: u32, data: &[u8], pos: &mut usize) -> (r: Result<
    Vec<u32>,
    NbtError,
>)
    requires
        *old(pos) <= data@.len(),
    ensures
        match sdec_payloads(NbtTag::Float, count as nat, data@.skip(*old(pos) as int)) {
            Ok((es, n)) => r matches Ok(x) && es.len() == x@.len() && (forall|j: int|
                0 <= j < es.len() ==> #[trigger] es[j] == ValueV::Float(x@[j])) && *final(pos) == *old(pos) + n
                && *final(pos) <= data@.len(),
            Err(e) => r matches Err(e2) && e2 == e,
        },
    decreases data@.len() - *pos, 3int, count,
{
    let ghost d = data@.skip(*old(pos) as int);
    if count == 0 {
        let empty: Vec<u32> = Vec::new();
        return Ok(empty);
    }
    let ghost prepos = *pos;
    match decode_payload(NbtTag::Float, data, pos) {
        Ok(v) => {
            let x = match v {
                Value::Float(k) => k,
                _ => {
                    proof {
                        assert(false);
                    }
                    return Err(NbtError::Eof);
                },
            };
            proof {
                assert(d.skip((*pos - prepos) as int) =~= data@.skip(*pos as int));
            }
            match decode_elems_floats(count - 1, data, pos) {
                Ok(mut rest) => {
                    let ghost rv = rest@;
                    rest.insert(0, x);
                    proof {
                        assert(rest@ =~= seq![x] + rv);
                    }
                    Ok(rest)
                },
                Err(e) => Err(e),
            }
        },
        Err(e) => Err(e),
    }
}

/// Reads `count` untagged payloads of the Double tag.
fn decode_elems_doubles(count: u32, data: &[u8], pos: &mut usize) -> (r: Result<
    Vec<u64>,
    NbtError,
>)
    requires
        *old(pos) <= data@.len(),
    ensures
        match sdec_payloads(NbtTag::Double, count as nat, data@.skip(*old(pos) as int)) {
            Ok((es, n)) => r matches Ok(x) && es.len() == x@.len() && (forall|j: int|
                0 <= j < es.len() ==> #[trigger] es[j] == ValueV::Double(x@[j])) && *final(pos) == *old(pos) + n
                && *final(pos) <= data@.len(),
            Err(e) => r matches Err(e2) && e2 == e,
        },
    decreases data@.len() - *pos, 3int, count,
{
    let ghost d = data@.skip(*old(pos) as int);
    if count == 0 {
        let empty: Vec<u64> = Vec::new();
        return Ok(empty);
    }
    let ghost prepos = *pos;
    match decode_payload(NbtTag::Double, data, pos) {
        Ok(v) => {
            let x = match v {
                Value::Double(k) => k,
                _ => {
                    proof {
                        assert(false);
                    }
                    return Err(NbtError::Eof);
                },
            };
            proof {
                assert(d.skip((*pos - prepos) as int) =~= data@.skip(*pos as int));
            }
            match decode_elems_doubles(count - 1, data, pos) {
                Ok(mut rest) => {
                    let ghost rv = rest@;
                    rest.insert(0, x);
                    proof {
                        assert(rest@ =~= seq![x] + rv);
                    }
                    Ok(rest)
                },
                Err(e) => Err(e),
            }
        },
        Err(e) => Err(e),
    }
}

/// Reads `count` untagged payloads of the ByteArray tag.
fn decode_elems_bytearrays(count: u32, data: &[u8], pos: &mut usize) -> (r: Result<
    Vec<Vec<u8>>,
    NbtError,
>)
    requires
        *old(pos) <= data@.len(),
    ensures
        match sdec_payloads(NbtTag::ByteArray, count as nat, data@.skip(*old(pos) as int)) {
            Ok((es, n)) => r matches Ok(x) && es.len() == x@.len() && (forall|j: int|
                0 <= j < es.len() ==> #[trigger] es[j] == ValueV::ByteArray(x@[j]@)) && *final(pos) == *old(pos) + n
                && *final(pos) <= data@.len(),
            Err(e) => r matches Err(e2) && e2 == e,
        },
    decreases data@.len() - *pos, 3int, count,
{
    let ghost d = data@.skip(*old(pos) as int);
    if count == 0 {
        let empty: Vec<Vec<u8>> = Vec::new();
        return Ok(empty);
    }
    let ghost prepos = *pos;
    match decode_payload(NbtTag::ByteArray, data, pos) {
        Ok(v) => {
            let x = match v {
                Value::ByteArray(k) => k,
                _ => {
                    proof {
                        assert(false);
                    }
                    return Err(NbtError::Eof);
                },
            };
            proof {
                assert(d.skip((*pos - prepos) as int) =~= data@.skip(*pos as int));
            }
            match decode_elems_bytearrays(count - 1, data, pos) {
                Ok(mut rest) => {
                    let ghost rv = rest@;
                    rest.insert(0, x);
                    proof {
                        assert(rest@ =~= seq![x] + rv);
                    }
                    Ok(rest)
                },
                Err(e) => Err(e),
            }
        },
        Err(e) => Err(e),
    }
}

/// Reads `count` untagged payloads of the String tag.
fn decode_elems_strs(count: u32, data: &[u8], pos: &mut usize) -> (r: Result<
    Vec<Vec<u8>>,
    NbtError,
>)
    requires
        *old(pos) <= data@.len(),
    ensures
        match sdec_payloads(NbtTag::String, count as nat, data@.skip(*old(pos) as int)) {
            Ok((es, n)) => r matches Ok(x) && es.len() == x@.len() && (forall|j: int|
                0 <= j < es.len() ==> #[trigger] es[j] == ValueV::String(x@[j]@)) && *final(pos) == *old(pos) + n
                && *final(pos) <= data@.len(),
            Err(e) => r matches Err(e2) && e2 == e,
        },
    decreases data@.len() - *pos, 3int, count,
{
    let ghost d = data@.skip(*old(pos) as int);
    if count == 0 {
        let empty: Vec<Vec<u8>> = Vec::new();
        return Ok(empty);
    }
    let ghost prepos = *pos;
    match decode_payload(NbtTag::String, data, pos) {
        Ok(v) => {
            let x = match v {
                Value::String(k) => k,
                _ => {
                    proof {
                        assert(false);
                    }
                    return Err(NbtError::Eof);
                },
            };
            proof {
                assert(d.skip((*pos - prepos) as int) =~= data@.skip(*pos as int));
            }
            match decode_elems_strs(count - 1, data, pos) {
                Ok(mut rest) => {
                    let ghost rv = rest@;
                    rest.insert(0, x);
                    proof {
                        assert(rest@ =~= seq![x] + rv);
                    }
                    Ok(rest)
                },
                Err(e) => Err(e),
            }
        },
        Err(e) => Err(e),
    }
}

/// Reads `count` untagged payloads of the List tag.
fn decode_elems_lists(count: u32, data: &[u8], pos: &mut usize) -> (r: Result<
    Vec<List>,
    NbtError,
>)
    requires
        *old(pos) <= data@.len(),
    ensures
        match sdec_payloads(NbtTag::List, count as nat, data@.skip(*old(pos) as int)) {
            Ok((es, n)) => r matches Ok(x) && es.len() == x@.len() && (forall|j: int|
                0 <= j < es.len() ==> #[trigger] es[j] == ValueV::List(view_list(x@[j]))) && *final(pos) == *old(pos) + n
                && *final(pos) <= data@.len(),
            Err(e) => r matches Err(e2) && e2 == e,
        },
    decreases data@.len() - *pos, 3int, count,
{
    let ghost d = data@.skip(*old(pos) as int);
    if count == 0 {
        let empty: Vec<List> = Vec::new();
        return Ok(empty);
    }
    let ghost prepos = *pos;
    match decode_payload(NbtTag::List, data, pos) {
        Ok(v) => {
            let x = match v {
                Value::List(k) => k,
                _ => {
                    proof {
                        assert(false);
                    }
                    return Err(NbtError::Eof);
                },
            };
            proof {
                assert(d.skip((*pos - prepos) as int) =~= data@.skip(*pos as int));
            }
            match decode_elems_lists(count - 1, data, pos) {
                Ok(mut rest) => {
                    let ghost rv = rest@;
                    rest.insert(0, x);
                    proof {
                        assert(rest@ =~= seq![x] + rv);
                    }
                    Ok(rest)
                },
                Err(e) => Err(e),
            }
        },
        Err(e) => Err(e),
    }
}

/// Reads `count` untagged payloads of the Compound tag.
fn decode_elems_compounds(count: u32, data: &[u8], pos: &mut usize) -> (r: Result<
    Vec<Compound>,
    NbtError,
>)
    requires
        *old(pos) <= data@.len(),
    ensures
        match sdec_payloads(NbtTag::Compound, count as nat, data@.skip(*old(pos) as int)) {
            Ok((es, n)) => r matches Ok(x) && es.len() == x@.len() && (forall|j: int|
                0 <= j < es.len() ==> #[trigger] es[j] == ValueV::Compound(view_compound(x@[j]))) && *final(pos) == *old(pos) + n
                && *final(pos) <= data@.len(),
            Err(e) => r matches Err(e2) && e2 == e,
        },
    decreases data@.len() - *pos, 3int, count,
{
    let ghost d = data@.skip(*old(pos) as int);
    if count == 0 {
        let empty: Vec<Compound> = Vec::new();
        return Ok(empty);
    }
    let ghost prepos = *pos;
    match decode_payload(NbtTag::Compound, data, pos) {
        Ok(v) => {
            let x = match v {
                Value::Compound(k) => k,
                _ => {
                    proof {
                        assert(false);
                    }
                    return Err(NbtError::Eof);
                },
            };
            proof {
                assert(d.skip((*pos - prepos) as int) =~= data@.skip(*pos as int));
            }
            match decode_elems_compounds(count - 1, data, pos) {
                Ok(mut rest) => {
                    let ghost rv = rest@;
                    rest.insert(0, x);
                    proof {
                        assert(rest@ =~= seq![x] + rv);
                    }
                    Ok(rest)
                },
                Err(e) => Err(e),
            }
        },
        Err(e) => Err(e),
    }
}

/// Reads `count` untagged payloads of the IntArray tag.
fn decode_elems_intarrays(count: u32, data: &[u8], pos: &mut usize) -> (r: Result<
    Vec<Vec<i32>>,
    NbtError,
>)
    requires
        *old(pos) <= data@.len(),
    ensures
        match sdec_payloads(NbtTag::IntArray, count as nat, data@.skip(*old(pos) as int)) {
            Ok((es, n)) => r matches Ok(x) && es.len() == x@.len() && (forall|j: int|
                0 <= j < es.len() ==> #[trigger] es[j] == ValueV::IntArray(x@[j]@)) && *final(pos) == *old(pos) + n
                && *final(pos) <= data@.len(),
            Err(e) => r matches Err(e2) && e2 == e,
        },
    decreases data@.len() - *pos, 3int, count,
{
    let ghost d = data@.skip(*old(pos) as int);
    if count == 0 {
        let empty: Vec<Vec<i32>> = Vec::new();
        return Ok(empty);
    }
    let ghost prepos = *pos;
    match decode_payload(NbtTag::IntArray, data, pos) {
        Ok(v) => {
            let x = match v {
                Value::IntArray(k) => k,
                _ => {
                    proof {
                        assert(false);
                    }
                    return Err(NbtError::Eof);
                },
            };
            proof {
                assert(d.skip((*pos - prepos) as int) =~= data@.skip(*pos as int));
            }
            match decode_elems_intarrays(count - 1, data, pos) {
                Ok(mut rest) => {
                    let ghost rv = rest@;
                    rest.insert(0, x);
                    proof {
                        assert(rest@ =~= seq![x] + rv);
                    }
                    Ok(rest)
                },
                Err(e) => Err(e),
            }
        },
        Err(e) => Err(e),
    }
}

/// Reads `count` untagged payloads of the LongArray tag.
fn decode_elems_longarrays(count: u32, data: &[u8], pos: &mut usize) -> (r: Result<
    Vec<Vec<i64>>,
    NbtError,
>)
    requires
        *old(pos) <= data@.len(),
    ensures
        match sdec_payloads(NbtTag::LongArray, count as nat, data@.skip(*old(pos) as int)) {
            Ok((es, n)) => r matches Ok(x) && es.len() == x@.len() && (forall|j: int|
                0 <= j < es.len() ==> #[trigger] es[j] == ValueV::LongArray(x@[j]@)) && *final(pos) == *old(pos) + n
                && *final(pos) <= data@.len(),
            Err(e) => r matches Err(e2) && e2 == e,
        },
    decreases data@.len() - *pos, 3int, count,
{
    let ghost d = data@.skip(*old(pos) as int);
    if count == 0 {
        let empty: Vec<Vec<i64>> = Vec::new();
        return Ok(empty);
    }
    let ghost prepos = *pos;
    match decode_payload(NbtTag::LongArray, data, pos) {
        Ok(v) => {
            let x = match v {
                Value::LongArray(k) => k,
                _ => {
                    proof {
                        assert(false);
                    }
                    return Err(NbtError::Eof);
                },
            };
            proof {
                assert(d.skip((*pos - prepos) as int) =~= data@.skip(*pos as int));
            }
            match decode_elems_longarrays(count - 1, data, pos) {
                Ok(mut rest) => {
                    let ghost rv = rest@;
                    rest.insert(0, x);
                    proof {
                        assert(rest@ =~= seq![x] + rv);
                    }
                    Ok(rest)
                },
                Err(e) => Err(e),
            }
        },
        Err(e) => Err(e),
    }
}

} // verus!

verus! {

impl List {
    /// Appends this list's untagged payload image: element tag, count,
    /// then each element's payload only; the invalid empty list is the End
    /// tag with a zero count.
    pub fn encode(&self, out: &mut Vec<u8>) -> (r: Result<(), NbtError>)
        ensures
            encodable_payload(ValueV::List(view_list(*self))) ==> (r matches Ok(u) && final(out)@
                == old(out)@ + wire_payload(ValueV::List(view_list(*self)))),
            !encodable_payload(ValueV::List(view_list(*self))) ==> (r matches Err(e) && e
                == NbtError::TooLong),
    {
        encode_list(self, out)
    }

    /// Reads a list payload: element tag, count, then the elements; the
    /// End tag with a positive count is the malformed-input error, with a
    /// zero or negative count the Invalid variant.
    pub fn decode(data: &[u8], pos: &mut usize) -> (r: Result<List, NbtError>)
        requires
            *old(pos) <= data@.len(),
        ensures
            match sdec_payload(NbtTag::List, data@.skip(*old(pos) as int)) {
                Ok((w, n)) => r matches Ok(x) && w == ValueV::List(view_list(x)) && *final(pos)
                    == *old(pos) + n && *final(pos) <= data@.len(),
                Err(e) => r matches Err(e2) && e2 == e,
            },
    {
        decode_list(data, pos)
    }

    /// An independently owned copy, equal to the original: the copy has
    /// the same mathematical image and the original is left unchanged.
    pub fn to_static(&self) -> (r: List)
        ensures
            view_list(r) == view_list(*self),
    {
        clone_list(self)
    }

    /// Promotes this list to the owned form; owned storage is already
    /// independent, so the value is returned unchanged.
    pub fn into_static(self) -> (r: List)
        ensures
            view_list(r) == view_list(self),
    {
        self
    }
}

} // verus!

verus! {

/// Deep copy of a value: the copy has the same mathematical image.
fn clone_value(v: &Value) -> (r: Value)
    ensures
        view_value(r) == view_value(*v),
    decreases *v, 1int,
{
    match v {
        Value::Byte(b) => Value::Byte(*b),
        Value::Short(x) => Value::Short(*x),
        Value::Int(x) => Value::Int(*x),
        Value::Long(x) => Value::Long(*x),
        Value::Float(x) => Value::Float(*x),
        Value::Double(x) => Value::Double(*x),
        Value::ByteArray(b) => Value::ByteArray(clone_bytes(b)),
        Value::String(s) => Value::String(clone_bytes(s)),
        Value::List(l) => Value::List(clone_list(l)),
        Value::Compound(c) => Value::Compound(clone_compound(c)),
        Value::IntArray(a) => Value::IntArray(clone_copies(a)),
        Value::LongArray(a) => Value::LongArray(clone_copies(a)),
    }
}

/// Deep copy of a byte buffer.
fn clone_bytes(b: &Vec<u8>) -> (r: Vec<u8>)
    ensures
        r@ == b@,
{
    clone_copies(b)
}

/// Copy of a vector of copyable elements.
fn clone_copies<T: Copy>(b: &Vec<T>) -> (r: Vec<T>)
    ensures
        r@ == b@,
{
    let mut out: Vec<T> = Vec::new();
    let mut i: usize = 0;
    while i < b.len()
        invariant
            i <= b@.len(),
            out@ == b@.take(i as int),
        decreases b@.len() - i,
    {
        out.push(b[i]);
        proof {
            assert(out@ =~= b@.take(i + 1));
        }
        i = i + 1;
    }
    proof {
        assert(out@ =~= b@);
    }
    out
}

/// Deep copy of a compound: same entries, same order, same images.
fn clone_compound(c: &Compound) -> (r: Compound)
    ensures
        view_compound(r) == view_compound(*c),
    decreases *c, 1int,
{
    let mut entries: Vec<Entry> = Vec::new();
    let n = c.entries.len();
    let mut i: usize = 0;
    while i < n
        invariant
            n == c.entries@.len(),
            i == entries@.len() <= n,
            forall|j: int| 0 <= j < i ==> (#[trigger] entries@[j]).name@ == c.entries@[j].name@
                && view_value(entries@[j].value) == view_value(c.entries@[j].value),
        decreases n - i,
    {
        let e = &c.entries[i];
        entries.push(Entry { name: clone_bytes(&e.name), value: clone_value(&e.value) });
        i = i + 1;
    }
    let r = Compound { entries };
    proof {
        assert(view_compound(r) =~= view_compound(*c));
    }
    r
}

/// Deep copies of a vector of lists, image for image.
fn clone_lists(s: &Vec<List>) -> (r: Vec<List>)
    ensures
        r@.len() == s@.len(),
        forall|j: int| 0 <= j < s@.len() ==> view_list(#[trigger] r@[j]) == view_list(s@[j]),
    decreases *s, 0int,
{
    let mut out: Vec<List> = Vec::new();
    let mut i: usize = 0;
    while i < s.len()
        invariant
            i == out@.len() <= s@.len(),
            forall|j: int| 0 <= j < i ==> view_list(#[trigger] out@[j]) == view_list(s@[j]),
        decreases s@.len() - i,
    {
        out.push(clone_list(&s[i]));
        i = i + 1;
    }
    out
}

/// Deep copies of a vector of compounds, image for image.
fn clone_compounds(s: &Vec<Compound>) -> (r: Vec<Compound>)
    ensures
        r@.len() == s@.len(),
        forall|j: int| 0 <= j < s@.len() ==> view_compound(#[trigger] r@[j]) == view_compound(
            s@[j],
        ),
    decreases *s, 0int,
{
    let mut out: Vec<Compound> = Vec::new();
    let mut i: usize = 0;
    while i < s.len()
        invariant
            i == out@.len() <= s@.len(),
            forall|j: int| 0 <= j < i ==> view_compound(#[trigger] out@[j]) == view_compound(
                s@[j],
            ),
        decreases s@.len() - i,
    {
        out.push(clone_compound(&s[i]));
        i = i + 1;
    }
    out
}

/// Deep copy of a list: the copy has the same mathematical image.
fn clone_list(l: &List) -> (r: List)
    ensures
        view_list(r) == view_list(*l),
    decreases *l, 1int,
{
    match l {
        List::Byte(s) => {
            let r = List::Byte(clone_copies(s));
            proof {
                assert(view_list(r).elems =~= view_list(*l).elems);
            }
            r
        },
        List::Short(s) => {
            let r = List::Short(clone_copies(s));
            proof {
                assert(view_list(r).elems =~= view_list(*l).elems);
            }
            r
        },
        List::Int(s) => {
            let r = List::Int(clone_copies(s));
            proof {
                assert(view_list(r).elems =~= view_list(*l).elems);
            }
            r
        },
        List::Long(s) => {
            let r = List::Long(clone_copies(s));
            proof {
                assert(view_list(r).elems =~= view_list(*l).elems);
            }
            r
        },
        List::Float(s) => {
            let r = List::Float(clone_copies(s));
            proof {
                assert(view_list(r).elems =~= view_list(*l).elems);
            }
            r
        },
        List::Double(s) => {
            let r = List::Double(clone_copies(s));
            proof {
                assert(view_list(r).elems =~= view_list(*l).elems);
            }
            r
        },
        List::ByteArray(s) => {
            let mut out: Vec<Vec<u8>> = Vec::new();
            let mut i: usize = 0;
            while i < s.len()
                invariant
                    *l == List::ByteArray(*s),
                    i == out@.len() <= s@.len(),
                    forall|j: int| 0 <= j < i ==> (#[trigger] out@[j])@ == s@[j]@,
                decreases s@.len() - i,
            {
                out.push(clone_bytes(&s[i]));
                i = i + 1;
            }
            let r = List::ByteArray(out);
            proof {
                assert(view_list(r).elems =~= view_list(*l).elems);
            }
            r
        },
        List::String(s) => {
            let mut out: Vec<Vec<u8>> = Vec::new();
            let mut i: usize = 0;
            while i < s.len()
                invariant
                    *l == List::String(*s),
                    i == out@.len() <= s@.len(),
                    forall|j: int| 0 <= j < i ==> (#[trigger] out@[j])@ == s@[j]@,
                decreases s@.len() - i,
            {
                out.push(clone_bytes(&s[i]));
                i = i + 1;
            }
            let r = List::String(out);
            proof {
                assert(view_list(r).elems =~= view_list(*l).elems);
            }
            r
        },
        List::IntArray(s) => {
            let mut out: Vec<Vec<i32>> = Vec::new();
            let mut i: usize = 0;
            while i < s.len()
                invariant
                    *l == List::IntArray(*s),
                    i == out@.len() <= s@.len(),
                    forall|j: int| 0 <= j < i ==> (#[trigger] out@[j])@ == s@[j]@,
                decreases s@.len() - i,
            {
                out.push(clone_copies(&s[i]));
                i = i + 1;
            }
            let r = List::IntArray(out);
            proof {
                assert(view_list(r).elems =~= view_list(*l).elems);
            }
            r
        },
        List::LongArray(s) => {
            let mut out: Vec<Vec<i64>> = Vec::new();
            let mut i: usize = 0;
            while i < s.len()
                invariant
                    *l == List::LongArray(*s),
                    i == out@.len() <= s@.len(),
                    forall|j: int| 0 <= j < i ==> (#[trigger] out@[j])@ == s@[j]@,
                decreases s@.len() - i,
            {
                out.push(clone_copies(&s[i]));
                i = i + 1;
            }
            let r = List::LongArray(out);
            proof {
                assert(view_list(r).elems =~= view_list(*l).elems);
            }
            r
        },
        List::List(s) => {
            let r = List::List(clone_lists(s));
            proof {
                assert(view_list(r).elems =~= view_list(*l).elems);
            }
            r
        },
        List::Compound(s) => {
            let r = List::Compound(clone_compounds(s));
            proof {
                assert(view_list(r).elems =~= view_list(*l).elems);
            }
            r
        },
        List::Invalid => List::Invalid,
    }
}

} // verus!
