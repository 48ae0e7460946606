//! The round-trip law of the tagged-tree codec: decoding the encoding of
//! any well-formed, carryable value yields exactly that value back and
//! consumes exactly its encoding.
use vstd::prelude::*;
use crate::nbt::{
    elem_tag, encodable_payload, encodable_payloads, encodable_entries, is_mutf8, rdu16, rdu32,
    rdu64, sbe16, sbe32, sbe64, sdec_entries, sdec_ints, sdec_longs, sdec_payload, sdec_payloads,
    sdec_value, wire_entries, wire_ints, wire_longs, wire_payload, wire_payloads, wire_value,
    EntryV, ListV, NbtError, NbtTag, ValueV,
};

verus! {

/// Validity beyond length bounds: strings and names are valid modified
/// UTF-8, and lists are homogeneous, with the End element tag only when
/// empty.  Decoded values always satisfy this.
pub open spec fn wf_payload(w: ValueV) -> bool
    decreases w, 1int, 0int,
{
    match w {
        ValueV::String(s) => is_mutf8(s),
        ValueV::List(l) => (l.etag == NbtTag::End ==> l.elems.len() == 0) && wf_payloads(
            l.etag,
            l.elems,
            0,
        ),
        ValueV::Compound(es) => wf_entries(es, 0),
        _ => true,
    }
}

/// Every payload of `s` from `i` on is well-formed and carries tag `t`.
pub open spec fn wf_payloads(t: NbtTag, s: Seq<ValueV>, i: int) -> bool
    decreases s, 2int, s.len() - i,
{
    if i < 0 || i >= s.len() {
        true
    } else {
        elem_tag(s[i]) == t && wf_payload(s[i]) && wf_payloads(t, s, i + 1)
    }
}

/// Every entry of `es` from `i` on has a modified-UTF-8 name and a
/// well-formed value.
pub open spec fn wf_entries(es: Seq<EntryV>, i: int) -> bool
    decreases es, 2int, es.len() - i,
{
    if i < 0 || i >= es.len() {
        true
    } else {
        is_mutf8(es[i].name) && wf_payload(es[i].value) && wf_entries(es, i + 1)
    }
}

proof fn lemma_cast_i8(x: i8)
    ensures
        (x as u8) as i8 == x,
{
    assert((x as u8) as i8 == x) by (bit_vector);
}

proof fn lemma_cast_i16(x: i16)
    ensures
        (x as u16) as i16 == x,
{
    assert((x as u16) as i16 == x) by (bit_vector);
}

proof fn lemma_cast_i32(x: i32)
    ensures
        (x as u32) as i32 == x,
{
    assert((x as u32) as i32 == x) by (bit_vector);
}

proof fn lemma_cast_i64(x: i64)
    ensures
        (x as u64) as i64 == x,
{
    assert((x as u64) as i64 == x) by (bit_vector);
}

proof fn lemma_be16_rt(v: u16)
    ensures
        ((((v >> 8) as u8) as u16) << 8 | ((v as u8) as u16)) == v,
{
    assert(((((v >> 8) as u8) as u16) << 8 | ((v as u8) as u16)) == v) by (bit_vector);
}

proof fn lemma_be32_rt(v: u32)
    ensures
        ((((v >> 24) as u8) as u32) << 24 | (((v >> 16) as u8) as u32) << 16 | (((v
            >> 8) as u8) as u32) << 8 | ((v as u8) as u32)) == v,
{
    assert(((((v >> 24) as u8) as u32) << 24 | (((v >> 16) as u8) as u32) << 16 | (((v
        >> 8) as u8) as u32) << 8 | ((v as u8) as u32)) == v) by (bit_vector);
}

proof fn lemma_be64_rt(v: u64)
    ensures
        ((((v >> 56) as u8) as u64) << 56 | (((v >> 48) as u8) as u64) << 48 | (((v
            >> 40) as u8) as u64) << 40 | (((v >> 32) as u8) as u64) << 32 | (((v
            >> 24) as u8) as u64) << 24 | (((v >> 16) as u8) as u64) << 16 | (((v
            >> 8) as u8) as u64) << 8 | ((v as u8) as u64)) == v,
{
    assert(((((v >> 56) as u8) as u64) << 56 | (((v >> 48) as u8) as u64) << 48 | (((v
        >> 40) as u8) as u64) << 40 | (((v >> 32) as u8) as u64) << 32 | (((v
        >> 24) as u8) as u64) << 24 | (((v >> 16) as u8) as u64) << 16 | (((v
        >> 8) as u8) as u64) << 8 | ((v as u8) as u64)) == v) by (bit_vector);
}

/// Reading `rdu16` at the head of `sbe16(v)` with anything after gives `v`.
proof fn lemma_rdu16(v: u16, d: Seq<u8>)
    requires
        d.len() >= 2,
        d[0] == (v >> 8) as u8,
        d[1] == v as u8,
    ensures
        rdu16(d) == v,
{
    lemma_be16_rt(v);
}

proof fn lemma_rdu32(v: u32, d: Seq<u8>)
    requires
        d.len() >= 4,
        d[0] == (v >> 24) as u8,
        d[1] == (v >> 16) as u8,
        d[2] == (v >> 8) as u8,
        d[3] == v as u8,
    ensures
        rdu32(d) == v,
{
    lemma_be32_rt(v);
}

proof fn lemma_rdu64(v: u64, d: Seq<u8>)
    requires
        d.len() >= 8,
        d[0] == (v >> 56) as u8,
        d[1] == (v >> 48) as u8,
        d[2] == (v >> 40) as u8,
        d[3] == (v >> 32) as u8,
        d[4] == (v >> 24) as u8,
        d[5] == (v >> 16) as u8,
        d[6] == (v >> 8) as u8,
        d[7] == v as u8,
    ensures
        rdu64(d) == v,
{
    lemma_be64_rt(v);
}

/// The tag byte of a payload is never the End byte, and maps back to its
/// tag.
proof fn lemma_tag_byte(t: NbtTag)
    ensures
        NbtTag::spec_from_byte(t.spec_byte()) == Some(t),
        t != NbtTag::End ==> t.spec_byte() != 0,
{
}

/// Round trip of 32-bit array elements.
proof fn lemma_rt_ints(a: Seq<i32>, rest: Seq<u8>)
    ensures
        sdec_ints(a.len(), wire_ints(a) + rest) == Ok::<(Seq<i32>, nat), NbtError>((
            a,
            (4 * a.len()) as nat,
        )),
        wire_ints(a).len() == 4 * a.len(),
    decreases a.len(),
{
    if a.len() == 0 {
        assert(wire_ints(a) + rest =~= rest);
        assert(a =~= Seq::<i32>::empty());
    } else {
        let v = a[0] as u32;
        let d = wire_ints(a) + rest;
        assert(wire_ints(a) == sbe32(v) + wire_ints(a.skip(1)));
        assert(d.len() >= 4);
        assert(d[0] == (v >> 24) as u8 && d[1] == (v >> 16) as u8 && d[2] == (v >> 8) as u8 && d[3]
            == v as u8);
        lemma_rdu32(v, d);
        lemma_cast_i32(a[0]);
        lemma_rt_ints(a.skip(1), rest);
        assert(d.skip(4) =~= wire_ints(a.skip(1)) + rest);
        assert(seq![rdu32(d) as i32] + a.skip(1) =~= a);
    }
}

/// Round trip of 64-bit array elements.
proof fn lemma_rt_longs(a: Seq<i64>, rest: Seq<u8>)
    ensures
        sdec_longs(a.len(), wire_longs(a) + rest) == Ok::<(Seq<i64>, nat), NbtError>((
            a,
            (8 * a.len()) as nat,
        )),
        wire_longs(a).len() == 8 * a.len(),
    decreases a.len(),
{
    if a.len() == 0 {
        assert(wire_longs(a) + rest =~= rest);
        assert(a =~= Seq::<i64>::empty());
    } else {
        let v = a[0] as u64;
        let d = wire_longs(a) + rest;
        assert(wire_longs(a) == sbe64(v) + wire_longs(a.skip(1)));
        assert(d.len() >= 8);
        assert(d[0] == (v >> 56) as u8 && d[1] == (v >> 48) as u8 && d[2] == (v >> 40) as u8 && d[3]
            == (v >> 32) as u8 && d[4] == (v >> 24) as u8 && d[5] == (v >> 16) as u8 && d[6] == (v
            >> 8) as u8 && d[7] == v as u8);
        lemma_rdu64(v, d);
        lemma_cast_i64(a[0]);
        lemma_rt_longs(a.skip(1), rest);
        assert(d.skip(8) =~= wire_longs(a.skip(1)) + rest);
        assert(seq![rdu64(d) as i64] + a.skip(1) =~= a);
    }
}

/// Round trip of one untagged payload.
#[verifier::rlimit(100)]
pub proof fn lemma_rt_payload(w: ValueV, rest: Seq<u8>)
    requires
        encodable_payload(w),
        wf_payload(w),
    ensures
        sdec_payload(elem_tag(w), wire_payload(w) + rest) == Ok::<(ValueV, nat), NbtError>((
            w,
            wire_payload(w).len() as nat,
        )),
    decreases w, 1int, 0int,
{
    let d = wire_payload(w) + rest;
    match w {
        ValueV::Byte(b) => {
            assert(d[0] == b as u8);
            lemma_cast_i8(b);
        },
        ValueV::Short(x) => {
            let v = x as u16;
            assert(d[0] == (v >> 8) as u8 && d[1] == v as u8);
            lemma_rdu16(v, d);
            lemma_cast_i16(x);
        },
        ValueV::Int(x) => {
            let v = x as u32;
            assert(d[0] == (v >> 24) as u8 && d[1] == (v >> 16) as u8 && d[2] == (v >> 8) as u8
                && d[3] == v as u8);
            lemma_rdu32(v, d);
            lemma_cast_i32(x);
        },
        ValueV::Long(x) => {
            let v = x as u64;
            assert(d[0] == (v >> 56) as u8 && d[1] == (v >> 48) as u8 && d[2] == (v >> 40) as u8
                && d[3] == (v >> 32) as u8 && d[4] == (v >> 24) as u8 && d[5] == (v >> 16) as u8
                && d[6] == (v >> 8) as u8 && d[7] == v as u8);
            lemma_rdu64(v, d);
            lemma_cast_i64(x);
        },
        ValueV::Float(v) => {
            assert(d[0] == (v >> 24) as u8 && d[1] == (v >> 16) as u8 && d[2] == (v >> 8) as u8
                && d[3] == v as u8);
            lemma_rdu32(v, d);
        },
        ValueV::Double(v) => {
            assert(d[0] == (v >> 56) as u8 && d[1] == (v >> 48) as u8 && d[2] == (v >> 40) as u8
                && d[3] == (v >> 32) as u8 && d[4] == (v >> 24) as u8 && d[5] == (v >> 16) as u8
                && d[6] == (v >> 8) as u8 && d[7] == v as u8);
            lemma_rdu64(v, d);
        },
        ValueV::ByteArray(b) => {
            let v = b.len() as u32;
            assert(d[0] == (v >> 24) as u8 && d[1] == (v >> 16) as u8 && d[2] == (v >> 8) as u8
                && d[3] == v as u8);
            lemma_rdu32(v, d);
            assert(((b.len() as u32) as i32) == b.len());
            assert(d.subrange(4, 4 + (rdu32(d) as i32)) =~= b);
        },
        ValueV::String(s) => {
            let v = s.len() as u16;
            assert(d[0] == (v >> 8) as u8 && d[1] == v as u8);
            lemma_rdu16(v, d);
            assert(((s.len() as u16) as int) == s.len());
            assert(d.subrange(2, 2 + (rdu16(d) as int)) =~= s);
        },
        ValueV::List(l) => {
            let c = l.elems.len() as u32;
            assert(d[0] == l.etag.spec_byte());
            lemma_tag_byte(l.etag);
            assert(d.subrange(1, 5)[0] == (c >> 24) as u8 && d.subrange(1, 5)[1] == (c
                >> 16) as u8 && d.subrange(1, 5)[2] == (c >> 8) as u8 && d.subrange(1, 5)[3]
                == c as u8);
            lemma_rdu32(c, d.subrange(1, 5));
            assert(((l.elems.len() as u32) as i32) == l.elems.len());
            if l.etag == NbtTag::End {
                assert(l.elems =~= Seq::<ValueV>::empty());
                assert(wire_payloads(l.elems, 0) =~= Seq::<u8>::empty());
                assert(w == ValueV::List(ListV { etag: NbtTag::End, elems: Seq::empty() }));
            } else {
                assert(d.skip(5) =~= wire_payloads(l.elems, 0) + rest);
                lemma_rt_payloads(l.etag, l.elems, 0, rest);
                assert(l.elems.skip(0) =~= l.elems);
            }
        },
        ValueV::Compound(es) => {
            lemma_rt_entries(es, 0, rest);
            assert(wire_payload(w) =~= wire_entries(es, 0) + seq![0u8]);
            assert((wire_entries(es, 0) + seq![0u8]) + rest =~= wire_entries(es, 0) + (seq![0u8]
                + rest));
            assert(es.skip(0) =~= es);
        },
        ValueV::IntArray(a) => {
            let v = a.len() as u32;
            assert(d[0] == (v >> 24) as u8 && d[1] == (v >> 16) as u8 && d[2] == (v >> 8) as u8
                && d[3] == v as u8);
            lemma_rdu32(v, d);
            assert(((a.len() as u32) as i32) == a.len());
            assert(d.skip(4) =~= wire_ints(a) + rest);
            lemma_rt_ints(a, rest);
        },
        ValueV::LongArray(a) => {
            let v = a.len() as u32;
            assert(d[0] == (v >> 24) as u8 && d[1] == (v >> 16) as u8 && d[2] == (v >> 8) as u8
                && d[3] == v as u8);
            lemma_rdu32(v, d);
            assert(((a.len() as u32) as i32) == a.len());
            assert(d.skip(4) =~= wire_longs(a) + rest);
            lemma_rt_longs(a, rest);
        },
    }
}

/// Round trip of the payloads of `s` from `i` on.
proof fn lemma_rt_payloads(t: NbtTag, s: Seq<ValueV>, i: int, rest: Seq<u8>)
    requires
        0 <= i <= s.len(),
        t != NbtTag::End,
        encodable_payloads(s, i),
        wf_payloads(t, s, i),
    ensures
        sdec_payloads(t, (s.len() - i) as nat, wire_payloads(s, i) + rest) == Ok::<
            (Seq<ValueV>, nat),
            NbtError,
        >((s.skip(i), wire_payloads(s, i).len() as nat)),
    decreases s, 2int, s.len() - i,
{
    if i == s.len() {
        assert(wire_payloads(s, i) =~= Seq::<u8>::empty());
        assert(wire_payloads(s, i) + rest =~= rest);
        assert(s.skip(i) =~= Seq::<ValueV>::empty());
    } else {
        let d = wire_payloads(s, i) + rest;
        assert(wire_payloads(s, i) == wire_payload(s[i]) + wire_payloads(s, i + 1));
        assert(d =~= wire_payload(s[i]) + (wire_payloads(s, i + 1) + rest));
        lemma_rt_payload(s[i], wire_payloads(s, i + 1) + rest);
        let n = wire_payload(s[i]).len();
        assert(d.skip(n as int) =~= wire_payloads(s, i + 1) + rest);
        lemma_rt_payloads(t, s, i + 1, rest);
        assert(seq![s[i]] + s.skip(i + 1) =~= s.skip(i));
    }
}

/// Round trip of the entries of `es` from `i` on, with the terminating End
/// byte.
proof fn lemma_rt_entries(es: Seq<EntryV>, i: int, rest: Seq<u8>)
    requires
        0 <= i <= es.len(),
        encodable_entries(es, i),
        wf_entries(es, i),
    ensures
        sdec_entries(wire_entries(es, i) + (seq![0u8] + rest)) == Ok::<(Seq<EntryV>, nat), NbtError>(
            (es.skip(i), (wire_entries(es, i).len() + 1) as nat),
        ),
    decreases es, 2int, es.len() - i,
{
    if i == es.len() {
        assert(wire_entries(es, i) =~= Seq::<u8>::empty());
        assert(wire_entries(es, i) + (seq![0u8] + rest) =~= seq![0u8] + rest);
        assert((seq![0u8] + rest)[0] == 0);
        assert(es.skip(i) =~= Seq::<EntryV>::empty());
    } else {
        let e = es[i];
        let t = elem_tag(e.value);
        let nl = e.name.len() as u16;
        let d = wire_entries(es, i) + (seq![0u8] + rest);
        assert(wire_entries(es, i) == seq![t.spec_byte()] + sbe16(nl) + e.name + wire_payload(
            e.value,
        ) + wire_entries(es, i + 1));
        lemma_tag_byte(t);
        assert(d[0] == t.spec_byte());
        assert(d.subrange(1, 3)[0] == (nl >> 8) as u8 && d.subrange(1, 3)[1] == nl as u8);
        lemma_rdu16(nl, d.subrange(1, 3));
        assert(((e.name.len() as u16) as int) == e.name.len());
        assert(d.subrange(3, 3 + e.name.len() as int) =~= e.name);
        assert(d.skip(3 + e.name.len() as int) =~= wire_payload(e.value) + (wire_entries(
            es,
            i + 1,
        ) + (seq![0u8] + rest)));
        lemma_rt_payload(e.value, wire_entries(es, i + 1) + (seq![0u8] + rest));
        let n = wire_payload(e.value).len();
        assert(d.skip(3 + e.name.len() + n as int) =~= wire_entries(es, i + 1) + (seq![0u8]
            + rest));
        lemma_rt_entries(es, i + 1, rest);
        assert(seq![EntryV { name: e.name, value: e.value }] + es.skip(i + 1) =~= es.skip(i));
        assert(EntryV { name: d.subrange(3, 3 + e.name.len() as int), value: e.value } == EntryV {
            name: e.name,
            value: e.value,
        });
    }
}

/// Round trip of one tagged value: decoding the encoding of any
/// well-formed, carryable value, with anything after it, yields that value
/// back and consumes exactly its encoding.
pub proof fn lemma_nbt_roundtrip(w: ValueV, rest: Seq<u8>)
    requires
        encodable_payload(w),
        wf_payload(w),
    ensures
        sdec_value(wire_value(w) + rest) == Ok::<(ValueV, nat), NbtError>((
            w,
            wire_value(w).len() as nat,
        )),
{
    let d = wire_value(w) + rest;
    assert(d[0] == elem_tag(w).spec_byte());
    lemma_tag_byte(elem_tag(w));
    assert(d.skip(1) =~= wire_payload(w) + rest);
    lemma_rt_payload(w, rest);
}

} // verus!
