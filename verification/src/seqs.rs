//! Generic counted sequences: a count prefix followed by that many elements
//! in order, with a pluggable prefix type.
use vstd::prelude::*;
use core::marker::PhantomData;
use crate::err::{ReadError, WriteError};
use crate::netty::{ProtocolRead, ProtocolWrite, Var};
use crate::varint::{varint_bytes, sdec_varint, encode_varint, decode_varint};

verus! {

/// Byte image of the elements of `s`, in order, with no count.
pub open spec fn swire_elems<T: ProtocolWrite>(s: Seq<<T as DeepView>::V>) -> Seq<u8>
    decreases s.len(),
{
    if s.len() == 0 {
        Seq::empty()
    } else {
        T::swire(s[0]) + swire_elems::<T>(s.skip(1))
    }
}

/// Whether the wire format can carry every element of `s`.
pub open spec fn sencodable_elems<T: ProtocolWrite>(s: Seq<<T as DeepView>::V>) -> bool {
    forall|i: int| 0 <= i < s.len() ==> T::sencodable(#[trigger] s[i])
}

/// Reading `count` elements one after another from `d`, starting at offset
/// `from`, after `acc` were already read: the elements and the end offset,
/// or the first element error.
pub open spec fn sread_elems<T: ProtocolRead>(
    d: Seq<u8>,
    from: int,
    count: nat,
    acc: Seq<<T as DeepView>::V>,
) -> Result<(Seq<<T as DeepView>::V>, int), ReadError>
    decreases count,
{
    if count == 0 {
        Ok((acc, from))
    } else {
        match T::sread(d.skip(from)) {
            Ok((v, n)) => sread_elems::<T>(d, from + n, (count - 1) as nat, acc.push(v)),
            Err(e) => Err(e),
        }
    }
}

/// Reads `count` elements from `data` at `pos`, appending to an empty
/// vector, exactly as `sread_elems` says over the buffer tail that begins
/// at `base`.
fn read_elems<T: ProtocolRead>(data: &[u8], pos: &mut usize, count: usize, base: Ghost<int>) -> (r:
    Result<Vec<T>, ReadError>)
    requires
        0 <= base@ <= *old(pos) <= data@.len(),
    ensures
        match sread_elems::<T>(data@.skip(base@), *old(pos) - base@, count as nat, Seq::empty()) {
            Ok((v, end)) => r matches Ok(x) && x.deep_view() == v && *old(pos) - base@ <= end
                && *final(pos) == base@ + end && *final(pos) <= data@.len(),
            Err(e) => r matches Err(e2) && e2 == e,
        },
{
    let ghost d0 = data@.skip(base@);
    let ghost target = sread_elems::<T>(d0, *old(pos) - base@, count as nat, Seq::empty());
    let mut v: Vec<T> = Vec::new();
    let mut i: usize = 0;
    proof {
        assert(v.deep_view() =~= Seq::<<T as DeepView>::V>::empty());
    }
    while i < count
        invariant
            i <= count,
            0 <= base@ <= *old(pos) <= *pos <= data@.len(),
            d0 == data@.skip(base@),
            target == sread_elems::<T>(d0, *old(pos) - base@, count as nat, Seq::empty()),
            sread_elems::<T>(d0, *pos - base@, (count - i) as nat, v.deep_view()) == target,
        decreases count - i,
    {
        let ghost pre = v.deep_view();
        let ghost prepos = *pos;
        proof {
            assert(d0.skip(prepos - base@) =~= data@.skip(prepos as int));
        }
        match T::read(data, pos) {
            Ok(x) => {
                v.push(x);
                proof {
                    assert(v.deep_view() =~= pre.push(x.deep_view()));
                }
            },
            Err(e) => {
                proof {
                    assert(target == Err::<(Seq<<T as DeepView>::V>, int), ReadError>(e));
                }
                return Err(e);
            },
        }
        i = i + 1;
    }
    Ok(v)
}

/// Writes the elements of `v` one after another, exactly as `swire_elems`
/// says; stops at the first element the wire format cannot carry.
fn write_elems<T: ProtocolWrite>(v: Vec<T>, out: &mut Vec<u8>) -> (r: Result<(), WriteError>)
    ensures
        sencodable_elems::<T>(v.deep_view()) ==> (r matches Ok(u) && final(out)@ == old(out)@
            + swire_elems::<T>(v.deep_view())),
        !sencodable_elems::<T>(v.deep_view()) ==> (r matches Err(e) && e
            == WriteError::StringTooLong),
{
    let ghost orig = v.deep_view();
    let mut rest = v;
    loop
        invariant_except_break
            orig == v.deep_view(),
            out@ + swire_elems::<T>(rest.deep_view()) == old(out)@ + swire_elems::<T>(orig),
            sencodable_elems::<T>(orig) <==> sencodable_elems::<T>(rest.deep_view()),
        ensures
            sencodable_elems::<T>(orig) && out@ == old(out)@ + swire_elems::<T>(orig),
        decreases rest.len(),
    {
        let ghost rem = rest.deep_view();
        if rest.len() == 0 {
            proof {
                assert(rem =~= Seq::<<T as DeepView>::V>::empty());
                assert(swire_elems::<T>(rem) =~= Seq::<u8>::empty());
                assert(out@ =~= out@ + swire_elems::<T>(rem));
                assert(sencodable_elems::<T>(rem));
            }
            break;
        }
        let x = rest.remove(0);
        proof {
            assert(x.deep_view() == rem[0]);
            assert(rest.deep_view() =~= rem.skip(1));
        }
        let ghost mid = out@;
        match x.write(out) {
            Ok(u) => {
                proof {
                    assert(T::sencodable(rem[0]));
                    assert(swire_elems::<T>(rem) == T::swire(rem[0]) + swire_elems::<T>(
                        rem.skip(1),
                    ));
                    assert(out@ + swire_elems::<T>(rest.deep_view()) =~= mid + swire_elems::<T>(rem));
                    assert(sencodable_elems::<T>(rem.skip(1)) ==> sencodable_elems::<T>(rem)) by {
                        if sencodable_elems::<T>(rem.skip(1)) {
                            assert forall|i: int| 0 <= i < rem.len() implies T::sencodable(
                                #[trigger] rem[i],
                            ) by {
                                if i > 0 {
                                    assert(rem[i] == rem.skip(1)[i - 1]);
                                }
                            }
                        }
                    }
                    assert(sencodable_elems::<T>(rem) ==> sencodable_elems::<T>(rem.skip(1))) by {
                        if sencodable_elems::<T>(rem) {
                            assert forall|i: int| 0 <= i < rem.skip(1).len() implies T::sencodable(
                                #[trigger] rem.skip(1)[i],
                            ) by {
                                assert(rem.skip(1)[i] == rem[i + 1]);
                            }
                        }
                    }
                }
            },
            Err(e) => {
                proof {
                    assert(!T::sencodable(rem[0]));
                    assert(!sencodable_elems::<T>(rem));
                    assert(!sencodable_elems::<T>(orig));
                }
                return Err(e);
            },
        }
    }
    Ok(())
}

/// Length-prefixed sequence with the default count prefix, a variable-length
/// unsigned 32-bit count; the count of an overlong vector wraps at 32 bits,
/// as the encoding cannot carry more.
impl<T: ProtocolRead> ProtocolRead for Vec<T> {
    open spec fn sread(d: Seq<u8>) -> Result<(Seq<<T as DeepView>::V>, int), ReadError> {
        match sdec_varint(d, 5) {
            Ok((cv, n)) => sread_elems::<T>(d, n as int, (cv as u32) as nat, Seq::empty()),
            Err(e) => Err(e),
        }
    }

    fn read(data: &[u8], pos: &mut usize) -> (r: Result<Self, ReadError>) {
        let ghost base = *old(pos) as int;
        match decode_varint(data, pos, 5) {
            Ok(cv) => {
                let count32 = #[verifier::truncate] (cv as u32);
                let count = count32 as usize;
                read_elems::<T>(data, pos, count, Ghost(base))
            },
            Err(e) => Err(e),
        }
    }
}

/// Length-prefixed sequence write: a variable-length 32-bit count, then the
/// elements in order.
impl<T: ProtocolWrite> ProtocolWrite for Vec<T> {
    open spec fn sencodable(v: Seq<<T as DeepView>::V>) -> bool {
        sencodable_elems::<T>(v)
    }

    open spec fn swire(v: Seq<<T as DeepView>::V>) -> Seq<u8> {
        varint_bytes((v.len() as u32) as u128) + swire_elems::<T>(v)
    }

    fn write(self, out: &mut Vec<u8>) -> (r: Result<(), WriteError>) {
        let ghost dv = self.deep_view();
        let len32 = #[verifier::truncate] (self.len() as u32);
        encode_varint(len32 as u128, out);
        let ghost mid = out@;
        let r = write_elems::<T>(self, out);
        proof {
            if sencodable_elems::<T>(dv) {
                assert(out@ =~= old(out)@ + Self::swire(dv));
            }
        }
        r
    }

    fn size_hint() -> (n: usize) {
        1
    }
}

/// A count-prefix codec: an integer field type whose values stand for
/// element counts of a following sequence.
pub trait LenType: ProtocolRead + ProtocolWrite {
    /// The count a decoded prefix value stands for; never negative.
    spec fn len_of(v: <Self as DeepView>::V) -> int;

    /// Whether this prefix type can carry count `n`.
    spec fn len_ok(n: int) -> bool;

    /// The prefix value that carries count `n`.
    spec fn of_len(n: int) -> <Self as DeepView>::V;

    /// The count this prefix value stands for.
    fn into_len(self) -> (n: usize)
        ensures
            n == Self::len_of(self.deep_view()),
    ;

    /// The prefix value for count `n`, or the size-limit error when this
    /// prefix type cannot carry it.
    fn from_len(n: usize) -> (r: Result<Self, WriteError>)
        ensures
            Self::len_ok(n as int) ==> (r matches Ok(x) && x.deep_view() == Self::of_len(n as int)
                && Self::len_of(x.deep_view()) == n && Self::sencodable(x.deep_view())),
            !Self::len_ok(n as int) ==> (r matches Err(e) && e == WriteError::StringTooLong),
    ;
}

impl LenType for Var<u32> {
    open spec fn len_of(v: u32) -> int {
        v as int
    }

    open spec fn len_ok(n: int) -> bool {
        0 <= n <= 0xffff_ffff
    }

    open spec fn of_len(n: int) -> u32 {
        n as u32
    }

    fn into_len(self) -> (n: usize) {
        self.0 as usize
    }

    fn from_len(n: usize) -> (r: Result<Self, WriteError>) {
        if n > 0xffff_ffff {
            Err(WriteError::StringTooLong)
        } else {
            Ok(Var(n as u32))
        }
    }
}

impl LenType for u8 {
    open spec fn len_of(v: u8) -> int {
        v as int
    }

    open spec fn len_ok(n: int) -> bool {
        0 <= n <= 0xff
    }

    open spec fn of_len(n: int) -> u8 {
        n as u8
    }

    fn into_len(self) -> (n: usize) {
        self as usize
    }

    fn from_len(n: usize) -> (r: Result<Self, WriteError>) {
        if n > 0xff {
            Err(WriteError::StringTooLong)
        } else {
            Ok(n as u8)
        }
    }
}

impl LenType for u16 {
    open spec fn len_of(v: u16) -> int {
        v as int
    }

    open spec fn len_ok(n: int) -> bool {
        0 <= n <= 0xffff
    }

    open spec fn of_len(n: int) -> u16 {
        n as u16
    }

    fn into_len(self) -> (n: usize) {
        self as usize
    }

    fn from_len(n: usize) -> (r: Result<Self, WriteError>) {
        if n > 0xffff {
            Err(WriteError::StringTooLong)
        } else {
            Ok(n as u16)
        }
    }
}

/// A sequence paired at the type level with a fixed element count.
pub struct Count<T, const C: usize> {
    pub inner: T,
}

/// A counted sequence whose count travels as the prefix type `C` rather
/// than the default variable-length 32-bit count.
pub struct CountType<T, C> {
    pub inner: T,
    pub marker: PhantomData<C>,
}

impl<T, C> CountType<T, C> {
    /// Pairs a sequence with its count-prefix type.
    pub fn new(inner: T) -> (r: CountType<T, C>)
        ensures
            r.inner == inner,
    {
        CountType { inner, marker: PhantomData }
    }
}

impl<T: DeepView, C> DeepView for CountType<T, C> {
    type V = <T as DeepView>::V;

    open spec fn deep_view(&self) -> Self::V {
        self.inner.deep_view()
    }
}

impl<T: ProtocolRead, C: LenType> ProtocolRead for CountType<Vec<T>, C> {
    open spec fn sread(d: Seq<u8>) -> Result<(Seq<<T as DeepView>::V>, int), ReadError> {
        match C::sread(d) {
            Ok((cv, n)) => if C::len_of(cv) >= 0 {
                sread_elems::<T>(d, n, C::len_of(cv) as nat, Seq::empty())
            } else {
                Err(ReadError::IoError)
            },
            Err(e) => Err(e),
        }
    }

    fn read(data: &[u8], pos: &mut usize) -> (r: Result<Self, ReadError>) {
        let ghost base = *old(pos) as int;
        match C::read(data, pos) {
            Ok(c) => {
                let count = c.into_len();
                match read_elems::<T>(data, pos, count, Ghost(base)) {
                    Ok(v) => Ok(CountType { inner: v, marker: PhantomData }),
                    Err(e) => Err(e),
                }
            },
            Err(e) => Err(e),
        }
    }
}

impl<T: ProtocolWrite, C: LenType> ProtocolWrite for CountType<Vec<T>, C> {
    open spec fn sencodable(v: Seq<<T as DeepView>::V>) -> bool {
        C::len_ok(v.len() as int) && sencodable_elems::<T>(v)
    }

    open spec fn swire(v: Seq<<T as DeepView>::V>) -> Seq<u8> {
        C::swire(C::of_len(v.len() as int)) + swire_elems::<T>(v)
    }

    fn write(self, out: &mut Vec<u8>) -> (r: Result<(), WriteError>) {
        let ghost dv = self.deep_view();
        let len = self.inner.len();
        let c = match C::from_len(len) {
            Ok(c) => c,
            Err(e) => {
                return Err(e);
            },
        };
        match c.write(out) {
            Ok(u) => {},
            Err(e) => {
                return Err(e);
            },
        }
        let r = write_elems::<T>(self.inner, out);
        proof {
            if Self::sencodable(dv) {
                assert(out@ =~= old(out)@ + Self::swire(dv));
            }
        }
        r
    }

    fn size_hint() -> (n: usize) {
        <C as ProtocolWrite>::size_hint()
    }
}

} // verus!
