//! Field codec contracts every packet field is built from: a read operation
//! over a byte buffer and position, a write operation into a byte sink, and
//! a static size hint.
use vstd::prelude::*;
use crate::err::{ReadError, WriteError};

verus! {

/// A decoding contract.  `sread` is the mathematical meaning of the wire
/// format: the value (as its deep view) and the bytes consumed at the head
/// of a byte sequence, or the error decoding owes there.  `read` must follow
/// it exactly.
pub trait ProtocolRead: Sized + DeepView {
    /// Value and consumed byte count, or error, that the wire format assigns
    /// to the head of `d`.
    spec fn sread(d: Seq<u8>) -> Result<(<Self as DeepView>::V, int), ReadError>;

    /// Decodes one value from `data` at `pos`, advancing `pos` past the
    /// bytes consumed; on an error `pos` is meaningless.
    fn read(data: &[u8], pos: &mut usize) -> (r: Result<Self, ReadError>)
        requires
            *old(pos) <= data@.len(),
        ensures
            match Self::sread(data@.skip(*old(pos) as int)) {
                Ok((v, n)) => r matches Ok(x) && x.deep_view() == v && 0 <= n && *final(pos)
                    == *old(pos) + n && *final(pos) <= data@.len(),
                Err(e) => r matches Err(e2) && e2 == e,
            },
    ;
}

/// An encoding contract.  `swire` is the exact byte image of a value and
/// `sencodable` says which values the wire format can carry at all; `write`
/// appends exactly that image, or reports the size-limit error.
pub trait ProtocolWrite: Sized + DeepView {
    /// Whether the wire format can carry this value.
    spec fn sencodable(v: <Self as DeepView>::V) -> bool;

    /// The exact byte image of the value.
    spec fn swire(v: <Self as DeepView>::V) -> Seq<u8>;

    /// Appends the byte image of `self` to `out`; on the size-limit error
    /// `out` may hold a partial image.
    fn write(self, out: &mut Vec<u8>) -> (r: Result<(), WriteError>)
        ensures
            Self::sencodable(self.deep_view()) ==> (r matches Ok(u) && final(out)@ == old(out)@
                + Self::swire(self.deep_view())),
            !Self::sencodable(self.deep_view()) ==> (r matches Err(e) && e
                == WriteError::StringTooLong),
    ;

    /// Worst-case or likely size of one encoded value: a pre-sizing hint
    /// only, with no bearing on correctness.
    fn size_hint() -> (n: usize);
}

/// Marks the wrapped integer as carried in the continuation-bit
/// variable-length encoding rather than fixed-width big-endian.
pub struct Var<T>(pub T);

impl<T: DeepView> DeepView for Var<T> {
    type V = <T as DeepView>::V;

    open spec fn deep_view(&self) -> Self::V {
        self.0.deep_view()
    }
}

/// One byte on the wire: 0 for false, 1 for true; any nonzero byte decodes
/// as true.
impl ProtocolRead for bool {
    open spec fn sread(d: Seq<u8>) -> Result<(bool, int), ReadError> {
        if d.len() < 1 {
            Err(ReadError::IoError)
        } else {
            Ok((d[0] != 0, 1))
        }
    }

    fn read(data: &[u8], pos: &mut usize) -> (r: Result<Self, ReadError>) {
        if data.len() - *pos < 1 {
            return Err(ReadError::IoError);
        }
        let b = data[*pos];
        *pos = *pos + 1;
        Ok(b != 0)
    }
}

impl ProtocolWrite for bool {
    open spec fn sencodable(v: bool) -> bool {
        true
    }

    open spec fn swire(v: bool) -> Seq<u8> {
        seq![if v { 1u8 } else { 0u8 }]
    }

    fn write(self, out: &mut Vec<u8>) -> (r: Result<(), WriteError>) {
        out.push(if self { 1u8 } else { 0u8 });
        proof {
            assert(out@ =~= old(out)@ + Self::swire(self));
        }
        Ok(())
    }

    fn size_hint() -> (n: usize) {
        1
    }
}

} // verus!
