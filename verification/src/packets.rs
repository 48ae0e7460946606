//! Concrete packet and field types of the handshake flow, written against
//! the field codec contracts.
use vstd::prelude::*;
use crate::err::{ReadError, WriteError, InvalidEnumId};
use crate::netty::{ProtocolRead, ProtocolWrite, Var};
use crate::strings::Utf8String;

verus! {

/// Next connection state requested by a handshake; carried as a
/// variable-length 32-bit discriminant, 1 for status and 2 for login.
#[derive(Clone, Copy, Debug, PartialEq, Eq, Structural)]
pub enum NextState0 {
    Status,
    Login,
}

impl NextState0 {
    /// Wire discriminant of the state.
    pub open spec fn spec_id(self) -> i32 {
        match self {
            NextState0::Status => 1,
            NextState0::Login => 2,
        }
    }

    /// Wire discriminant of the state.
    pub fn id(self) -> (n: i32)
        ensures
            n == self.spec_id(),
    {
        match self {
            NextState0::Status => 1,
            NextState0::Login => 2,
        }
    }

    /// The state a discriminant stands for: 1 and 2 are declared, every
    /// other value is the invalid-enum error.
    pub fn try_from(value: i32) -> (r: Result<NextState0, InvalidEnumId>)
        ensures
            value == 1 ==> (r matches Ok(s) && s == NextState0::Status),
            value == 2 ==> (r matches Ok(s) && s == NextState0::Login),
            value != 1 && value != 2 ==> (r matches Err(e) && e == InvalidEnumId),
    {
        match value {
            1 => Ok(NextState0::Status),
            2 => Ok(NextState0::Login),
            _ => Err(InvalidEnumId),
        }
    }
}

impl DeepView for NextState0 {
    type V = NextState0;

    open spec fn deep_view(&self) -> NextState0 {
        *self
    }
}

impl ProtocolRead for NextState0 {
    open spec fn sread(d: Seq<u8>) -> Result<(NextState0, int), ReadError> {
        match <Var<i32> as ProtocolRead>::sread(d) {
            Ok((v, n)) => if v == 1 {
                Ok((NextState0::Status, n))
            } else if v == 2 {
                Ok((NextState0::Login, n))
            } else {
                Err(ReadError::InvalidEnumId)
            },
            Err(e) => Err(e),
        }
    }

    fn read(data: &[u8], pos: &mut usize) -> (r: Result<Self, ReadError>) {
        match <Var<i32> as ProtocolRead>::read(data, pos) {
            Ok(Var(v)) => match NextState0::try_from(v) {
                Ok(s) => Ok(s),
                Err(e) => Err(ReadError::InvalidEnumId),
            },
            Err(e) => Err(e),
        }
    }
}

impl ProtocolWrite for NextState0 {
    open spec fn sencodable(v: NextState0) -> bool {
        true
    }

    open spec fn swire(v: NextState0) -> Seq<u8> {
        <Var<i32> as ProtocolWrite>::swire(v.spec_id())
    }

    fn write(self, out: &mut Vec<u8>) -> (r: Result<(), WriteError>) {
        Var(self.id()).write(out)
    }

    fn size_hint() -> (n: usize) {
        1
    }
}

/// Animation identifier; carried as a variable-length 32-bit discriminant
/// with a reserved gap before the unknown entry at 102.
#[derive(Clone, Copy, Debug, PartialEq, Eq, Structural)]
pub enum AnimationId0 {
    NoAnimation,
    SwingArm,
    Damage,
    LeaveBed,
    EatFood,
    Crit,
    MagicCrit,
    Unknown,
    Crouch,
    Uncrouch,
}

impl AnimationId0 {
    /// Wire discriminant of the animation; the declared set is 0 through 6
    /// and 102 through 104.
    pub open spec fn spec_id(self) -> i32 {
        match self {
            AnimationId0::NoAnimation => 0,
            AnimationId0::SwingArm => 1,
            AnimationId0::Damage => 2,
            AnimationId0::LeaveBed => 3,
            AnimationId0::EatFood => 4,
            AnimationId0::Crit => 5,
            AnimationId0::MagicCrit => 6,
            AnimationId0::Unknown => 102,
            AnimationId0::Crouch => 103,
            AnimationId0::Uncrouch => 104,
        }
    }

    /// Wire discriminant of the animation.
    pub fn id(self) -> (n: i32)
        ensures
            n == self.spec_id(),
    {
        match self {
            AnimationId0::NoAnimation => 0,
            AnimationId0::SwingArm => 1,
            AnimationId0::Damage => 2,
            AnimationId0::LeaveBed => 3,
            AnimationId0::EatFood => 4,
            AnimationId0::Crit => 5,
            AnimationId0::MagicCrit => 6,
            AnimationId0::Unknown => 102,
            AnimationId0::Crouch => 103,
            AnimationId0::Uncrouch => 104,
        }
    }

    /// The animation a discriminant stands for; a value in the gap or
    /// outside the declared set is the invalid-enum error.
    pub fn try_from(value: i32) -> (r: Result<AnimationId0, InvalidEnumId>)
        ensures
            match r {
                Ok(a) => a.spec_id() == value,
                Err(e) => e == InvalidEnumId && forall|a: AnimationId0| a.spec_id() != value,
            },
    {
        match value {
            0 => Ok(AnimationId0::NoAnimation),
            1 => Ok(AnimationId0::SwingArm),
            2 => Ok(AnimationId0::Damage),
            3 => Ok(AnimationId0::LeaveBed),
            4 => Ok(AnimationId0::EatFood),
            5 => Ok(AnimationId0::Crit),
            6 => Ok(AnimationId0::MagicCrit),
            102 => Ok(AnimationId0::Unknown),
            103 => Ok(AnimationId0::Crouch),
            104 => Ok(AnimationId0::Uncrouch),
            _ => {
                proof {
                    assert forall|a: AnimationId0| a.spec_id() != value by {}
                }
                Err(InvalidEnumId)
            },
        }
    }
}

impl DeepView for AnimationId0 {
    type V = AnimationId0;

    open spec fn deep_view(&self) -> AnimationId0 {
        *self
    }
}

impl ProtocolRead for AnimationId0 {
    open spec fn sread(d: Seq<u8>) -> Result<(AnimationId0, int), ReadError> {
        match <Var<i32> as ProtocolRead>::sread(d) {
            Ok((v, n)) => if exists|a: AnimationId0| a.spec_id() == v {
                Ok(((choose|a: AnimationId0| a.spec_id() == v), n))
            } else {
                Err(ReadError::InvalidEnumId)
            },
            Err(e) => Err(e),
        }
    }

    fn read(data: &[u8], pos: &mut usize) -> (r: Result<Self, ReadError>) {
        match <Var<i32> as ProtocolRead>::read(data, pos) {
            Ok(Var(v)) => match AnimationId0::try_from(v) {
                Ok(a) => {
                    proof {
                        let w = choose|b: AnimationId0| b.spec_id() == v;
                        assert(w.spec_id() == a.spec_id());
                        assert(w == a);
                    }
                    Ok(a)
                },
                Err(e) => Err(ReadError::InvalidEnumId),
            },
            Err(e) => Err(e),
        }
    }
}

impl ProtocolWrite for AnimationId0 {
    open spec fn sencodable(v: AnimationId0) -> bool {
        true
    }

    open spec fn swire(v: AnimationId0) -> Seq<u8> {
        <Var<i32> as ProtocolWrite>::swire(v.spec_id())
    }

    fn write(self, out: &mut Vec<u8>) -> (r: Result<(), WriteError>) {
        Var(self.id()).write(out)
    }

    fn size_hint() -> (n: usize) {
        1
    }
}

/// A rotation carried as a single byte.
pub struct Angle(pub u8);

impl DeepView for Angle {
    type V = u8;

    open spec fn deep_view(&self) -> u8 {
        self.0
    }
}

impl ProtocolRead for Angle {
    open spec fn sread(d: Seq<u8>) -> Result<(u8, int), ReadError> {
        <u8 as ProtocolRead>::sread(d)
    }

    fn read(data: &[u8], pos: &mut usize) -> (r: Result<Self, ReadError>) {
        match <u8 as ProtocolRead>::read(data, pos) {
            Ok(b) => Ok(Angle(b)),
            Err(e) => Err(e),
        }
    }
}

impl ProtocolWrite for Angle {
    open spec fn sencodable(v: u8) -> bool {
        true
    }

    open spec fn swire(v: u8) -> Seq<u8> {
        <u8 as ProtocolWrite>::swire(v)
    }

    fn write(self, out: &mut Vec<u8>) -> (r: Result<(), WriteError>) {
        self.0.write(out)
    }

    fn size_hint() -> (n: usize) {
        1
    }
}

/// Mathematical image of a handshake packet.
pub struct Handshake0V {
    pub protocol_version: i32,
    pub server_address: Seq<u8>,
    pub server_port: u16,
    pub next_state: NextState0,
}

/// The first packet of a connection: protocol version as a variable-length
/// integer, server address string, server port, and the requested next
/// state.
#[derive(Debug)]
pub struct Handshake0 {
    pub protocol_version: i32,
    pub server_address: Utf8String,
    pub server_port: u16,
    pub next_state: NextState0,
}

impl DeepView for Handshake0 {
    type V = Handshake0V;

    open spec fn deep_view(&self) -> Handshake0V {
        Handshake0V {
            protocol_version: self.protocol_version,
            server_address: self.server_address.bytes@,
            server_port: self.server_port,
            next_state: self.next_state,
        }
    }
}

impl ProtocolRead for Handshake0 {
    open spec fn sread(d: Seq<u8>) -> Result<(Handshake0V, int), ReadError> {
        match <Var<i32> as ProtocolRead>::sread(d) {
            Ok((pv, n1)) => match <Utf8String as ProtocolRead>::sread(d.skip(n1)) {
                Ok((addr, n2)) => match <u16 as ProtocolRead>::sread(d.skip(n1 + n2)) {
                    Ok((port, n3)) => match <NextState0 as ProtocolRead>::sread(
                        d.skip(n1 + n2 + n3),
                    ) {
                        Ok((ns, n4)) => Ok(
                            (
                                Handshake0V {
                                    protocol_version: pv,
                                    server_address: addr,
                                    server_port: port,
                                    next_state: ns,
                                },
                                n1 + n2 + n3 + n4,
                            ),
                        ),
                        Err(e) => Err(e),
                    },
                    Err(e) => Err(e),
                },
                Err(e) => Err(e),
            },
            Err(e) => Err(e),
        }
    }

    fn read(data: &[u8], pos: &mut usize) -> (r: Result<Self, ReadError>) {
        let ghost d = data@.skip(*old(pos) as int);
        let pv = match <Var<i32> as ProtocolRead>::read(data, pos) {
            Ok(Var(v)) => v,
            Err(e) => {
                return Err(e);
            },
        };
        proof {
            assert(d.skip(*pos - *old(pos)) =~= data@.skip(*pos as int));
        }
        let addr = match <Utf8String as ProtocolRead>::read(data, pos) {
            Ok(s) => s,
            Err(e) => {
                return Err(e);
            },
        };
        proof {
            assert(d.skip(*pos - *old(pos)) =~= data@.skip(*pos as int));
        }
        let port = match <u16 as ProtocolRead>::read(data, pos) {
            Ok(p) => p,
            Err(e) => {
                return Err(e);
            },
        };
        proof {
            assert(d.skip(*pos - *old(pos)) =~= data@.skip(*pos as int));
        }
        let ns = match <NextState0 as ProtocolRead>::read(data, pos) {
            Ok(s) => s,
            Err(e) => {
                return Err(e);
            },
        };
        Ok(
            Handshake0 {
                protocol_version: pv,
                server_address: addr,
                server_port: port,
                next_state: ns,
            },
        )
    }
}

impl ProtocolWrite for Handshake0 {
    open spec fn sencodable(v: Handshake0V) -> bool {
        <Utf8String as ProtocolWrite>::sencodable(v.server_address)
    }

    open spec fn swire(v: Handshake0V) -> Seq<u8> {
        <Var<i32> as ProtocolWrite>::swire(v.protocol_version) + <Utf8String as ProtocolWrite>::swire(
            v.server_address,
        ) + <u16 as ProtocolWrite>::swire(v.server_port) + <NextState0 as ProtocolWrite>::swire(
            v.next_state,
        )
    }

    fn write(self, out: &mut Vec<u8>) -> (r: Result<(), WriteError>) {
        let ghost dv = self.deep_view();
        match Var(self.protocol_version).write(out) {
            Ok(u) => {},
            Err(e) => {
                return Err(e);
            },
        }
        match self.server_address.write(out) {
            Ok(u) => {},
            Err(e) => {
                return Err(e);
            },
        }
        match self.server_port.write(out) {
            Ok(u) => {},
            Err(e) => {
                return Err(e);
            },
        }
        match self.next_state.write(out) {
            Ok(u) => {},
            Err(e) => {
                return Err(e);
            },
        }
        proof {
            assert(out@ =~= old(out)@ + Self::swire(dv));
        }
        Ok(())
    }

    fn size_hint() -> (n: usize) {
        12
    }
}

} // verus!
