//! The sockets of a node and what they carry.
use vstd::prelude::*;

verus! {

/// What a wire carries.
#[derive(Debug, Clone, Copy, PartialEq, Eq, Structural)]
pub enum PortType {
    /// A number, at every sub-block.
    Param,
    /// A signal of that many channels.
    Audio { channels: u16 },
    /// A stream of events.
    Note,
}

impl PortType {
    pub open spec fn is_audio(self) -> bool {
        self is Audio
    }

    /// Two channels of audio.
    pub fn stereo() -> (r: PortType)
        ensures
            r == (PortType::Audio { channels: 2 }),
    {
        PortType::Audio { channels: 2 }
    }

    pub fn carries_audio(self) -> (r: bool)
        ensures
            r == self.is_audio(),
    {
        match self {
            PortType::Audio { .. } => true,
            _ => false,
        }
    }
}

/// One socket of a node.
#[derive(Debug, Clone)]
pub struct Port {
    pub name: String,
    pub ty: PortType,
}

#[verifier::ext_equal]
pub struct Socket {
    pub name: Seq<char>,
    pub ty: PortType,
}

impl View for Port {
    type V = Socket;

    open spec fn view(&self) -> Socket {
        Socket { name: self.name@, ty: self.ty }
    }
}

pub open spec fn sockets(ports: Seq<Port>) -> Seq<Socket> {
    Seq::new(ports.len(), |i: int| ports[i]@)
}

/// How many of so many sockets have a number. A link names its sockets by numbers
/// that go from 0 to 255.
pub open spec fn numbered(count: nat) -> nat {
    if count < 256 {
        count
    } else {
        256
    }
}

pub fn numbered_sockets(count: usize) -> (r: usize)
    ensures
        r == numbered(count as nat),
{
    if count < 256 {
        count
    } else {
        256
    }
}

impl Port {
    pub fn new(name: &str, ty: PortType) -> (r: Port)
        ensures
            r@ == (Socket { name: name@, ty }),
    {
        Port { name: name.to_string(), ty }
    }
}

} // verus!
