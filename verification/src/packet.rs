//! The packets that actors hand to the controller: a routing header plus a
//! tag saying what kind of payload travelled. The controller never decodes
//! payloads; it only reads the header's final hop when asked to deliver a
//! packet out of band.

use vstd::prelude::*;

verus! {

/// The payload kinds a packet can carry.
#[derive(Clone, Copy, Debug, PartialEq, Eq, Structural)]
pub enum PacketKind {
    /// A fragment of an application message.
    MsgFragment,
    /// A positive acknowledgement.
    Ack,
    /// A negative acknowledgement.
    Nack,
    /// A network-discovery request.
    FloodRequest,
    /// A network-discovery response.
    FloodResponse,
}

impl PacketKind {
    /// A display label for the kind.
    pub fn name(&self) -> (r: &'static str)
        ensures
            match self {
                PacketKind::MsgFragment => r@ == "MsgFragment"@,
                PacketKind::Ack => r@ == "Ack"@,
                PacketKind::Nack => r@ == "Nack"@,
                PacketKind::FloodRequest => r@ == "FloodRequest"@,
                PacketKind::FloodResponse => r@ == "FloodResponse"@,
            },
    {
        match self {
            PacketKind::MsgFragment => "MsgFragment",
            PacketKind::Ack => "Ack",
            PacketKind::Nack => "Nack",
            PacketKind::FloodRequest => "FloodRequest",
            PacketKind::FloodResponse => "FloodResponse",
        }
    }
}

/// The source-routing header: the planned hops, and how far along them the
/// packet has come.
pub struct RoutingHeader {
    /// The planned path, first hop first.
    pub hops: Vec<u8>,
    /// Index of the hop the packet sits at.
    pub hop_index: usize,
}

impl RoutingHeader {
    /// The final hop, if the path names any.
    pub open spec fn spec_destination(self) -> Option<u8> {
        if self.hops@.len() == 0 {
            None
        } else {
            Some(self.hops@.last())
        }
    }

    /// Executable twin of [`Self::spec_destination`].
    pub fn destination(&self) -> (r: Option<u8>)
        ensures
            r == self.spec_destination(),
    {
        let n = self.hops.len();
        if n == 0 {
            None
        } else {
            Some(self.hops[n - 1])
        }
    }
}

/// A packet as the controller sees it.
pub struct Packet {
    /// What kind of payload it carries.
    pub kind: PacketKind,
    /// Its routing header.
    pub routing: RoutingHeader,
}

impl Packet {
    /// The packet's final hop, read from its routing header.
    pub fn destination(&self) -> (r: Option<u8>)
        ensures
            r == self.routing.spec_destination(),
    {
        self.routing.destination()
    }
}

} // verus!
