//! Typed failure reasons for topology mutations, and the fatal faults that
//! the surrounding protocol promises can never happen.

use vstd::prelude::*;

verus! {

/// Why a requested mutation was rejected. Every variant is recoverable and is
/// reported to the caller; none of them panics.
#[derive(Clone, Copy, Debug, PartialEq, Eq)]
pub enum Reason {
    /// A link from an actor to itself was requested.
    SelfLoop,
    /// The requested link already exists.
    AlreadyConnected,
    /// The two kinds may not be linked (client-client, client-server,
    /// server-server).
    PeerKindNotAllowed,
    /// Adding the link would push the named client past its two-link cap.
    DegreeExceeded(u8),
    /// Removing the link would drop an endpoint below its minimum degree.
    /// The second field names the other endpoint when both would fall short.
    MinDegreeViolation(u8, Option<u8>),
    /// Crashing the relay would drop the named neighbor below its minimum
    /// degree.
    NeighborMinDegreeViolation(u8),
    /// The mutation would split the graph into more than one component.
    WouldDisconnectGraph,
    /// The mutation would leave the named client unable to reach every
    /// server through relays.
    WouldBreakReachability(u8),
    /// The named actor is not part of the topology.
    NodeNotFound,
    /// The textual actor id could not be parsed.
    ParseError,
}

impl Reason {
    /// A short human-readable description, for display by the caller.
    pub fn describe(&self) -> (r: String)
        ensures
            match self {
                Reason::SelfLoop => r@ == "cannot link an actor to itself"@,
                Reason::AlreadyConnected => r@ == "the actors are already linked"@,
                Reason::PeerKindNotAllowed => r@ == "these actor kinds may not be linked"@,
                Reason::DegreeExceeded(_) => r@ == "the client already has two links"@,
                Reason::MinDegreeViolation(_, _) => r@
                    == "an endpoint would fall below its minimum degree"@,
                Reason::NeighborMinDegreeViolation(_) => r@
                    == "a neighbor would fall below its minimum degree"@,
                Reason::WouldDisconnectGraph => r@ == "the graph would become disconnected"@,
                Reason::WouldBreakReachability(_) => r@
                    == "a client would no longer reach every server"@,
                Reason::NodeNotFound => r@ == "no actor with that id exists"@,
                Reason::ParseError => r@ == "the actor id could not be parsed"@,
            },
    {
        match self {
            Reason::SelfLoop => "cannot link an actor to itself".to_owned(),
            Reason::AlreadyConnected => "the actors are already linked".to_owned(),
            Reason::PeerKindNotAllowed => "these actor kinds may not be linked".to_owned(),
            Reason::DegreeExceeded(_) => "the client already has two links".to_owned(),
            Reason::MinDegreeViolation(_, _) => "an endpoint would fall below its minimum degree".to_owned(),
            Reason::NeighborMinDegreeViolation(_) => "a neighbor would fall below its minimum degree".to_owned(),
            Reason::WouldDisconnectGraph => "the graph would become disconnected".to_owned(),
            Reason::WouldBreakReachability(_) => "a client would no longer reach every server".to_owned(),
            Reason::NodeNotFound => "no actor with that id exists".to_owned(),
            Reason::ParseError => "the actor id could not be parsed".to_owned(),
        }
    }
}

/// A breach of the actor protocol's own guarantees. These are programming
/// contract violations: the caller is expected to stop the simulation when
/// one surfaces.
#[derive(Clone, Copy, Debug, PartialEq, Eq)]
pub enum Fatal {
    /// A shortcut packet carried no destination in its routing header.
    ShortcutWithoutDestination,
    /// A shortcut packet named a destination that is not registered.
    UnknownShortcutDestination(u8),
    /// A send to the named actor failed after validation: the actor's
    /// channel is gone, breaking the liveness assumption that actors stay
    /// responsive for the simulation's lifetime.
    CommandChannelClosed(u8),
}

impl Fatal {
    /// A short human-readable description, for display before aborting.
    pub fn describe(&self) -> (r: String)
        ensures
            match self {
                Fatal::ShortcutWithoutDestination => r@
                    == "shortcut packet carries no destination"@,
                Fatal::UnknownShortcutDestination(_) => r@
                    == "shortcut packet names an unknown destination"@,
                Fatal::CommandChannelClosed(_) => r@
                    == "an actor's command or packet channel is closed"@,
            },
    {
        match self {
            Fatal::ShortcutWithoutDestination => "shortcut packet carries no destination".to_owned(),
            Fatal::UnknownShortcutDestination(_) => "shortcut packet names an unknown destination".to_owned(),
            Fatal::CommandChannelClosed(_) => "an actor's command or packet channel is closed".to_owned(),
        }
    }
}

} // verus!
