//! Actor identities and kinds, and the degree rules attached to each kind.

use vstd::prelude::*;

verus! {

/// The four kinds of actor that can appear in the topology. The kind of an
/// actor is fixed when the actor is created.
#[derive(Clone, Copy, Debug, PartialEq, Eq, Structural)]
pub enum ActorKind {
    /// A forwarding-only node; may link to any kind.
    Relay,
    /// A client that fetches files; links to relays only, at most two.
    WebClient,
    /// A client that exchanges chat messages; links to relays only, at most two.
    ChatClient,
    /// A server; links to relays only, at least two.
    Server,
}

/// The kinds of server a client can discover.
#[derive(Clone, Copy, Debug, PartialEq, Eq, Structural)]
pub enum ServerType {
    /// Hosts chat rooms.
    ChatServer,
    /// Serves text files.
    FileServer,
    /// Serves media files.
    MediaServer,
}

impl ActorKind {
    /// True for the two client kinds.
    pub open spec fn spec_is_client(self) -> bool {
        self == ActorKind::WebClient || self == ActorKind::ChatClient
    }

    /// Executable twin of [`Self::spec_is_client`].
    pub fn is_client(self) -> (r: bool)
        ensures
            r == self.spec_is_client(),
    {
        self == ActorKind::WebClient || self == ActorKind::ChatClient
    }

    /// The smallest degree an actor of this kind may be left with by a
    /// successful mutation: one link for relays and clients, two for servers.
    pub open spec fn min_degree(self) -> nat {
        if self == ActorKind::Server {
            2
        } else {
            1
        }
    }

    /// Executable twin of [`Self::min_degree`].
    pub fn min_degree_exec(self) -> (r: usize)
        ensures
            r == self.min_degree(),
    {
        if self == ActorKind::Server {
            2
        } else {
            1
        }
    }

    /// Whether an actor of this kind, currently of degree `d`, may accept one
    /// more link: clients are capped at two links, the other kinds are not
    /// bounded above.
    pub open spec fn may_gain_link(self, d: nat) -> bool {
        self.spec_is_client() ==> d < 2
    }

    /// Whether two actors of these kinds may be linked at all: relays link to
    /// anything, clients and servers only to relays.
    pub open spec fn spec_peers_allowed(self, other: ActorKind) -> bool {
        self == ActorKind::Relay || other == ActorKind::Relay
    }

    /// Executable twin of [`Self::spec_peers_allowed`].
    pub fn peers_allowed(self, other: ActorKind) -> (r: bool)
        ensures
            r == self.spec_peers_allowed(other),
    {
        self == ActorKind::Relay || other == ActorKind::Relay
    }
}

} // verus!
