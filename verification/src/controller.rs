//! The simulation controller: the single owner of the topology store and the
//! actor registry.
//!
//! Structural requests go through the validator first; only a validated
//! mutation is executed, by announcing it to the affected actors over their
//! command channels and then bringing the graph in line. Command sends are
//! fire-and-forget: the design assumes actors never permanently block on
//! their command channels, and no acknowledgement is awaited.

use crossbeam_channel::Sender;
use vstd::prelude::*;
use vstd::string::StringSliceAdditionalSpecFns;

use crate::actor::ActorKind;
use crate::channels::{channel_new, channel_send, channel_try_recv, sender_clone};
use crate::errors::{Fatal, Reason};
use crate::event_queue::EventQueue;
use crate::messages::{
    ChatClientCommand, ChatClientEvent, Event, Notification, NotificationDetail, RelayCommand,
    RelayEvent, ServerCommand, ServerEvent, WebClientCommand, WebClientEvent,
};
use crate::packet::Packet;
use crate::parse::{parse_actor_id, spec_parse_u8};
use crate::paths::{lemma_paths_monotone, one_component, reach_inv, relay_connected, connected};
use crate::registry::{assoc_get, ActorHandle, ActorLink, ChatClientInfo, Registry, WebClientInfo};
use crate::topology::Topology;
use crate::validator::{
    add_edge_allowed, can_lose_link, client_fails, degree_inv, minus_edge_shape, minus_node_shape,
    spec_validate_add_edge, validate_add_edge, validate_crash, validate_remove_edge,
};

verus! {

/// How many relay implementations the deployment's catalog offers; a spawn
/// picks one of them at random.
pub const RELAY_CATALOG_SIZE: usize = 10;

/// Everything a freshly spawned relay's thread needs: the actor-side channel
/// endpoints, the new actor's id, and which catalog implementation to run.
pub struct SpawnTicket {
    /// The id assigned to the new relay.
    pub id: u8,
    /// Index into the relay implementation catalog, below
    /// [`RELAY_CATALOG_SIZE`].
    pub impl_index: usize,
    /// The actor-side end of the command channel.
    pub commands: crossbeam_channel::Receiver<RelayCommand>,
    /// The actor-side end of the event channel.
    pub events: Sender<RelayEvent>,
    /// The actor-side end of the packet channel.
    pub packets: crossbeam_channel::Receiver<Packet>,
}

/// The controller's state: authoritative topology, actor registry, an event
/// log, and the next id to hand out.
pub struct Controller {
    /// The authoritative view of the network's shape.
    pub topology: Topology,
    /// The channel handles and per-client state, aligned with the topology
    /// index for index.
    pub registry: Registry,
    /// The most recent observer notifications.
    pub events: EventQueue<Notification>,
    /// Ids ever used stay below this bound; ids are never reused.
    pub next_id: u16,
    /// Set, and never cleared, when a post-validation send to an actor
    /// fails: the actor-liveness assumption is broken, and the caller is
    /// expected to stop the simulation.
    pub liveness_fault: Option<Fatal>,
}

impl Controller {
    /// Assemble the controller invariant from its parts.
    proof fn lemma_wf_parts(c: Controller)
        requires
            c.topology.wf(),
            c.registry.len() == c.topology.len(),
            forall|i: int| 0 <= i < c.topology.len() ==> #[trigger] c.actor_entry_ok(i),
        ensures
            c.wf(),
    {
    }

    /// The invariant does not depend on the event log or the liveness
    /// fault: it carries over between controllers with the same core.
    proof fn lemma_wf_same_core(c0: Controller, c1: Controller)
        requires
            c0.wf(),
            c1.topology == c0.topology,
            c1.registry == c0.registry,
            c1.next_id == c0.next_id,
        ensures
            c1.wf(),
    {
        assert forall|i: int| 0 <= i < c1.topology.len() implies #[trigger] c1.actor_entry_ok(
            i,
        ) by {
            assert(c0.actor_entry_ok(i));
        }
        Self::lemma_wf_parts(c1);
    }

    /// The controller invariant: the graph is well formed, and registry and
    /// graph list the same actors, in the same order, with the same kinds.
    pub open spec fn wf(self) -> bool {
        &&& self.topology.wf()
        &&& self.registry.len() == self.topology.len()
        &&& forall|i: int| 0 <= i < self.topology.len() ==> self.actor_entry_ok(i)
    }

    /// One aligned registry entry: same id and kind as the graph node at the
    /// same index, with an id below the never-reuse bound.
    pub open spec fn actor_entry_ok(self, i: int) -> bool {
        &&& self.registry.id_at(i) == self.topology.id_at(i)
        &&& self.registry.kind_at(i) == self.topology.kind_at(i)
        &&& self.topology.id_at(i) < self.next_id
    }

    /// A controller over no actors, with an event log of the given capacity.
    pub fn new(log_capacity: usize) -> (r: Controller)
        ensures
            r.wf(),
            r.topology.len() == 0,
            r.events.contents() == Seq::<Notification>::empty(),
            r.liveness_fault is None,
            forall|id: u8| !r.topology.contains_id(id),
    {
        Controller {
            topology: Topology::new(),
            registry: Registry::new(),
            events: EventQueue::new(log_capacity),
            next_id: 0,
            liveness_fault: None,
        }
    }

    /// Register an actor built elsewhere (initial configuration is loaded
    /// outside the controller). Its id must be fresh; otherwise the handle
    /// comes back unused.
    #[verifier::rlimit(60)]
    pub fn register_actor(&mut self, handle: ActorHandle) -> (r: Result<(), ActorHandle>)
        requires
            old(self).wf(),
        ensures
            final(self).wf(),
            r is Ok <==> !old(self).topology.contains_id(handle.id),
            r matches Err(h) ==> h == handle && *final(self) == *old(self),
            r is Ok ==> {
                &&& final(self).topology.len() == old(self).topology.len() + 1
                &&& forall|x: u8|
                    final(self).topology.contains_id(x) <==> (old(self).topology.contains_id(x)
                        || x == handle.id)
                &&& final(self).topology.kind_of(handle.id) == handle.link.spec_kind()
                &&& final(self).topology.degree(handle.id) == 0
                &&& forall|x: u8|
                    old(self).topology.contains_id(x) ==> final(self).topology.kind_of(x) == old(self).topology.kind_of(x)
                &&& forall|x: u8, y: u8| #[trigger]
                    final(self).topology.adj(x, y) <==> old(self).topology.adj(x, y)
                &&& final(self).events == old(self).events
            },
    {
        if self.topology.contains(handle.id) {
            return Err(handle);
        }
        let id = handle.id;
        let kind = handle.link.kind();
        if id as u16 >= self.next_id {
            self.next_id = id as u16 + 1;
        }
        let ghost g0 = self.topology;
        self.topology.add_node(id, kind);
        self.registry.actors.push(handle);
        proof {
            let n0 = g0.len() as int;
            assert(self.registry.len() == self.topology.len());
            assert forall|i: int| 0 <= i < self.topology.len() implies
                #[trigger] self.actor_entry_ok(i) by {
                if i < n0 {
                    assert(self.registry.actors@[i] == old(self).registry.actors@[i]);
                    assert(old(self).actor_entry_ok(i));
                    assert(old(self).registry.id_at(i) == old(self).topology.id_at(i));
                    assert(old(self).registry.kind_at(i) == old(self).topology.kind_at(i));
                    assert(self.topology.id_at(i) == g0.id_at(i));
                    assert(self.topology.kind_at(i) == g0.kind_at(i));
                } else {
                    assert(i == n0);
                    assert(self.registry.actors@[i] == handle);
                    assert(self.topology.id_at(i) == id && self.topology.kind_at(i) == kind);
                }
            }
            Self::lemma_wf_parts(*self);
        }
        Ok(())
    }

    /// Record a link taken from the initial configuration. Only structural
    /// sanity is enforced here: configuration links are not put through the
    /// degree and kind rules, and no command is sent — the actors were built
    /// already knowing their neighbors.
    #[verifier::rlimit(60)]
    pub fn add_initial_link(&mut self, a: u8, b: u8) -> (r: Result<(), Reason>)
        requires
            old(self).wf(),
        ensures
            final(self).wf(),
            r is Err ==> *final(self) == *old(self),
            r is Ok <==> (a != b && old(self).topology.contains_id(a)
                && old(self).topology.contains_id(b) && !old(self).topology.adj(a, b)),
            a == b ==> r == Err::<(), Reason>(Reason::SelfLoop),
            a != b && !(old(self).topology.contains_id(a) && old(self).topology.contains_id(b))
                ==> r == Err::<(), Reason>(Reason::NodeNotFound),
            a != b && old(self).topology.contains_id(a) && old(self).topology.contains_id(b)
                && old(self).topology.adj(a, b) ==> r == Err::<(), Reason>(
                Reason::AlreadyConnected,
            ),
            r is Ok ==> {
                &&& forall|x: u8|
                    final(self).topology.contains_id(x) <==> old(self).topology.contains_id(x)
                &&& forall|x: u8|
                    old(self).topology.contains_id(x) ==> final(self).topology.kind_of(x) == old(self).topology.kind_of(x)
                &&& forall|x: u8, y: u8| #[trigger]
                    final(self).topology.adj(x, y) <==> (old(self).topology.adj(x, y) || (x == a
                        && y == b) || (x == b && y == a))
            },
    {
        if a == b {
            return Err(Reason::SelfLoop);
        }
        if !self.topology.contains(a) || !self.topology.contains(b) {
            return Err(Reason::NodeNotFound);
        }
        if self.topology.has_edge(a, b) {
            return Err(Reason::AlreadyConnected);
        }
        let ghost g0 = old(self).topology;
        self.topology.add_edge(a, b);
        proof {
            assert forall|i: int| 0 <= i < self.topology.len() implies
                #[trigger] self.actor_entry_ok(i) by {
                assert(old(self).actor_entry_ok(i));
                assert(old(self).registry.id_at(i) == old(self).topology.id_at(i));
                assert(old(self).registry.kind_at(i) == old(self).topology.kind_at(i));
                assert(self.topology.id_at(i) == g0.id_at(i));
                assert(self.topology.kind_at(i) == g0.kind_at(i));
            }
            Self::lemma_wf_parts(*self);
        }
        Ok(())
    }

    /// Send an `AddSender` command carrying the peer's packet sender;
    /// reports whether the channel took it.
    fn send_add_sender(link: &ActorLink, peer: u8, peer_pkt: Sender<Packet>) -> bool {
        match link {
            ActorLink::Relay { commands, .. } => {
                channel_send(commands, RelayCommand::AddSender(peer, peer_pkt))
            },
            ActorLink::WebClient { commands, .. } => {
                channel_send(commands, WebClientCommand::AddSender(peer, peer_pkt))
            },
            ActorLink::ChatClient { commands, .. } => {
                channel_send(commands, ChatClientCommand::AddSender(peer, peer_pkt))
            },
            ActorLink::Server { commands, .. } => {
                channel_send(commands, ServerCommand::AddSender(peer, peer_pkt))
            },
        }
    }

    /// Send a `RemoveSender` command naming the peer; reports whether the
    /// channel took it.
    fn send_remove_sender(link: &ActorLink, peer: u8) -> bool {
        match link {
            ActorLink::Relay { commands, .. } => {
                channel_send(commands, RelayCommand::RemoveSender(peer))
            },
            ActorLink::WebClient { commands, .. } => {
                channel_send(commands, WebClientCommand::RemoveSender(peer))
            },
            ActorLink::ChatClient { commands, .. } => {
                channel_send(commands, ChatClientCommand::RemoveSender(peer))
            },
            ActorLink::Server { commands, .. } => {
                channel_send(commands, ServerCommand::RemoveSender(peer))
            },
        }
    }

    /// Record a failed post-validation send to actor `id`. Validation is
    /// the only expected failure mode, so a failed send breaks the
    /// actor-liveness assumption: the first such breach is kept, for the
    /// caller to act on, and never cleared.
    fn note_send_failure(&mut self, ok: bool, id: u8)
        ensures
            final(self).topology == old(self).topology,
            final(self).registry == old(self).registry,
            final(self).events == old(self).events,
            final(self).next_id == old(self).next_id,
            ok ==> *final(self) == *old(self),
            old(self).liveness_fault is Some ==> final(self).liveness_fault == old(
                self,
            ).liveness_fault,
            final(self).liveness_fault is None ==> old(self).liveness_fault is None,
    {
        if !ok {
            if self.liveness_fault.is_none() {
                self.liveness_fault = Some(Fatal::CommandChannelClosed(id));
            }
        }
    }

    /// Ask for the link `source -- target` to be created, with the target
    /// given as the user typed it. The input is parsed and resolved, the
    /// mutation validated, and only then executed: both endpoints learn the
    /// peer's packet channel, and the graph gains the edge.
    ///
    /// A rejected request leaves the controller byte-for-byte unchanged.
    /// A successful request preserves the degree, reachability and
    /// connectivity invariants.
    #[verifier::rlimit(60)]
    pub fn request_add_link(&mut self, source: u8, target_input: &str) -> (r: Result<
        (u8, u8),
        Reason,
    >)
        requires
            old(self).wf(),
        ensures
            final(self).wf(),
            r is Err ==> *final(self) == *old(self),
            match spec_parse_u8(target_input.spec_bytes()) {
                None => r == Err::<(u8, u8), Reason>(Reason::ParseError),
                Some(t) => match spec_validate_add_edge(old(self).topology, source, t) {
                    Ok(u) => r == Ok::<(u8, u8), Reason>((source, t)),
                    Err(e) => r == Err::<(u8, u8), Reason>(e),
                },
            },
            match r {
                Ok(p) => {
                    let t = p.1;
                    &&& p.0 == source
                    &&& add_edge_allowed(old(self).topology, source, t)
                    &&& final(self).topology.degree(source) == old(self).topology.degree(source) + 1
                    &&& final(self).topology.degree(t) == old(self).topology.degree(t) + 1
                    &&& forall|x: u8|
                        final(self).topology.contains_id(x) <==> old(self).topology.contains_id(x)
                    &&& forall|x: u8|
                        old(self).topology.contains_id(x) ==> final(self).topology.kind_of(x)
                            == old(self).topology.kind_of(x)
                    &&& forall|x: u8|
                        old(self).topology.contains_id(x) && x != source && x != t ==> final(self).topology.nbrs(x) == old(self).topology.nbrs(x)
                    &&& forall|x: u8, y: u8| #[trigger]
                        final(self).topology.adj(x, y) <==> (old(self).topology.adj(x, y) || (x
                            == source && y == t) || (x == t && y == source))
                },
                Err(e) => true,
            },
            r is Ok && degree_inv(old(self).topology) ==> degree_inv(final(self).topology),
            r is Ok && reach_inv(old(self).topology) ==> reach_inv(final(self).topology),
            r is Ok && one_component(old(self).topology) ==> one_component(final(self).topology),
            old(self).liveness_fault is Some ==> final(self).liveness_fault == old(
                self,
            ).liveness_fault,
            final(self).liveness_fault is None ==> old(self).liveness_fault is None,
    {
        let target = match parse_actor_id(target_input) {
            Ok(t) => t,
            Err(e) => {
                return Err(e);
            },
        };
        match validate_add_edge(&self.topology, source, target) {
            Err(e) => {
                return Err(e);
            },
            Ok(u) => {},
        }
        let si = match self.topology.lookup(source) {
            Some(i) => i,
            None => { proof { assert(false); } 0 },
        };
        let ti = match self.topology.lookup(target) {
            Some(i) => i,
            None => { proof { assert(false); } 0 },
        };
        let target_pkt = sender_clone(&self.registry.actors[ti].packet_in);
        let taken_s = Self::send_add_sender(&self.registry.actors[si].link, target, target_pkt);
        self.note_send_failure(taken_s, source);
        let source_pkt = sender_clone(&self.registry.actors[si].packet_in);
        let taken_t = Self::send_add_sender(&self.registry.actors[ti].link, source, source_pkt);
        self.note_send_failure(taken_t, target);
        let ghost g0 = self.topology;
        self.topology.add_edge(source, target);
        proof {
            let g1 = self.topology;
            assert forall|i: int| 0 <= i < g1.len() implies #[trigger] self.actor_entry_ok(
                i,
            ) by {
                assert(old(self).actor_entry_ok(i));
                assert(old(self).registry.id_at(i) == old(self).topology.id_at(i));
                assert(old(self).registry.kind_at(i) == old(self).topology.kind_at(i));
                assert(g1.id_at(i) == g0.id_at(i));
                assert(g1.kind_at(i) == g0.kind_at(i));
            }
            Self::lemma_wf_parts(*self);
            if degree_inv(g0) {
                assert forall|x: u8| #[trigger] g1.contains_id(x) implies crate::validator::degree_ok(
                    g1,
                    x,
                ) by {
                    assert(g0.contains_id(x));
                    assert(crate::validator::degree_ok(g0, x));
                    if x != source && x != target {
                        assert(g1.nbrs(x) == g0.nbrs(x));
                        assert(g1.degree(x) == g0.degree(x));
                    }
                }
            }
            lemma_paths_monotone(g0, g1);
            if reach_inv(g0) {
                assert forall|c: u8, s: u8|
                    g1.contains_id(c) && g1.contains_id(s) && g1.kind_of(c).spec_is_client()
                        && g1.kind_of(s) == ActorKind::Server implies #[trigger] relay_connected(
                    g1,
                    c,
                    s,
                ) by {
                    assert(g0.contains_id(c) && g0.contains_id(s));
                    assert(relay_connected(g0, c, s));
                }
            }
            if one_component(g0) {
                assert forall|a: u8, b: u8|
                    g1.contains_id(a) && g1.contains_id(b) implies #[trigger] connected(
                    g1,
                    a,
                    b,
                ) by {
                    assert(g0.contains_id(a) && g0.contains_id(b));
                    assert(connected(g0, a, b));
                }
            }
        }
        Ok((source, target))
    }

    /// Ask for the link `a -- b` to be removed. The mutation is validated —
    /// endpoint minimum degrees, then reachability and connectivity on a
    /// copy of the graph without the edge — and only then executed: both
    /// endpoints are told to forget the peer, and the graph loses the edge.
    ///
    /// A rejected request leaves the controller byte-for-byte unchanged.
    /// After a successful removal the reachability and connectivity
    /// invariants hold outright, and the degree invariant is preserved.
    #[verifier::rlimit(60)]
    pub fn request_remove_link(&mut self, a: u8, b: u8) -> (r: Result<(u8, u8), Reason>)
        requires
            old(self).wf(),
            old(self).topology.adj(a, b),
        ensures
            final(self).wf(),
            r is Err ==> *final(self) == *old(self),
            r is Ok ==> r == Ok::<(u8, u8), Reason>((a, b)),
            (r matches Err(e) && e is MinDegreeViolation) <==> !(can_lose_link(
                old(self).topology,
                a,
            ) && can_lose_link(old(self).topology, b)),
            !can_lose_link(old(self).topology, a) && !can_lose_link(old(self).topology, b) ==> r
                == Err::<(u8, u8), Reason>(Reason::MinDegreeViolation(a, Some(b))),
            !can_lose_link(old(self).topology, a) && can_lose_link(old(self).topology, b) ==> r
                == Err::<(u8, u8), Reason>(Reason::MinDegreeViolation(a, None)),
            can_lose_link(old(self).topology, a) && !can_lose_link(old(self).topology, b) ==> r
                == Err::<(u8, u8), Reason>(Reason::MinDegreeViolation(b, None)),
            forall|g2: Topology| #[trigger]
                minus_edge_shape(old(self).topology, g2, a, b) ==> {
                    &&& (r is Ok <==> (can_lose_link(old(self).topology, a) && can_lose_link(
                        old(self).topology,
                        b,
                    ) && reach_inv(g2) && one_component(g2)))
                    &&& ((r matches Err(e) && e is WouldBreakReachability) <==> (can_lose_link(
                        old(self).topology,
                        a,
                    ) && can_lose_link(old(self).topology, b) && !reach_inv(g2)))
                    &&& (match r {
                        Err(Reason::WouldBreakReachability(c)) => client_fails(g2, c),
                        _ => true,
                    })
                    &&& (r == Err::<(u8, u8), Reason>(Reason::WouldDisconnectGraph) <==> (
                    can_lose_link(old(self).topology, a) && can_lose_link(old(self).topology, b)
                        && reach_inv(g2) && !one_component(g2)))
                },
            r is Ok ==> {
                &&& minus_edge_shape(old(self).topology, final(self).topology, a, b)
                &&& reach_inv(final(self).topology)
                &&& one_component(final(self).topology)
                &&& final(self).topology.degree(a) == old(self).topology.degree(a) - 1
                &&& final(self).topology.degree(b) == old(self).topology.degree(b) - 1
                &&& forall|x: u8|
                    old(self).topology.contains_id(x) && x != a && x != b ==> final(self).topology.nbrs(x) == old(self).topology.nbrs(x)
            },
            r is Ok && degree_inv(old(self).topology) ==> degree_inv(final(self).topology),
            old(self).liveness_fault is Some ==> final(self).liveness_fault == old(
                self,
            ).liveness_fault,
            final(self).liveness_fault is None ==> old(self).liveness_fault is None,
    {
        let decision = validate_remove_edge(&self.topology, a, b);
        match decision {
            Err(e) => Err(e),
            Ok(pair) => {
                let ia = match self.topology.lookup(a) {
                    Some(i) => i,
                    None => { proof { assert(false); } 0 },
                };
                let ib = match self.topology.lookup(b) {
                    Some(i) => i,
                    None => { proof { assert(false); } 0 },
                };
                proof {
                    assert(old(self).topology.adj(b, a));
                }
                let taken_a = Self::send_remove_sender(&self.registry.actors[ia].link, b);
                self.note_send_failure(taken_a, a);
                let taken_b = Self::send_remove_sender(&self.registry.actors[ib].link, a);
                self.note_send_failure(taken_b, b);
                let ghost g0 = self.topology;
                self.topology.remove_edge(a, b);
                proof {
                    let g1 = self.topology;
                    assert(minus_edge_shape(g0, g1, a, b));
                    assert forall|i: int| 0 <= i < g1.len() implies #[trigger] self.actor_entry_ok(
                        i,
                    ) by {
                        assert(old(self).actor_entry_ok(i));
                        assert(old(self).registry.id_at(i) == old(self).topology.id_at(i));
                        assert(old(self).registry.kind_at(i) == old(self).topology.kind_at(i));
                        assert(g1.id_at(i) == g0.id_at(i));
                        assert(g1.kind_at(i) == g0.kind_at(i));
                    }
                    Self::lemma_wf_parts(*self);
                    if degree_inv(g0) {
                        assert forall|x: u8| #[trigger] g1.contains_id(
                            x,
                        ) implies crate::validator::degree_ok(g1, x) by {
                            assert(g0.contains_id(x));
                            assert(crate::validator::degree_ok(g0, x));
                            if x != a && x != b {
                                assert(g1.nbrs(x) == g0.nbrs(x));
                                assert(g1.degree(x) == g0.degree(x));
                            } else {
                                assert(can_lose_link(g0, x));
                            }
                        }
                    }
                }
                Ok((a, b))
            },
        }
    }

    /// Ask for the relay `d` to be retired. The mutation is validated —
    /// every neighbor must afford the lost link, and reachability and
    /// connectivity must survive on a copy of the graph without the node —
    /// and only then executed: the relay is told to crash, every neighbor is
    /// told to forget it, and node and registry entry are removed.
    ///
    /// A rejected request leaves the controller byte-for-byte unchanged.
    /// After a successful crash the reachability and connectivity invariants
    /// hold outright, and the degree invariant is preserved.
    #[verifier::rlimit(100)]
    pub fn request_crash(&mut self, d: u8) -> (r: Result<(), Reason>)
        requires
            old(self).wf(),
            old(self).topology.contains_id(d) ==> old(self).topology.kind_of(d)
                == ActorKind::Relay,
        ensures
            final(self).wf(),
            r is Err ==> *final(self) == *old(self),
            !old(self).topology.contains_id(d) ==> r == Err::<(), Reason>(Reason::NodeNotFound),
            old(self).topology.contains_id(d) ==> {
                &&& ((r matches Err(e) && e is NeighborMinDegreeViolation) <==> (exists|x: u8|
                    #[trigger] old(self).topology.adj(d, x) && !can_lose_link(
                        old(self).topology,
                        x,
                    )))
                &&& (match r {
                    Err(Reason::NeighborMinDegreeViolation(x)) => old(self).topology.adj(d, x)
                        && !can_lose_link(old(self).topology, x),
                    _ => true,
                })
            },
            old(self).topology.contains_id(d) ==> forall|g2: Topology| #[trigger]
                minus_node_shape(old(self).topology, g2, d) ==> {
                    &&& (r is Ok <==> ((forall|x: u8| #[trigger]
                        old(self).topology.adj(d, x) ==> can_lose_link(old(self).topology, x))
                        && reach_inv(g2) && one_component(g2)))
                    &&& (match r {
                        Err(Reason::WouldBreakReachability(c)) => client_fails(g2, c),
                        _ => true,
                    })
                    &&& (r == Err::<(), Reason>(Reason::WouldDisconnectGraph) <==> ((forall|x: u8|
                        #[trigger] old(self).topology.adj(d, x) ==> can_lose_link(
                            old(self).topology,
                            x,
                        )) && reach_inv(g2) && !one_component(g2)))
                },
            r is Ok ==> {
                &&& minus_node_shape(old(self).topology, final(self).topology, d)
                &&& reach_inv(final(self).topology)
                &&& one_component(final(self).topology)
            },
            r is Ok && degree_inv(old(self).topology) ==> degree_inv(final(self).topology),
            old(self).liveness_fault is Some ==> final(self).liveness_fault == old(
                self,
            ).liveness_fault,
            final(self).liveness_fault is None ==> old(self).liveness_fault is None,
    {
        let di = match self.topology.lookup(d) {
            Some(i) => i,
            None => {
                return Err(Reason::NodeNotFound);
            },
        };
        proof {
            self.topology.lemma_index_of_id_at(di as int);
            assert(self.topology.kind_of(d) == ActorKind::Relay);
        }
        let decision = validate_crash(&self.topology, d);
        match decision {
            Err(e) => Err(e),
            Ok(u) => {
                proof {
                    assert(old(self).actor_entry_ok(di as int));
                    assert(self.registry.kind_at(di as int) == ActorKind::Relay);
                }
                let taken_d = match &self.registry.actors[di].link {
                    ActorLink::Relay { commands, .. } => {
                        channel_send(commands, RelayCommand::Crash)
                    },
                    _ => { proof { assert(false); } true },
                };
                self.note_send_failure(taken_d, d);
                proof {
                    Self::lemma_wf_same_core(*old(self), *self);
                }
                let nbrs = Topology::copy_list(&self.topology.nodes[di].neighbors);
                proof {
                    assert(self.topology.nbrs(d) == self.topology.nbrs_at(di as int));
                    assert(nbrs@ == self.topology.nbrs(d));
                }
                let deg = nbrs.len();
                let mut t: usize = 0;
                while t < deg
                    invariant
                        self.topology == old(self).topology,
                        self.registry == old(self).registry,
                        self.events == old(self).events,
                        self.next_id == old(self).next_id,
                        old(self).liveness_fault is Some ==> self.liveness_fault == old(
                            self,
                        ).liveness_fault,
                        self.liveness_fault is None ==> old(self).liveness_fault is None,
                        self.wf(),
                        deg == nbrs@.len(),
                        nbrs@ == self.topology.nbrs(d),
                        self.topology.contains_id(d),
                    decreases deg - t,
                {
                    let n = nbrs[t];
                    proof {
                        assert(self.topology.nbrs(d)[t as int] == n);
                        assert(self.topology.nbrs(d).contains(n));
                        assert(self.topology.adj(d, n));
                        assert(self.topology.contains_id(n));
                    }
                    let ni = match self.topology.lookup(n) {
                        Some(i) => i,
                        None => { proof { assert(false); } 0 },
                    };
                    let ghost pre = *self;
                    let taken_n = Self::send_remove_sender(&self.registry.actors[ni].link, d);
                    self.note_send_failure(taken_n, n);
                    proof {
                        Self::lemma_wf_same_core(pre, *self);
                    }
                    t = t + 1;
                }
                let ghost g0 = self.topology;
                self.topology.remove_node(d);
                self.registry.actors.remove(di);
                proof {
                    let g1 = self.topology;
                    assert(minus_node_shape(g0, g1, d));
                    assert(g0.index_of(d) == di);
                    assert(self.registry.len() == g1.len());
                    assert forall|i: int| 0 <= i < g1.len() implies #[trigger] self.actor_entry_ok(
                        i,
                    ) by {
                        let i0: int = if i < di {
                            i
                        } else {
                            i + 1
                        };
                        assert(self.registry.actors@[i] == old(self).registry.actors@[i0]);
                        assert(old(self).actor_entry_ok(i0));
                        assert(old(self).registry.id_at(i0) == old(self).topology.id_at(i0));
                        assert(old(self).registry.kind_at(i0) == old(self).topology.kind_at(i0));
                        assert(g1.id_at(i) == g0.id_at(i0));
                        assert(g1.kind_at(i) == g0.kind_at(i0));
                    }
                    Self::lemma_wf_parts(*self);
                    if degree_inv(g0) {
                        assert forall|x: u8| #[trigger] g1.contains_id(
                            x,
                        ) implies crate::validator::degree_ok(g1, x) by {
                            assert(g0.contains_id(x) && x != d);
                            assert(crate::validator::degree_ok(g0, x));
                            assert(g1.kind_of(x) == g0.kind_of(x));
                            if g0.adj(x, d) {
                                assert(g0.adj(d, x));
                                assert(can_lose_link(g0, x));
                                assert(g1.degree(x) == g0.degree(x) - 1);
                            } else {
                                assert(g1.nbrs(x) == g0.nbrs(x));
                                assert(g1.degree(x) == g0.degree(x));
                            }
                        }
                    }
                }
                Ok(())
            },
        }
    }

    /// Relies on rand::random_range: a uniform value in `0..n`; the range
    /// is nonempty, so the call cannot panic.
    #[verifier::external_body]
    fn pick_relay_impl(n: usize) -> (r: usize)
        requires
            n > 0,
        ensures
            r < n,
    {
        rand::random_range(0..n)
    }

    /// Instantiate a new relay: assign it a fresh id, pick one of the
    /// catalog's relay implementations at random, create its channels, and
    /// register it with no links. The returned ticket carries the
    /// actor-side channel ends; the caller starts the relay's thread.
    ///
    /// Returns nothing when the id space is exhausted. The new relay starts
    /// unlinked, so it sits at degree zero — and in a component of its
    /// own — until a link is added.
    pub fn request_spawn_relay(&mut self) -> (r: Option<SpawnTicket>)
        requires
            old(self).wf(),
        ensures
            final(self).wf(),
            r is None <==> old(self).next_id > 255,
            r is None ==> *final(self) == *old(self),
            match r {
                Some(t) => {
                    &&& t.id == old(self).next_id
                    &&& t.impl_index < RELAY_CATALOG_SIZE
                    &&& !old(self).topology.contains_id(t.id)
                    &&& final(self).next_id == old(self).next_id + 1
                    &&& final(self).topology.len() == old(self).topology.len() + 1
                    &&& forall|x: u8|
                        final(self).topology.contains_id(x) <==> (old(
                            self,
                        ).topology.contains_id(x) || x == t.id)
                    &&& final(self).topology.kind_of(t.id) == ActorKind::Relay
                    &&& final(self).topology.degree(t.id) == 0
                    &&& forall|x: u8|
                        old(self).topology.contains_id(x) ==> final(self).topology.kind_of(x)
                            == old(self).topology.kind_of(x)
                    &&& forall|x: u8, y: u8| #[trigger]
                        final(self).topology.adj(x, y) <==> old(self).topology.adj(x, y)
                },
                None => true,
            },
    {
        if self.next_id > 255 {
            return None;
        }
        let id = self.next_id as u8;
        proof {
            if self.topology.contains_id(id) {
                self.topology.lemma_index_of(id);
                let i = self.topology.index_of(id);
                assert(self.actor_entry_ok(i));
                assert(false);
            }
        }
        let impl_index = Self::pick_relay_impl(RELAY_CATALOG_SIZE);
        let (cmd_tx, cmd_rx) = channel_new::<RelayCommand>();
        let (ev_tx, ev_rx) = channel_new::<RelayEvent>();
        let (pkt_tx, pkt_rx) = channel_new::<Packet>();
        let handle = ActorHandle {
            id,
            packet_in: pkt_tx,
            link: ActorLink::Relay { commands: cmd_tx, events: ev_rx },
        };
        let ghost g0 = self.topology;
        let ghost n0 = self.topology.len();
        self.topology.add_node(id, ActorKind::Relay);
        self.registry.actors.push(handle);
        self.next_id = self.next_id + 1;
        proof {
            assert forall|i: int| 0 <= i < self.topology.len() implies
                #[trigger] self.actor_entry_ok(i) by {
                if i < n0 as int {
                    assert(self.registry.actors@[i] == old(self).registry.actors@[i]);
                    assert(old(self).actor_entry_ok(i));
                    assert(old(self).registry.id_at(i) == old(self).topology.id_at(i));
                    assert(old(self).registry.kind_at(i) == old(self).topology.kind_at(i));
                    assert(self.topology.id_at(i) == g0.id_at(i));
                    assert(self.topology.kind_at(i) == g0.kind_at(i));
                } else {
                    assert(i == n0 as int);
                    assert(self.topology.id_at(i) == id);
                    assert(self.topology.kind_at(i) == ActorKind::Relay);
                }
            }
            Self::lemma_wf_parts(*self);
        }
        Some(SpawnTicket { id, impl_index, commands: cmd_rx, events: ev_tx, packets: pkt_rx })
    }

    /// Deliver a shortcut packet directly into the named actor's packet
    /// channel, bypassing normal relay routing. A destination that is not
    /// registered is a protocol violation and is surfaced, never silently
    /// dropped; so is a destination whose packet channel is gone.
    pub fn handle_shortcut(&self, id: u8, packet: Packet) -> (r: Result<(), Fatal>)
        requires
            self.wf(),
        ensures
            match r {
                Ok(u) => self.topology.contains_id(id),
                Err(f) => if self.topology.contains_id(id) {
                    f == Fatal::CommandChannelClosed(id)
                } else {
                    f == Fatal::UnknownShortcutDestination(id)
                },
            },
            !self.topology.contains_id(id) ==> r == Err::<(), Fatal>(
                Fatal::UnknownShortcutDestination(id),
            ),
    {
        match self.topology.lookup(id) {
            Some(i) => {
                if channel_send(&self.registry.actors[i].packet_in, packet) {
                    Ok(())
                } else {
                    Err(Fatal::CommandChannelClosed(id))
                }
            },
            None => Err(Fatal::UnknownShortcutDestination(id)),
        }
    }

    /// The web client state stored at registry index `i`, if that entry is
    /// a web client.
    pub open spec fn spec_web_info(self, i: int) -> Option<WebClientInfo> {
        match self.registry.actors@[i].link {
            ActorLink::WebClient { info, .. } => Some(info),
            _ => None,
        }
    }

    /// The chat client state stored at registry index `i`, if that entry is
    /// a chat client.
    pub open spec fn spec_chat_info(self, i: int) -> Option<ChatClientInfo> {
        match self.registry.actors@[i].link {
            ActorLink::ChatClient { info, .. } => Some(info),
            _ => None,
        }
    }

    /// Everything about the controller except the client state at registry
    /// index `i` is unchanged between `c0` and `c1`.
    pub open spec fn same_but_entry_state(c0: Controller, c1: Controller, i: int) -> bool {
        &&& c1.topology == c0.topology
        &&& c1.next_id == c0.next_id
        &&& c1.events == c0.events
        &&& c1.liveness_fault == c0.liveness_fault
        &&& c1.registry.len() == c0.registry.len()
        &&& forall|j: int|
            0 <= j < c0.registry.len() && j != i ==> c1.registry.actors@[j]
                == c0.registry.actors@[j]
        &&& c1.registry.id_at(i) == c0.registry.id_at(i)
        &&& c1.registry.kind_at(i) == c0.registry.kind_at(i)
    }

    /// Dispatch one relay event: informational events become notifications,
    /// a shortcut is forwarded to its final hop.
    pub fn handle_relay_event(&self, origin: u8, event: RelayEvent) -> (r: Result<
        Notification,
        Fatal,
    >)
        requires
            self.wf(),
        ensures
            match event {
                RelayEvent::PacketSent(p) => r == Ok::<Notification, Fatal>(
                    (Notification {
                        actor: origin,
                        kind: ActorKind::Relay,
                        detail: NotificationDetail::PacketSent(p.kind),
                    }),
                ),
                RelayEvent::PacketDropped(p) => r == Ok::<Notification, Fatal>(
                    (Notification {
                        actor: origin,
                        kind: ActorKind::Relay,
                        detail: NotificationDetail::PacketDropped(p.kind),
                    }),
                ),
                RelayEvent::ControllerShortcut(p) => match p.routing.spec_destination() {
                    None => r == Err::<Notification, Fatal>(Fatal::ShortcutWithoutDestination),
                    Some(dst) => if self.topology.contains_id(dst) {
                        match r {
                            Ok(n) => n == (Notification {
                                actor: origin,
                                kind: ActorKind::Relay,
                                detail: NotificationDetail::ShortcutForwarded(p.kind, dst),
                            }),
                            Err(f) => f == Fatal::CommandChannelClosed(dst),
                        }
                    } else {
                        r == Err::<Notification, Fatal>(Fatal::UnknownShortcutDestination(dst))
                    },
                },
            },
    {
        match event {
            RelayEvent::PacketSent(p) => Ok(Notification {
                actor: origin,
                kind: ActorKind::Relay,
                detail: NotificationDetail::PacketSent(p.kind),
            }),
            RelayEvent::PacketDropped(p) => Ok(Notification {
                actor: origin,
                kind: ActorKind::Relay,
                detail: NotificationDetail::PacketDropped(p.kind),
            }),
            RelayEvent::ControllerShortcut(p) => {
                let pk = p.kind;
                match p.destination() {
                    None => Err(Fatal::ShortcutWithoutDestination),
                    Some(dst) => match self.handle_shortcut(dst, p) {
                        Ok(u) => Ok(Notification {
                            actor: origin,
                            kind: ActorKind::Relay,
                            detail: NotificationDetail::ShortcutForwarded(pk, dst),
                        }),
                        Err(f) => Err(f),
                    },
                }
            },
        }
    }

    /// Dispatch one server event: a sent packet becomes a notification, a
    /// shortcut is forwarded to its final hop.
    pub fn handle_server_event(&self, origin: u8, event: ServerEvent) -> (r: Result<
        Notification,
        Fatal,
    >)
        requires
            self.wf(),
        ensures
            match event {
                ServerEvent::PacketSent(p) => r == Ok::<Notification, Fatal>(
                    (Notification {
                        actor: origin,
                        kind: ActorKind::Server,
                        detail: NotificationDetail::PacketSent(p.kind),
                    }),
                ),
                ServerEvent::ShortCut(p) => match p.routing.spec_destination() {
                    None => r == Err::<Notification, Fatal>(Fatal::ShortcutWithoutDestination),
                    Some(dst) => if self.topology.contains_id(dst) {
                        match r {
                            Ok(n) => n == (Notification {
                                actor: origin,
                                kind: ActorKind::Server,
                                detail: NotificationDetail::ShortcutForwarded(p.kind, dst),
                            }),
                            Err(f) => f == Fatal::CommandChannelClosed(dst),
                        }
                    } else {
                        r == Err::<Notification, Fatal>(Fatal::UnknownShortcutDestination(dst))
                    },
                },
            },
    {
        match event {
            ServerEvent::PacketSent(p) => Ok(Notification {
                actor: origin,
                kind: ActorKind::Server,
                detail: NotificationDetail::PacketSent(p.kind),
            }),
            ServerEvent::ShortCut(p) => {
                let pk = p.kind;
                match p.destination() {
                    None => Err(Fatal::ShortcutWithoutDestination),
                    Some(dst) => match self.handle_shortcut(dst, p) {
                        Ok(u) => Ok(Notification {
                            actor: origin,
                            kind: ActorKind::Server,
                            detail: NotificationDetail::ShortcutForwarded(pk, dst),
                        }),
                        Err(f) => Err(f),
                    },
                }
            },
        }
    }

    /// Dispatch one web client event: informational events become
    /// notifications, shortcuts are forwarded, and discovery reports update
    /// the client's stored state. A retrieved file is handed to the
    /// observer, which stores and shows it.
    #[verifier::rlimit(60)]
    pub fn handle_web_client_event(&mut self, origin: u8, event: WebClientEvent) -> (r: Result<
        Option<Notification>,
        Fatal,
    >)
        requires
            old(self).wf(),
            old(self).topology.contains_id(origin),
            old(self).topology.kind_of(origin) == ActorKind::WebClient,
        ensures
            final(self).wf(),
            match event {
                WebClientEvent::PacketSent(p) => *final(self) == *old(self) && r == Ok::<
                    Option<Notification>,
                    Fatal,
                >(Some(
                    (Notification {
                        actor: origin,
                        kind: ActorKind::WebClient,
                        detail: NotificationDetail::PacketSent(p.kind),
                    }),
                )),
                WebClientEvent::Shortcut(p) => *final(self) == *old(self) && (match p.routing.spec_destination() {
                    None => r == Err::<Option<Notification>, Fatal>(
                        Fatal::ShortcutWithoutDestination,
                    ),
                    Some(dst) => if old(self).topology.contains_id(dst) {
                        match r {
                            Ok(n) => n == Some(
                                (Notification {
                                    actor: origin,
                                    kind: ActorKind::WebClient,
                                    detail: NotificationDetail::ShortcutForwarded(p.kind, dst),
                                }),
                            ),
                            Err(f) => f == Fatal::CommandChannelClosed(dst),
                        }
                    } else {
                        r == Err::<Option<Notification>, Fatal>(
                            Fatal::UnknownShortcutDestination(dst),
                        )
                    },
                }),
                WebClientEvent::ListOfFiles(files, sid) => r == Ok::<Option<Notification>, Fatal>(
                    None,
                ) && ({
                    let i = old(self).topology.index_of(origin);
                    &&& Self::same_but_entry_state(*old(self), *final(self), i)
                    &&& match (old(self).spec_web_info(i), final(self).spec_web_info(i)) {
                        (Some(w0), Some(w1)) => {
                            &&& w1.servers_types == w0.servers_types
                            &&& assoc_get(w1.list_of_files@, sid) == Some(files)
                            &&& forall|k2: u8|
                                k2 != sid ==> assoc_get(w1.list_of_files@, k2) == assoc_get(
                                    w0.list_of_files@,
                                    k2,
                                )
                        },
                        _ => false,
                    }
                }),
                WebClientEvent::FileFromClient(file, sid) => *final(self) == *old(self) && r == Ok::<
                    Option<Notification>,
                    Fatal,
                >(Some(
                    (Notification {
                        actor: origin,
                        kind: ActorKind::WebClient,
                        detail: NotificationDetail::FileReceived(file, sid),
                    }),
                )),
                WebClientEvent::ServersTypes(types) => r == Ok::<Option<Notification>, Fatal>(None)
                    && ({
                    let i = old(self).topology.index_of(origin);
                    &&& Self::same_but_entry_state(*old(self), *final(self), i)
                    &&& match (old(self).spec_web_info(i), final(self).spec_web_info(i)) {
                        (Some(w0), Some(w1)) => w1.servers_types == types && w1.list_of_files
                            == w0.list_of_files,
                        _ => false,
                    }
                }),
                WebClientEvent::UnsupportedRequest => *final(self) == *old(self) && r == Ok::<
                    Option<Notification>,
                    Fatal,
                >(Some(
                    (Notification {
                        actor: origin,
                        kind: ActorKind::WebClient,
                        detail: NotificationDetail::UnsupportedRequest,
                    }),
                )),
            },
    {
        let i = match self.topology.lookup(origin) {
            Some(i) => i,
            None => { proof { assert(false); } 0 },
        };
        proof {
            self.topology.lemma_index_of_id_at(i as int);
            assert(old(self).actor_entry_ok(i as int));
            assert(self.registry.kind_at(i as int) == ActorKind::WebClient);
        }
        match event {
            WebClientEvent::PacketSent(p) => Ok(Some(Notification {
                actor: origin,
                kind: ActorKind::WebClient,
                detail: NotificationDetail::PacketSent(p.kind),
            })),
            WebClientEvent::Shortcut(p) => {
                let pk = p.kind;
                match p.destination() {
                    None => Err(Fatal::ShortcutWithoutDestination),
                    Some(dst) => match self.handle_shortcut(dst, p) {
                        Ok(u) => Ok(Some(Notification {
                            actor: origin,
                            kind: ActorKind::WebClient,
                            detail: NotificationDetail::ShortcutForwarded(pk, dst),
                        })),
                        Err(f) => Err(f),
                    },
                }
            },
            WebClientEvent::ListOfFiles(files, sid) => {
                match &mut self.registry.actors[i].link {
                    ActorLink::WebClient { info, .. } => {
                        info.add_list_of_files(sid, files);
                    },
                    _ => { proof { assert(false); } },
                }
                proof {
                    assert forall|j: int| 0 <= j < self.topology.len() implies
                        #[trigger] self.actor_entry_ok(j) by {
                        assert(old(self).actor_entry_ok(j));
                        if j != i {
                            assert(self.registry.actors@[j] == old(self).registry.actors@[j]);
                        }
                    }
                    Self::lemma_wf_parts(*self);
                }
                Ok(None)
            },
            WebClientEvent::FileFromClient(file, sid) => Ok(Some(Notification {
                actor: origin,
                kind: ActorKind::WebClient,
                detail: NotificationDetail::FileReceived(file, sid),
            })),
            WebClientEvent::ServersTypes(types) => {
                match &mut self.registry.actors[i].link {
                    ActorLink::WebClient { info, .. } => {
                        info.add_server_type(types);
                    },
                    _ => { proof { assert(false); } },
                }
                proof {
                    assert forall|j: int| 0 <= j < self.topology.len() implies
                        #[trigger] self.actor_entry_ok(j) by {
                        assert(old(self).actor_entry_ok(j));
                        if j != i {
                            assert(self.registry.actors@[j] == old(self).registry.actors@[j]);
                        }
                    }
                    Self::lemma_wf_parts(*self);
                }
                Ok(None)
            },
            WebClientEvent::UnsupportedRequest => Ok(Some(Notification {
                actor: origin,
                kind: ActorKind::WebClient,
                detail: NotificationDetail::UnsupportedRequest,
            })),
        }
    }

    /// Dispatch one chat client event: informational events become
    /// notifications, shortcuts are forwarded, discovery reports keep only
    /// the chat servers, and incoming messages extend the conversation.
    #[verifier::rlimit(60)]
    pub fn handle_chat_client_event(&mut self, origin: u8, event: ChatClientEvent) -> (r: Result<
        Option<Notification>,
        Fatal,
    >)
        requires
            old(self).wf(),
            old(self).topology.contains_id(origin),
            old(self).topology.kind_of(origin) == ActorKind::ChatClient,
        ensures
            final(self).wf(),
            match event {
                ChatClientEvent::PacketSent(p) => *final(self) == *old(self) && r == Ok::<
                    Option<Notification>,
                    Fatal,
                >(Some(
                    (Notification {
                        actor: origin,
                        kind: ActorKind::ChatClient,
                        detail: NotificationDetail::PacketSent(p.kind),
                    }),
                )),
                ChatClientEvent::Shortcut(p) => *final(self) == *old(self) && (match p.routing.spec_destination() {
                    None => r == Err::<Option<Notification>, Fatal>(
                        Fatal::ShortcutWithoutDestination,
                    ),
                    Some(dst) => if old(self).topology.contains_id(dst) {
                        match r {
                            Ok(n) => n == Some(
                                (Notification {
                                    actor: origin,
                                    kind: ActorKind::ChatClient,
                                    detail: NotificationDetail::ShortcutForwarded(p.kind, dst),
                                }),
                            ),
                            Err(f) => f == Fatal::CommandChannelClosed(dst),
                        }
                    } else {
                        r == Err::<Option<Notification>, Fatal>(
                            Fatal::UnknownShortcutDestination(dst),
                        )
                    },
                }),
                ChatClientEvent::ServersTypes(types) => r == Ok::<Option<Notification>, Fatal>(
                    None,
                ) && ({
                    let i = old(self).topology.index_of(origin);
                    &&& Self::same_but_entry_state(*old(self), *final(self), i)
                    &&& match (old(self).spec_chat_info(i), final(self).spec_chat_info(i)) {
                        (Some(c0), Some(c1)) => {
                            &&& c1.chat_messages == c0.chat_messages
                            &&& c1.list_connected_clients == c0.list_connected_clients
                            &&& forall|k: u8|
                                assoc_get(c1.servers_types@, k) == (
                                if crate::registry::reports_chat_server(types@, k) {
                                    Some(crate::actor::ServerType::ChatServer)
                                } else {
                                    assoc_get(c0.servers_types@, k)
                                })
                        },
                        _ => false,
                    }
                }),
                ChatClientEvent::UnsupportedRequest => *final(self) == *old(self) && r == Ok::<
                    Option<Notification>,
                    Fatal,
                >(None),
                ChatClientEvent::MessageReceived(msg) => r == Ok::<Option<Notification>, Fatal>(
                    None,
                ) && ({
                    let i = old(self).topology.index_of(origin);
                    &&& Self::same_but_entry_state(*old(self), *final(self), i)
                    &&& match (old(self).spec_chat_info(i), final(self).spec_chat_info(i)) {
                        (Some(c0), Some(c1)) => {
                            &&& c1.servers_types == c0.servers_types
                            &&& c1.list_connected_clients == c0.list_connected_clients
                            &&& c1.chat_messages@ == c0.chat_messages@.push((false, msg))
                        },
                        _ => false,
                    }
                }),
            },
    {
        let i = match self.topology.lookup(origin) {
            Some(i) => i,
            None => { proof { assert(false); } 0 },
        };
        proof {
            self.topology.lemma_index_of_id_at(i as int);
            assert(old(self).actor_entry_ok(i as int));
            assert(self.registry.kind_at(i as int) == ActorKind::ChatClient);
        }
        match event {
            ChatClientEvent::PacketSent(p) => Ok(Some(Notification {
                actor: origin,
                kind: ActorKind::ChatClient,
                detail: NotificationDetail::PacketSent(p.kind),
            })),
            ChatClientEvent::Shortcut(p) => {
                let pk = p.kind;
                match p.destination() {
                    None => Err(Fatal::ShortcutWithoutDestination),
                    Some(dst) => match self.handle_shortcut(dst, p) {
                        Ok(u) => Ok(Some(Notification {
                            actor: origin,
                            kind: ActorKind::ChatClient,
                            detail: NotificationDetail::ShortcutForwarded(pk, dst),
                        })),
                        Err(f) => Err(f),
                    },
                }
            },
            ChatClientEvent::ServersTypes(types) => {
                match &mut self.registry.actors[i].link {
                    ActorLink::ChatClient { info, .. } => {
                        info.add_server_type(&types);
                    },
                    _ => { proof { assert(false); } },
                }
                proof {
                    assert forall|j: int| 0 <= j < self.topology.len() implies
                        #[trigger] self.actor_entry_ok(j) by {
                        assert(old(self).actor_entry_ok(j));
                        if j != i {
                            assert(self.registry.actors@[j] == old(self).registry.actors@[j]);
                        }
                    }
                    Self::lemma_wf_parts(*self);
                }
                Ok(None)
            },
            ChatClientEvent::UnsupportedRequest => Ok(None),
            ChatClientEvent::MessageReceived(msg) => {
                match &mut self.registry.actors[i].link {
                    ActorLink::ChatClient { info, .. } => {
                        info.update_chat(msg);
                    },
                    _ => { proof { assert(false); } },
                }
                proof {
                    assert forall|j: int| 0 <= j < self.topology.len() implies
                        #[trigger] self.actor_entry_ok(j) by {
                        assert(old(self).actor_entry_ok(j));
                        if j != i {
                            assert(self.registry.actors@[j] == old(self).registry.actors@[j]);
                        }
                    }
                    Self::lemma_wf_parts(*self);
                }
                Ok(None)
            },
        }
    }

    /// A consequence of the invariant: two well-formed controllers over the
    /// same graph list the same actors, with the same kinds, index for
    /// index. In particular a router tick, which never touches the graph,
    /// changes neither which actors exist nor their kinds.
    pub proof fn lemma_registry_follows_topology(c0: Controller, c1: Controller)
        requires
            c0.wf(),
            c1.wf(),
            c1.topology == c0.topology,
        ensures
            c1.registry.len() == c0.registry.len(),
            forall|i: int|
                0 <= i < c0.registry.len() ==> (#[trigger] c1.registry.id_at(i))
                    == c0.registry.id_at(i),
            forall|i: int|
                0 <= i < c0.registry.len() ==> (#[trigger] c1.registry.kind_at(i))
                    == c0.registry.kind_at(i),
    {
        assert forall|i: int| 0 <= i < c0.registry.len() implies (#[trigger] c1.registry.id_at(i))
            == c0.registry.id_at(i) by {
            assert(c0.actor_entry_ok(i));
            assert(c1.actor_entry_ok(i));
        }
        assert forall|i: int| 0 <= i < c0.registry.len() implies (
        #[trigger] c1.registry.kind_at(i)) == c0.registry.kind_at(i) by {
            assert(c0.actor_entry_ok(i));
            assert(c1.actor_entry_ok(i));
        }
    }

    /// A drained entry is sound: the origin id is registered and its kind
    /// matches the channel the event was taken from.
    pub open spec fn batch_entry_ok(self, e: (u8, Event)) -> bool {
        &&& self.topology.contains_id(e.0)
        &&& match e.1 {
            Event::Relay(ev) => self.topology.kind_of(e.0) == ActorKind::Relay,
            Event::WebClient(ev) => self.topology.kind_of(e.0) == ActorKind::WebClient,
            Event::ChatClient(ev) => self.topology.kind_of(e.0) == ActorKind::ChatClient,
            Event::Server(ev) => self.topology.kind_of(e.0) == ActorKind::Server,
        }
    }

    /// One scheduling tick of the event router. First every actor's event
    /// channel is polled once, without blocking; then the batch is
    /// dispatched in collection order. Informational events are returned to
    /// the observer (and logged); shortcut packets are forwarded to their
    /// final hop; discovery reports update the clients' stored state.
    ///
    /// A shortcut that cannot be resolved stops the tick with the protocol
    /// violation; the graph itself is never touched here.
    pub fn poll_events(&mut self) -> (r: Result<Vec<Notification>, Fatal>)
        requires
            old(self).wf(),
        ensures
            final(self).wf(),
            final(self).topology == old(self).topology,
            final(self).next_id == old(self).next_id,
            final(self).registry.len() == old(self).registry.len(),
            final(self).liveness_fault == old(self).liveness_fault,
            old(self).registry.len() == 0 ==> (r matches Ok(v) && v@.len() == 0),
            match r {
                Ok(v) => v@.len() <= old(self).registry.len()
                    && final(self).events.contents().len() <= old(self).events.contents().len()
                    + v@.len(),
                Err(f) => true,
            },
    {
        let n = self.registry.actors.len();
        let mut batch: Vec<(u8, Event)> = Vec::new();
        let mut i: usize = 0;
        while i < n
            invariant
                i <= n,
                self.wf(),
                *self == *old(self),
                n == self.registry.len(),
                batch@.len() <= i,
                forall|k: int| 0 <= k < batch@.len() ==> self.batch_entry_ok(#[trigger] batch@[k]),
            decreases n - i,
        {
            proof {
                self.topology.lemma_index_of_id_at(i as int);
                assert(self.actor_entry_ok(i as int));
            }
            let id = self.registry.actors[i].id;
            match &self.registry.actors[i].link {
                ActorLink::Relay { events, .. } => {
                    match channel_try_recv(events) {
                        Some(ev) => {
                            batch.push((id, Event::Relay(ev)));
                        },
                        None => {},
                    }
                },
                ActorLink::WebClient { events, .. } => {
                    match channel_try_recv(events) {
                        Some(ev) => {
                            batch.push((id, Event::WebClient(ev)));
                        },
                        None => {},
                    }
                },
                ActorLink::ChatClient { events, .. } => {
                    match channel_try_recv(events) {
                        Some(ev) => {
                            batch.push((id, Event::ChatClient(ev)));
                        },
                        None => {},
                    }
                },
                ActorLink::Server { events, .. } => {
                    match channel_try_recv(events) {
                        Some(ev) => {
                            batch.push((id, Event::Server(ev)));
                        },
                        None => {},
                    }
                },
            }
            i = i + 1;
        }
        let mut out: Vec<Notification> = Vec::new();
        proof {
            assert(batch@.len() <= n);
            assert(n == old(self).registry.len());
            assert(old(self).registry.len() == old(self).topology.len());
        }
        while batch.len() > 0
            invariant
                self.wf(),
                self.topology == old(self).topology,
                self.next_id == old(self).next_id,
                self.liveness_fault == old(self).liveness_fault,
                old(self).registry.len() == old(self).topology.len(),
                out@.len() + batch@.len() <= old(self).registry.len(),
                self.events.contents().len() <= old(self).events.contents().len() + out@.len(),
                forall|k: int| 0 <= k < batch@.len() ==> self.batch_entry_ok(#[trigger] batch@[k]),
            decreases batch.len(),
        {
            let ghost pre = *self;
            let entry = batch.remove(0);
            let origin = entry.0;
            proof {
                assert(pre.batch_entry_ok((origin, entry.1)));
            }
            let note: Option<Notification> = match entry.1 {
                Event::Relay(ev) => {
                    match self.handle_relay_event(origin, ev) {
                        Ok(note) => Some(note),
                        Err(f) => {
                            proof {
                                assert(self.liveness_fault == pre.liveness_fault);
                                assert(self.registry.len() == self.topology.len());
                            }
                            return Err(f);
                        },
                    }
                },
                Event::WebClient(ev) => {
                    match self.handle_web_client_event(origin, ev) {
                        Ok(note) => note,
                        Err(f) => {
                            proof {
                                assert(self.liveness_fault == pre.liveness_fault);
                                assert(self.registry.len() == self.topology.len());
                            }
                            return Err(f);
                        },
                    }
                },
                Event::ChatClient(ev) => {
                    match self.handle_chat_client_event(origin, ev) {
                        Ok(note) => note,
                        Err(f) => {
                            proof {
                                assert(self.liveness_fault == pre.liveness_fault);
                                assert(self.registry.len() == self.topology.len());
                            }
                            return Err(f);
                        },
                    }
                },
                Event::Server(ev) => {
                    match self.handle_server_event(origin, ev) {
                        Ok(note) => Some(note),
                        Err(f) => {
                            proof {
                                assert(self.liveness_fault == pre.liveness_fault);
                                assert(self.registry.len() == self.topology.len());
                            }
                            return Err(f);
                        },
                    }
                },
            };
            let ghost mid = *self;
            match note {
                Some(entry_note) => {
                    self.events.push(entry_note.clone());
                    out.push(entry_note);
                },
                None => {},
            }
            proof {
                assert(self.topology == mid.topology && self.registry == mid.registry
                    && self.next_id == mid.next_id);
                assert forall|j: int| 0 <= j < self.topology.len() implies
                    #[trigger] self.actor_entry_ok(j) by {
                    assert(mid.actor_entry_ok(j));
                }
                Self::lemma_wf_parts(*self);
            }
            proof {
                assert forall|k: int| 0 <= k < batch@.len() implies self.batch_entry_ok(
                    #[trigger] batch@[k],
                ) by {
                    assert(pre.batch_entry_ok(batch@[k]));
                    assert(self.topology == pre.topology);
                }
            }
        }
        proof {
            assert(self.registry.len() == self.topology.len());
            assert(old(self).registry.len() == old(self).topology.len());
        }
        Ok(out)
    }
}

} // verus!
