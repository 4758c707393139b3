//! The actor registry: per actor, its id, its kind-specific command channel
//! and event receiver, its packet-channel sender, and — for clients — the
//! application state the router keeps up to date on their behalf.
//!
//! The registry exclusively owns every channel handle; the topology store
//! keeps only the shape of the network.

use crossbeam_channel::{Receiver, Sender};
use vstd::prelude::*;

use crate::actor::{ActorKind, ServerType};
use crate::messages::{
    ChatClientCommand, ChatClientEvent, RelayCommand, RelayEvent, ServerCommand, ServerEvent,
    WebClientCommand, WebClientEvent,
};
use crate::packet::Packet;

verus! {

/// The value stored under `k` in an association list, front-biased: the
/// first entry with key `k` wins.
pub open spec fn assoc_get<V>(s: Seq<(u8, V)>, k: u8) -> Option<V>
    decreases s.len(),
{
    if s.len() == 0 {
        None
    } else if s.first().0 == k {
        Some(s.first().1)
    } else {
        assoc_get(s.drop_first(), k)
    }
}

/// Replacing the entry at `i` — the first one keyed `k` — rebinds `k` and
/// nothing else.
proof fn lemma_assoc_update<V>(s: Seq<(u8, V)>, i: int, k: u8, val: V)
    requires
        0 <= i < s.len(),
        s[i].0 == k,
        forall|j: int| 0 <= j < i ==> s[j].0 != k,
    ensures
        assoc_get(s.update(i, (k, val)), k) == Some(val),
        forall|k2: u8| k2 != k ==> assoc_get(s.update(i, (k, val)), k2) == assoc_get(s, k2),
    decreases s.len(),
{
    let t = s.update(i, (k, val));
    if i == 0 {
        assert(t.first() == (k, val));
        assert(t.drop_first() =~= s.drop_first());
        assert forall|k2: u8| k2 != k implies assoc_get(t, k2) == assoc_get(s, k2) by {
            assert(t.first().0 == k && s.first().0 == k);
            assert(assoc_get(t, k2) == assoc_get(t.drop_first(), k2));
            assert(assoc_get(s, k2) == assoc_get(s.drop_first(), k2));
        }
    } else {
        assert(t.first() == s.first());
        assert(s.first().0 != k);
        assert(t.drop_first() =~= s.drop_first().update(i - 1, (k, val)));
        lemma_assoc_update(s.drop_first(), i - 1, k, val);
        assert(assoc_get(t, k) == assoc_get(t.drop_first(), k));
        assert forall|k2: u8| k2 != k implies assoc_get(t, k2) == assoc_get(s, k2) by {
            if t.first().0 != k2 {
                assert(assoc_get(t, k2) == assoc_get(t.drop_first(), k2));
                assert(assoc_get(s, k2) == assoc_get(s.drop_first(), k2));
            }
        }
    }
}

/// Appending an entry for an absent key binds it and changes nothing else.
proof fn lemma_assoc_push<V>(s: Seq<(u8, V)>, k: u8, val: V)
    requires
        forall|j: int| 0 <= j < s.len() ==> (#[trigger] s[j]).0 != k,
    ensures
        assoc_get(s.push((k, val)), k) == Some(val),
        forall|k2: u8| k2 != k ==> assoc_get(s.push((k, val)), k2) == assoc_get(s, k2),
    decreases s.len(),
{
    let t = s.push((k, val));
    if s.len() == 0 {
        assert(t.first() == (k, val));
        assert(t.drop_first() =~= Seq::<(u8, V)>::empty());
        assert forall|k2: u8| k2 != k implies assoc_get(t, k2) == assoc_get(s, k2) by {
            assert(assoc_get(t, k2) == assoc_get(t.drop_first(), k2));
        }
    } else {
        assert(t.first() == s.first());
        assert(s[0].0 != k);
        assert(t.drop_first() =~= s.drop_first().push((k, val)));
        assert forall|j: int| 0 <= j < s.drop_first().len() implies (#[trigger] s.drop_first()[j]).0
            != k by {
            assert(s.drop_first()[j] == s[j + 1]);
        }
        lemma_assoc_push(s.drop_first(), k, val);
        assert(assoc_get(t, k) == assoc_get(t.drop_first(), k));
        assert forall|k2: u8| k2 != k implies assoc_get(t, k2) == assoc_get(s, k2) by {
            if t.first().0 != k2 {
                assert(assoc_get(t, k2) == assoc_get(t.drop_first(), k2));
                assert(assoc_get(s, k2) == assoc_get(s.drop_first(), k2));
            }
        }
    }
}

/// Bind `k` to `val`: replace its first entry, or append one.
fn assoc_set<V>(v: &mut Vec<(u8, V)>, k: u8, val: V)
    ensures
        assoc_get(final(v)@, k) == Some(val),
        forall|k2: u8| k2 != k ==> assoc_get(final(v)@, k2) == assoc_get(old(v)@, k2),
{
    let n = v.len();
    let mut i: usize = 0;
    while i < n
        invariant
            i <= n,
            n == v@.len(),
            v@ == old(v)@,
            forall|j: int| 0 <= j < i ==> (#[trigger] v@[j]).0 != k,
        decreases n - i,
    {
        if v[i].0 == k {
            proof {
                lemma_assoc_update(v@, i as int, k, val);
            }
            v.set(i, (k, val));
            return ;
        }
        i = i + 1;
    }
    proof {
        lemma_assoc_push(v@, k, val);
    }
    v.push((k, val));
}

/// The application state the router keeps for a web client.
pub struct WebClientInfo {
    /// The discovered servers and their types, as last reported.
    pub servers_types: Vec<(u8, ServerType)>,
    /// Per server, the file list it last reported.
    pub list_of_files: Vec<(u8, Vec<String>)>,
}

impl WebClientInfo {
    /// A web client that has discovered nothing yet.
    pub fn new() -> (r: WebClientInfo)
        ensures
            r.servers_types@ == Seq::<(u8, ServerType)>::empty(),
            r.list_of_files@ == Seq::<(u8, Vec<String>)>::empty(),
    {
        WebClientInfo { servers_types: Vec::new(), list_of_files: Vec::new() }
    }

    /// Record the file list the named server reported.
    pub fn add_list_of_files(&mut self, server_id: u8, files: Vec<String>)
        ensures
            final(self).servers_types == old(self).servers_types,
            assoc_get(final(self).list_of_files@, server_id) == Some(files),
            forall|k2: u8|
                k2 != server_id ==> assoc_get(final(self).list_of_files@, k2) == assoc_get(
                    old(self).list_of_files@,
                    k2,
                ),
    {
        assoc_set(&mut self.list_of_files, server_id, files);
    }

    /// Replace the discovered server types with a fresh report.
    pub fn add_server_type(&mut self, server_types: Vec<(u8, ServerType)>)
        ensures
            final(self).servers_types == server_types,
            final(self).list_of_files == old(self).list_of_files,
    {
        self.servers_types = server_types;
    }
}

/// Whether the report names `k` as a chat server.
pub open spec fn reports_chat_server(s: Seq<(u8, ServerType)>, k: u8) -> bool {
    exists|i: int| 0 <= i < s.len() && s[i] == (k, ServerType::ChatServer)
}

/// The application state the router keeps for a chat client.
pub struct ChatClientInfo {
    /// The discovered chat servers (only those; other kinds are ignored).
    pub servers_types: Vec<(u8, ServerType)>,
    /// The conversation so far: whether the entry was sent by this client,
    /// and its text.
    pub chat_messages: Vec<(bool, String)>,
    /// Per chat server, the clients connected to it, as last reported.
    pub list_connected_clients: Vec<(u8, Vec<u8>)>,
}

impl ChatClientInfo {
    /// A chat client that has discovered nothing yet.
    pub fn new() -> (r: ChatClientInfo)
        ensures
            r.servers_types@ == Seq::<(u8, ServerType)>::empty(),
            r.chat_messages@ == Seq::<(bool, String)>::empty(),
            r.list_connected_clients@ == Seq::<(u8, Vec<u8>)>::empty(),
    {
        ChatClientInfo {
            servers_types: Vec::new(),
            chat_messages: Vec::new(),
            list_connected_clients: Vec::new(),
        }
    }

    /// Take the chat servers out of a type report, ignoring every other
    /// server kind.
    pub fn add_server_type(&mut self, response: &Vec<(u8, ServerType)>)
        ensures
            final(self).chat_messages == old(self).chat_messages,
            final(self).list_connected_clients == old(self).list_connected_clients,
            forall|k: u8|
                assoc_get(final(self).servers_types@, k) == (if reports_chat_server(
                    response@,
                    k,
                ) {
                    Some(ServerType::ChatServer)
                } else {
                    assoc_get(old(self).servers_types@, k)
                }),
    {
        let n = response.len();
        let mut i: usize = 0;
        while i < n
            invariant
                i <= n,
                n == response@.len(),
                self.chat_messages == old(self).chat_messages,
                self.list_connected_clients == old(self).list_connected_clients,
                forall|k: u8|
                    #![trigger assoc_get(self.servers_types@, k)]
                    assoc_get(self.servers_types@, k) == (if reports_chat_server(
                        response@.subrange(0, i as int),
                        k,
                    ) {
                        Some(ServerType::ChatServer)
                    } else {
                        assoc_get(old(self).servers_types@, k)
                    }),
            decreases n - i,
        {
            let ghost pre = self.servers_types@;
            let entry = (response[i].0, response[i].1);
            if entry.1 == ServerType::ChatServer {
                assoc_set(&mut self.servers_types, entry.0, ServerType::ChatServer);
            }
            proof {
                let sub1 = response@.subrange(0, i as int + 1);
                let sub0 = response@.subrange(0, i as int);
                assert forall|k: u8| reports_chat_server(sub1, k) implies (reports_chat_server(
                    sub0,
                    k,
                ) || (response@[i as int] == (k, ServerType::ChatServer))) by {
                    let j = choose|j: int|
                        0 <= j < sub1.len() && sub1[j] == (k, ServerType::ChatServer);
                    if j < i {
                        assert(sub0[j] == sub1[j]);
                    } else {
                        assert(sub1[j] == response@[i as int]);
                    }
                }
                assert forall|k: u8| reports_chat_server(sub0, k) implies reports_chat_server(
                    sub1,
                    k,
                ) by {
                    let j = choose|j: int|
                        0 <= j < sub0.len() && sub0[j] == (k, ServerType::ChatServer);
                    assert(sub1[j] == sub0[j]);
                }
                if response@[i as int].1 == ServerType::ChatServer {
                    assert(sub1[i as int] == response@[i as int]);
                    assert(reports_chat_server(sub1, response@[i as int].0));
                }
            }
            i = i + 1;
        }
        proof {
            assert(response@.subrange(0, n as int) =~= response@);
        }
    }

    /// Append a message another participant sent.
    pub fn update_chat(&mut self, msg: String)
        ensures
            final(self).servers_types == old(self).servers_types,
            final(self).list_connected_clients == old(self).list_connected_clients,
            final(self).chat_messages@ == old(self).chat_messages@.push((false, msg)),
    {
        self.chat_messages.push((false, msg));
    }

    /// Record which clients the named chat server reports as connected.
    pub fn update_connected_client(&mut self, server_id: u8, connected_clients: Vec<u8>)
        ensures
            final(self).servers_types == old(self).servers_types,
            final(self).chat_messages == old(self).chat_messages,
            assoc_get(final(self).list_connected_clients@, server_id) == Some(connected_clients),
            forall|k2: u8|
                k2 != server_id ==> assoc_get(final(self).list_connected_clients@, k2) == assoc_get(
                    old(self).list_connected_clients@,
                    k2,
                ),
    {
        assoc_set(&mut self.list_connected_clients, server_id, connected_clients);
    }
}

/// The kind-specific half of an actor's handle: its command channel, its
/// event receiver, and any client state.
pub enum ActorLink {
    /// A relay's channels.
    Relay {
        /// Where structural commands go.
        commands: Sender<RelayCommand>,
        /// Where the relay's events arrive.
        events: Receiver<RelayEvent>,
    },
    /// A web client's channels and state.
    WebClient {
        /// Where structural commands go.
        commands: Sender<WebClientCommand>,
        /// Where the client's events arrive.
        events: Receiver<WebClientEvent>,
        /// The state kept on the client's behalf.
        info: WebClientInfo,
    },
    /// A chat client's channels and state.
    ChatClient {
        /// Where structural commands go.
        commands: Sender<ChatClientCommand>,
        /// Where the client's events arrive.
        events: Receiver<ChatClientEvent>,
        /// The state kept on the client's behalf.
        info: ChatClientInfo,
    },
    /// A server's channels.
    Server {
        /// Where structural commands go.
        commands: Sender<ServerCommand>,
        /// Where the server's events arrive.
        events: Receiver<ServerEvent>,
    },
}

impl ActorLink {
    /// The actor kind this link belongs to.
    pub open spec fn spec_kind(self) -> ActorKind {
        match self {
            ActorLink::Relay { .. } => ActorKind::Relay,
            ActorLink::WebClient { .. } => ActorKind::WebClient,
            ActorLink::ChatClient { .. } => ActorKind::ChatClient,
            ActorLink::Server { .. } => ActorKind::Server,
        }
    }

    /// Executable twin of [`Self::spec_kind`].
    pub fn kind(&self) -> (r: ActorKind)
        ensures
            r == self.spec_kind(),
    {
        match self {
            ActorLink::Relay { .. } => ActorKind::Relay,
            ActorLink::WebClient { .. } => ActorKind::WebClient,
            ActorLink::ChatClient { .. } => ActorKind::ChatClient,
            ActorLink::Server { .. } => ActorKind::Server,
        }
    }
}

/// One actor's full handle.
pub struct ActorHandle {
    /// The actor's id.
    pub id: u8,
    /// A sender into the actor's packet channel, cloned for peers when a
    /// link is added and used directly for shortcut delivery.
    pub packet_in: Sender<Packet>,
    /// The kind-specific channels and state.
    pub link: ActorLink,
}

/// All actor handles, in registration order.
pub struct Registry {
    /// The handles.
    pub actors: Vec<ActorHandle>,
}

impl Registry {
    /// Number of registered actors.
    pub open spec fn len(self) -> nat {
        self.actors@.len()
    }

    /// Id of the actor at index `i`.
    pub open spec fn id_at(self, i: int) -> u8 {
        self.actors@[i].id
    }

    /// Kind of the actor at index `i`.
    pub open spec fn kind_at(self, i: int) -> ActorKind {
        self.actors@[i].link.spec_kind()
    }

    /// An empty registry.
    pub fn new() -> (r: Registry)
        ensures
            r.len() == 0,
    {
        Registry { actors: Vec::new() }
    }
}

} // verus!
