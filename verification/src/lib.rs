//! Controller core for a simulated packet-switched overlay network.
//!
//! A supervising controller owns the authoritative view of the network's
//! topology: relay nodes, web clients, chat clients and servers, joined by
//! undirected links. Every structural change (adding or removing a link,
//! retiring a relay) is validated against degree, reachability and
//! connectivity invariants before it is applied to the in-memory graph and
//! announced to the live actors over their command channels. Events coming
//! back from the actors are drained without blocking and dispatched, with
//! out-of-band "shortcut" packets forwarded straight to their final hop.

pub mod actor;
pub mod channels;
pub mod controller;
pub mod errors;
pub mod event_queue;
pub mod messages;
pub mod packet;
pub mod parse;
pub mod registry;
pub mod paths;
pub mod topology;
pub mod validator;

use vstd::prelude::*;

verus! {

} // verus!
