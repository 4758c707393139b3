//! Scenario tests for the mutation validator, driven through the public
//! request interface of the controller.

use crossbeam_channel::unbounded;
use sim_controller::actor::ActorKind;
use sim_controller::controller::{Controller, RELAY_CATALOG_SIZE};
use sim_controller::errors::Reason;
use sim_controller::messages::{
    ChatClientCommand, ChatClientEvent, RelayCommand, RelayEvent, ServerCommand, ServerEvent,
    WebClientCommand, WebClientEvent,
};
use sim_controller::packet::Packet;
use sim_controller::registry::{ActorHandle, ActorLink, ChatClientInfo, WebClientInfo};

fn relay_handle(id: u8) -> ActorHandle {
    let (cmd_tx, _cmd_rx) = unbounded::<RelayCommand>();
    let (_ev_tx, ev_rx) = unbounded::<RelayEvent>();
    let (pkt_tx, _pkt_rx) = unbounded::<Packet>();
    ActorHandle {
        id,
        packet_in: pkt_tx,
        link: ActorLink::Relay { commands: cmd_tx, events: ev_rx },
    }
}

fn web_client_handle(id: u8) -> ActorHandle {
    let (cmd_tx, _cmd_rx) = unbounded::<WebClientCommand>();
    let (_ev_tx, ev_rx) = unbounded::<WebClientEvent>();
    let (pkt_tx, _pkt_rx) = unbounded::<Packet>();
    ActorHandle {
        id,
        packet_in: pkt_tx,
        link: ActorLink::WebClient {
            commands: cmd_tx,
            events: ev_rx,
            info: WebClientInfo::new(),
        },
    }
}

fn chat_client_handle(id: u8) -> ActorHandle {
    let (cmd_tx, _cmd_rx) = unbounded::<ChatClientCommand>();
    let (_ev_tx, ev_rx) = unbounded::<ChatClientEvent>();
    let (pkt_tx, _pkt_rx) = unbounded::<Packet>();
    ActorHandle {
        id,
        packet_in: pkt_tx,
        link: ActorLink::ChatClient {
            commands: cmd_tx,
            events: ev_rx,
            info: ChatClientInfo::new(),
        },
    }
}

fn server_handle(id: u8) -> ActorHandle {
    let (cmd_tx, _cmd_rx) = unbounded::<ServerCommand>();
    let (_ev_tx, ev_rx) = unbounded::<ServerEvent>();
    let (pkt_tx, _pkt_rx) = unbounded::<Packet>();
    ActorHandle {
        id,
        packet_in: pkt_tx,
        link: ActorLink::Server { commands: cmd_tx, events: ev_rx },
    }
}

/// Three relays 1 -- 2 -- 3 in a line, client 10 on relay 1, server 20 on
/// relays 2 and 3.
fn line_topology() -> Controller {
    let mut c = Controller::new(100);
    assert!(c.register_actor(relay_handle(1)).is_ok());
    assert!(c.register_actor(relay_handle(2)).is_ok());
    assert!(c.register_actor(relay_handle(3)).is_ok());
    assert!(c.register_actor(web_client_handle(10)).is_ok());
    assert!(c.register_actor(server_handle(20)).is_ok());
    assert!(c.add_initial_link(1, 2).is_ok());
    assert!(c.add_initial_link(2, 3).is_ok());
    assert!(c.add_initial_link(10, 1).is_ok());
    assert!(c.add_initial_link(20, 2).is_ok());
    assert!(c.add_initial_link(20, 3).is_ok());
    c
}

#[test]
fn line_remove_bridge_breaks_reachability() {
    let mut c = line_topology();
    // Removing 1 -- 2 cuts client 10 off from server 20.
    let r = c.request_remove_link(1, 2);
    assert_eq!(r, Err(Reason::WouldBreakReachability(10)));
    assert!(c.topology.has_edge(1, 2));
}

#[test]
fn line_remove_redundant_edge_succeeds() {
    let mut c = line_topology();
    // 2 -- 3 is redundant: the server keeps both its links, the client
    // still reaches it, and the graph stays in one piece.
    let r = c.request_remove_link(2, 3);
    assert_eq!(r, Ok((2, 3)));
    assert!(!c.topology.has_edge(2, 3));
}

#[test]
fn line_remove_server_edge_hits_min_degree() {
    let mut c = line_topology();
    // The server sits at its minimum of two links.
    let r = c.request_remove_link(2, 20);
    assert_eq!(r, Err(Reason::MinDegreeViolation(20, None)));
    assert!(c.topology.has_edge(2, 20));
}

#[test]
fn line_crash_fails_for_lonely_client() {
    let mut c = line_topology();
    // Client 10 has only relay 1; crashing it would strand the client.
    let r = c.request_crash(1);
    assert_eq!(r, Err(Reason::NeighborMinDegreeViolation(10)));
    assert!(c.topology.contains(1));
}

#[test]
fn client_at_two_links_is_capped() {
    let mut c = line_topology();
    // Give client 10 a second relay, then try a third.
    assert_eq!(c.request_add_link(10, "2"), Ok((10, 2)));
    let r = c.request_add_link(10, "3");
    assert_eq!(r, Err(Reason::DegreeExceeded(10)));
    // The same cap applies with the relay as the source.
    let r2 = c.request_add_link(3, "10");
    assert_eq!(r2, Err(Reason::DegreeExceeded(10)));
}

#[test]
fn self_loop_always_rejected() {
    let mut c = line_topology();
    assert_eq!(c.request_add_link(1, "1"), Err(Reason::SelfLoop));
    assert_eq!(c.request_add_link(10, "10"), Err(Reason::SelfLoop));
    assert_eq!(c.request_add_link(20, "20"), Err(Reason::SelfLoop));
    // Even an unregistered id is a self-loop first.
    assert_eq!(c.request_add_link(99, "99"), Err(Reason::SelfLoop));
}

#[test]
fn duplicate_link_rejected_and_graph_untouched() {
    let mut c = line_topology();
    let deg_1_before = c.topology.lookup(1).map(|i| c.topology.degree_at(i));
    let r = c.request_add_link(1, "2");
    assert_eq!(r, Err(Reason::AlreadyConnected));
    let deg_1_after = c.topology.lookup(1).map(|i| c.topology.degree_at(i));
    assert_eq!(deg_1_before, deg_1_after);
    assert!(c.topology.has_edge(1, 2));
}

#[test]
fn peer_kind_rules_enforced() {
    let mut c = line_topology();
    assert!(c.register_actor(chat_client_handle(11)).is_ok());
    assert!(c.add_initial_link(11, 3).is_ok());
    // Client to client.
    assert_eq!(c.request_add_link(10, "11"), Err(Reason::PeerKindNotAllowed));
    // Client to server.
    assert_eq!(c.request_add_link(10, "20"), Err(Reason::PeerKindNotAllowed));
    // Server to client.
    assert_eq!(c.request_add_link(20, "11"), Err(Reason::PeerKindNotAllowed));
}

#[test]
fn unknown_target_is_node_not_found() {
    let mut c = line_topology();
    assert_eq!(c.request_add_link(1, "77"), Err(Reason::NodeNotFound));
}

#[test]
fn malformed_target_is_parse_error() {
    let mut c = line_topology();
    assert_eq!(c.request_add_link(1, ""), Err(Reason::ParseError));
    assert_eq!(c.request_add_link(1, "x7"), Err(Reason::ParseError));
    assert_eq!(c.request_add_link(1, "300"), Err(Reason::ParseError));
}

#[test]
fn both_endpoints_below_minimum_are_named() {
    let mut c = Controller::new(10);
    // Client 10 -- relay 1 is the only edge on both endpoints; both
    // endpoints would fall below their minimum.
    assert!(c.register_actor(relay_handle(1)).is_ok());
    assert!(c.register_actor(web_client_handle(10)).is_ok());
    assert!(c.add_initial_link(10, 1).is_ok());
    let r = c.request_remove_link(10, 1);
    assert_eq!(r, Err(Reason::MinDegreeViolation(10, Some(1))));
}

#[test]
fn bridge_removal_would_disconnect_relay_island() {
    let mut c = Controller::new(10);
    // Client 10 and server 20 cluster on relay 1 and relay 3; relays 4 and 5
    // form an island hanging off relay 3 via the bridge 3 -- 4.
    assert!(c.register_actor(relay_handle(1)).is_ok());
    assert!(c.register_actor(relay_handle(3)).is_ok());
    assert!(c.register_actor(relay_handle(4)).is_ok());
    assert!(c.register_actor(relay_handle(5)).is_ok());
    assert!(c.register_actor(web_client_handle(10)).is_ok());
    assert!(c.register_actor(server_handle(20)).is_ok());
    assert!(c.add_initial_link(10, 1).is_ok());
    assert!(c.add_initial_link(20, 1).is_ok());
    assert!(c.add_initial_link(20, 3).is_ok());
    assert!(c.add_initial_link(1, 3).is_ok());
    assert!(c.add_initial_link(3, 4).is_ok());
    assert!(c.add_initial_link(4, 5).is_ok());
    // Degrees stay legal and the client still reaches the server, but the
    // relay island {4, 5} would split off.
    let r = c.request_remove_link(3, 4);
    assert_eq!(r, Err(Reason::WouldDisconnectGraph));
}

#[test]
fn crash_that_breaks_reachability_names_the_client() {
    let mut c = Controller::new(10);
    // 10 -- 1 -- 2 -- 20, with 20 also on relays 3 and 4 so its degree
    // survives; crashing 2 strands the client at relay 1.
    assert!(c.register_actor(relay_handle(1)).is_ok());
    assert!(c.register_actor(relay_handle(2)).is_ok());
    assert!(c.register_actor(relay_handle(3)).is_ok());
    assert!(c.register_actor(relay_handle(4)).is_ok());
    assert!(c.register_actor(web_client_handle(10)).is_ok());
    assert!(c.register_actor(server_handle(20)).is_ok());
    assert!(c.add_initial_link(10, 1).is_ok());
    assert!(c.add_initial_link(1, 2).is_ok());
    assert!(c.add_initial_link(2, 20).is_ok());
    assert!(c.add_initial_link(3, 20).is_ok());
    assert!(c.add_initial_link(4, 20).is_ok());
    assert!(c.add_initial_link(2, 3).is_ok());
    assert!(c.add_initial_link(2, 4).is_ok());
    let r = c.request_crash(2);
    assert_eq!(r, Err(Reason::WouldBreakReachability(10)));
    assert!(c.topology.contains(2));
}

#[test]
fn crash_of_redundant_relay_succeeds() {
    let mut c = line_topology();
    // Give relay 3 a safety margin, then make it redundant.
    assert_eq!(c.request_add_link(10, "2"), Ok((10, 2)));
    assert_eq!(c.request_add_link(20, "1"), Ok((20, 1)));
    // Relay 3's neighbors are 2 (degree 3) and 20 (degree 3): all can
    // afford the loss, and 3 carries no one exclusively.
    let r = c.request_crash(3);
    assert_eq!(r, Ok(()));
    assert!(!c.topology.contains(3));
    assert!(!c.topology.has_edge(2, 3));
}

#[test]
fn crash_of_unknown_node_is_not_found() {
    let mut c = line_topology();
    assert_eq!(c.request_crash(77), Err(Reason::NodeNotFound));
}

#[test]
fn spawn_assigns_fresh_id_and_relay_kind() {
    let mut c = line_topology();
    let ticket = c.request_spawn_relay().expect("id space is far from full");
    assert!(ticket.impl_index < RELAY_CATALOG_SIZE);
    let idx = c.topology.lookup(ticket.id).expect("spawned relay is registered");
    assert_eq!(c.topology.kind(idx), ActorKind::Relay);
    assert_eq!(c.topology.degree_at(idx), 0);
    // The new relay can be linked in through the normal request.
    let target = ticket.id.to_string();
    assert_eq!(c.request_add_link(1, &target), Ok((1, ticket.id)));
    assert!(c.topology.has_edge(1, ticket.id));
    // Ids are never reused: a second spawn gets a different id.
    let second = c.request_spawn_relay().expect("id space is far from full");
    assert_ne!(second.id, ticket.id);
}

#[test]
fn register_rejects_duplicate_id() {
    let mut c = Controller::new(10);
    assert!(c.register_actor(relay_handle(1)).is_ok());
    let dup = relay_handle(1);
    match c.register_actor(dup) {
        Err(h) => assert_eq!(h.id, 1),
        Ok(()) => panic!("duplicate id accepted"),
    }
}

#[test]
fn initial_link_sanity_checks() {
    let mut c = Controller::new(10);
    assert!(c.register_actor(relay_handle(1)).is_ok());
    assert!(c.register_actor(relay_handle(2)).is_ok());
    assert_eq!(c.add_initial_link(1, 1), Err(Reason::SelfLoop));
    assert_eq!(c.add_initial_link(1, 9), Err(Reason::NodeNotFound));
    assert_eq!(c.add_initial_link(1, 2), Ok(()));
    assert_eq!(c.add_initial_link(2, 1), Err(Reason::AlreadyConnected));
}

#[test]
fn neighbor_enumeration_matches_the_links() {
    let c = line_topology();
    let nbrs_2 = c.topology.neighbors(2).expect("relay 2 is present");
    assert_eq!(nbrs_2, vec![1, 3, 20]);
    assert_eq!(c.topology.neighbors(99), None);
}

#[test]
fn successful_mutations_keep_the_invariants_observable() {
    let mut c = line_topology();
    // A legal add, then a legal remove: afterwards every client still
    // reaches every server and the graph hangs together, observable through
    // the validator accepting further removals only where legal.
    assert_eq!(c.request_add_link(10, "2"), Ok((10, 2)));
    assert_eq!(c.request_remove_link(10, 1), Ok((10, 1)));
    // Client 10 now has only relay 2: taking that too must be rejected.
    let r = c.request_remove_link(10, 2);
    assert_eq!(r, Err(Reason::MinDegreeViolation(10, None)));
}
