//! Unit tests for the small pieces: the id parser, the bounded event log,
//! packet labels, and the error descriptions.

use sim_controller::errors::{Fatal, Reason};
use sim_controller::event_queue::EventQueue;
use sim_controller::packet::{Packet, PacketKind, RoutingHeader};
use sim_controller::parse::parse_actor_id;

#[test]
fn parse_accepts_plain_decimals() {
    assert_eq!(parse_actor_id("0"), Ok(0));
    assert_eq!(parse_actor_id("7"), Ok(7));
    assert_eq!(parse_actor_id("42"), Ok(42));
    assert_eq!(parse_actor_id("255"), Ok(255));
}

#[test]
fn parse_accepts_leading_zeros() {
    assert_eq!(parse_actor_id("007"), Ok(7));
    assert_eq!(parse_actor_id("00000000000000000250"), Ok(250));
}

#[test]
fn parse_rejects_bad_input() {
    assert_eq!(parse_actor_id(""), Err(Reason::ParseError));
    assert_eq!(parse_actor_id("abc"), Err(Reason::ParseError));
    assert_eq!(parse_actor_id("1a"), Err(Reason::ParseError));
    assert_eq!(parse_actor_id("-1"), Err(Reason::ParseError));
    assert_eq!(parse_actor_id(" 7"), Err(Reason::ParseError));
    assert_eq!(parse_actor_id("256"), Err(Reason::ParseError));
    assert_eq!(parse_actor_id("999999999999999999"), Err(Reason::ParseError));
}

#[test]
fn event_queue_keeps_the_newest_entries() {
    let mut q: EventQueue<u32> = EventQueue::new(3);
    assert_eq!(q.len(), 0);
    q.push(1);
    q.push(2);
    q.push(3);
    assert_eq!(q.len(), 3);
    q.push(4);
    assert_eq!(q.len(), 3);
    let entries: Vec<u32> = q.get().into_iter().copied().collect();
    assert_eq!(entries, vec![2, 3, 4]);
}

#[test]
fn event_queue_with_zero_capacity_still_takes_one() {
    let mut q: EventQueue<u32> = EventQueue::new(0);
    q.push(9);
    assert_eq!(q.len(), 1);
    let entries: Vec<u32> = q.get().into_iter().copied().collect();
    assert_eq!(entries, vec![9]);
}

#[test]
fn event_queue_preserves_order() {
    let mut q: EventQueue<String> = EventQueue::new(10);
    q.push("first".to_string());
    q.push("second".to_string());
    let entries = q.get();
    assert_eq!(entries[0], "first");
    assert_eq!(entries[1], "second");
}

#[test]
fn packet_destination_is_the_last_hop() {
    let p = Packet {
        kind: PacketKind::FloodResponse,
        routing: RoutingHeader { hops: vec![3, 2, 9], hop_index: 1 },
    };
    assert_eq!(p.destination(), Some(9));
    let empty = Packet {
        kind: PacketKind::Ack,
        routing: RoutingHeader { hops: vec![], hop_index: 0 },
    };
    assert_eq!(empty.destination(), None);
}

#[test]
fn packet_kind_labels() {
    assert_eq!(PacketKind::MsgFragment.name(), "MsgFragment");
    assert_eq!(PacketKind::Ack.name(), "Ack");
    assert_eq!(PacketKind::Nack.name(), "Nack");
    assert_eq!(PacketKind::FloodRequest.name(), "FloodRequest");
    assert_eq!(PacketKind::FloodResponse.name(), "FloodResponse");
}

#[test]
fn every_reason_has_a_description() {
    assert_eq!(Reason::SelfLoop.describe(), "cannot link an actor to itself");
    assert_eq!(Reason::AlreadyConnected.describe(), "the actors are already linked");
    assert_eq!(Reason::PeerKindNotAllowed.describe(), "these actor kinds may not be linked");
    assert_eq!(Reason::DegreeExceeded(1).describe(), "the client already has two links");
    assert_eq!(
        Reason::MinDegreeViolation(1, Some(2)).describe(),
        "an endpoint would fall below its minimum degree"
    );
    assert_eq!(
        Reason::NeighborMinDegreeViolation(3).describe(),
        "a neighbor would fall below its minimum degree"
    );
    assert_eq!(Reason::WouldDisconnectGraph.describe(), "the graph would become disconnected");
    assert_eq!(
        Reason::WouldBreakReachability(4).describe(),
        "a client would no longer reach every server"
    );
    assert_eq!(Reason::NodeNotFound.describe(), "no actor with that id exists");
    assert_eq!(Reason::ParseError.describe(), "the actor id could not be parsed");
    assert_eq!(
        Fatal::ShortcutWithoutDestination.describe(),
        "shortcut packet carries no destination"
    );
    assert_eq!(
        Fatal::UnknownShortcutDestination(9).describe(),
        "shortcut packet names an unknown destination"
    );
    assert_eq!(
        Fatal::CommandChannelClosed(7).describe(),
        "an actor's command or packet channel is closed"
    );
}
