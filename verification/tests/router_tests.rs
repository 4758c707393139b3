//! Tests for the event router: draining, dispatching, shortcut forwarding,
//! and the per-client state it maintains.

use crossbeam_channel::{unbounded, Receiver, Sender};
use sim_controller::actor::{ActorKind, ServerType};
use sim_controller::controller::Controller;
use sim_controller::errors::Fatal;
use sim_controller::messages::{
    ChatClientCommand, ChatClientEvent, NotificationDetail, RelayCommand, RelayEvent,
    ServerCommand, ServerEvent, WebClientCommand, WebClientEvent, WebFile,
};
use sim_controller::packet::{Packet, PacketKind, RoutingHeader};
use sim_controller::registry::{ActorHandle, ActorLink, ChatClientInfo, WebClientInfo};

struct RelayEnds {
    events: Sender<RelayEvent>,
    packets: Receiver<Packet>,
}

fn relay_with_ends(id: u8) -> (ActorHandle, RelayEnds) {
    let (cmd_tx, _cmd_rx) = unbounded::<RelayCommand>();
    let (ev_tx, ev_rx) = unbounded::<RelayEvent>();
    let (pkt_tx, pkt_rx) = unbounded::<Packet>();
    (
        ActorHandle {
            id,
            packet_in: pkt_tx,
            link: ActorLink::Relay { commands: cmd_tx, events: ev_rx },
        },
        RelayEnds { events: ev_tx, packets: pkt_rx },
    )
}

struct WebEnds {
    events: Sender<WebClientEvent>,
}

fn web_with_ends(id: u8) -> (ActorHandle, WebEnds) {
    let (cmd_tx, _cmd_rx) = unbounded::<WebClientCommand>();
    let (ev_tx, ev_rx) = unbounded::<WebClientEvent>();
    let (pkt_tx, _pkt_rx) = unbounded::<Packet>();
    (
        ActorHandle {
            id,
            packet_in: pkt_tx,
            link: ActorLink::WebClient {
                commands: cmd_tx,
                events: ev_rx,
                info: WebClientInfo::new(),
            },
        },
        WebEnds { events: ev_tx },
    )
}

struct ChatEnds {
    events: Sender<ChatClientEvent>,
}

fn chat_with_ends(id: u8) -> (ActorHandle, ChatEnds) {
    let (cmd_tx, _cmd_rx) = unbounded::<ChatClientCommand>();
    let (ev_tx, ev_rx) = unbounded::<ChatClientEvent>();
    let (pkt_tx, _pkt_rx) = unbounded::<Packet>();
    (
        ActorHandle {
            id,
            packet_in: pkt_tx,
            link: ActorLink::ChatClient {
                commands: cmd_tx,
                events: ev_rx,
                info: ChatClientInfo::new(),
            },
        },
        ChatEnds { events: ev_tx },
    )
}

struct ServerEnds {
    events: Sender<ServerEvent>,
    packets: Receiver<Packet>,
}

fn server_with_ends(id: u8) -> (ActorHandle, ServerEnds) {
    let (cmd_tx, _cmd_rx) = unbounded::<ServerCommand>();
    let (ev_tx, ev_rx) = unbounded::<ServerEvent>();
    let (pkt_tx, pkt_rx) = unbounded::<Packet>();
    (
        ActorHandle {
            id,
            packet_in: pkt_tx,
            link: ActorLink::Server { commands: cmd_tx, events: ev_rx },
        },
        ServerEnds { events: ev_tx, packets: pkt_rx },
    )
}

fn packet_to(kind: PacketKind, hops: Vec<u8>) -> Packet {
    Packet { kind, routing: RoutingHeader { hop_index: 0, hops } }
}

#[test]
fn poll_collects_informational_events() {
    let (relay, relay_ends) = relay_with_ends(1);
    let mut c = Controller::new(100);
    assert!(c.register_actor(relay).is_ok());
    relay_ends
        .events
        .send(RelayEvent::PacketSent(packet_to(PacketKind::MsgFragment, vec![1, 2])))
        .unwrap();
    let out = c.poll_events().expect("no protocol violation");
    assert_eq!(out.len(), 1);
    assert_eq!(out[0].actor, 1);
    assert_eq!(out[0].kind, ActorKind::Relay);
    assert!(matches!(out[0].detail, NotificationDetail::PacketSent(PacketKind::MsgFragment)));
    // The log kept the entry too.
    assert_eq!(c.events.len(), 1);
    // One event per actor per tick: the channel is empty now.
    let again = c.poll_events().expect("no protocol violation");
    assert_eq!(again.len(), 0);
}

#[test]
fn poll_takes_at_most_one_event_per_actor_per_tick() {
    let (relay, relay_ends) = relay_with_ends(1);
    let mut c = Controller::new(100);
    assert!(c.register_actor(relay).is_ok());
    for _ in 0..3 {
        relay_ends
            .events
            .send(RelayEvent::PacketDropped(packet_to(PacketKind::Ack, vec![1])))
            .unwrap();
    }
    assert_eq!(c.poll_events().unwrap().len(), 1);
    assert_eq!(c.poll_events().unwrap().len(), 1);
    assert_eq!(c.poll_events().unwrap().len(), 1);
    assert_eq!(c.poll_events().unwrap().len(), 0);
}

#[test]
fn shortcut_is_forwarded_to_final_hop() {
    let (relay, relay_ends) = relay_with_ends(1);
    let (server, server_ends) = server_with_ends(20);
    let mut c = Controller::new(100);
    assert!(c.register_actor(relay).is_ok());
    assert!(c.register_actor(server).is_ok());
    relay_ends
        .events
        .send(RelayEvent::ControllerShortcut(packet_to(PacketKind::Nack, vec![1, 20])))
        .unwrap();
    let out = c.poll_events().expect("destination is registered");
    assert_eq!(out.len(), 1);
    assert!(matches!(out[0].detail, NotificationDetail::ShortcutForwarded(PacketKind::Nack, 20)));
    // The packet really arrived, unchanged, on the server's packet channel.
    let delivered = server_ends.packets.try_recv().expect("packet was delivered");
    assert_eq!(delivered.kind, PacketKind::Nack);
    assert_eq!(delivered.routing.hops, vec![1, 20]);
}

#[test]
fn shortcut_to_unknown_destination_is_fatal() {
    let (relay, relay_ends) = relay_with_ends(1);
    let mut c = Controller::new(100);
    assert!(c.register_actor(relay).is_ok());
    relay_ends
        .events
        .send(RelayEvent::ControllerShortcut(packet_to(PacketKind::Ack, vec![1, 99])))
        .unwrap();
    let r = c.poll_events();
    assert_eq!(r.err(), Some(Fatal::UnknownShortcutDestination(99)));
}

#[test]
fn shortcut_without_destination_is_fatal() {
    let (relay, relay_ends) = relay_with_ends(1);
    let mut c = Controller::new(100);
    assert!(c.register_actor(relay).is_ok());
    relay_ends
        .events
        .send(RelayEvent::ControllerShortcut(packet_to(PacketKind::Ack, vec![])))
        .unwrap();
    let r = c.poll_events();
    assert_eq!(r.err(), Some(Fatal::ShortcutWithoutDestination));
}

#[test]
fn direct_shortcut_lookup_never_drops_silently() {
    let (relay, _ends) = relay_with_ends(1);
    let mut c = Controller::new(100);
    assert!(c.register_actor(relay).is_ok());
    let r = c.handle_shortcut(42, packet_to(PacketKind::FloodRequest, vec![1, 42]));
    assert_eq!(r, Err(Fatal::UnknownShortcutDestination(42)));
}

#[test]
fn web_client_file_list_is_recorded() {
    let (web, web_ends) = web_with_ends(10);
    let mut c = Controller::new(100);
    assert!(c.register_actor(web).is_ok());
    web_ends
        .events
        .send(WebClientEvent::ListOfFiles(vec!["a.html".to_string(), "b.html".to_string()], 20))
        .unwrap();
    let out = c.poll_events().unwrap();
    // A state update produces no observer notification.
    assert_eq!(out.len(), 0);
    let i = c.topology.lookup(10).unwrap();
    match &c.registry.actors[i].link {
        ActorLink::WebClient { info, .. } => {
            assert_eq!(info.list_of_files.len(), 1);
            assert_eq!(info.list_of_files[0].0, 20);
            assert_eq!(info.list_of_files[0].1, vec!["a.html".to_string(), "b.html".to_string()]);
        },
        _ => panic!("actor 10 is a web client"),
    }
}

#[test]
fn web_client_server_types_replace_old_report() {
    let (web, web_ends) = web_with_ends(10);
    let mut c = Controller::new(100);
    assert!(c.register_actor(web).is_ok());
    web_ends
        .events
        .send(WebClientEvent::ServersTypes(vec![(20, ServerType::FileServer)]))
        .unwrap();
    c.poll_events().unwrap();
    web_ends
        .events
        .send(WebClientEvent::ServersTypes(vec![(21, ServerType::MediaServer)]))
        .unwrap();
    c.poll_events().unwrap();
    let i = c.topology.lookup(10).unwrap();
    match &c.registry.actors[i].link {
        ActorLink::WebClient { info, .. } => {
            assert_eq!(info.servers_types, vec![(21, ServerType::MediaServer)]);
        },
        _ => panic!("actor 10 is a web client"),
    }
}

#[test]
fn retrieved_file_reaches_the_observer() {
    let (web, web_ends) = web_with_ends(10);
    let mut c = Controller::new(100);
    assert!(c.register_actor(web).is_ok());
    let file = WebFile {
        name: "index.html".to_string(),
        content: vec![60, 62],
        media: vec![("logo.png".to_string(), vec![1, 2, 3])],
    };
    web_ends.events.send(WebClientEvent::FileFromClient(file, 20)).unwrap();
    let out = c.poll_events().unwrap();
    assert_eq!(out.len(), 1);
    match &out[0].detail {
        NotificationDetail::FileReceived(f, sid) => {
            assert_eq!(f.name, "index.html");
            assert_eq!(f.content, vec![60, 62]);
            assert_eq!(f.media.len(), 1);
            assert_eq!(*sid, 20);
        },
        _ => panic!("expected the retrieved file"),
    }
}

#[test]
fn chat_client_keeps_only_chat_servers() {
    let (chat, chat_ends) = chat_with_ends(11);
    let mut c = Controller::new(100);
    assert!(c.register_actor(chat).is_ok());
    chat_ends
        .events
        .send(ChatClientEvent::ServersTypes(vec![
            (20, ServerType::ChatServer),
            (21, ServerType::FileServer),
            (22, ServerType::MediaServer),
        ]))
        .unwrap();
    c.poll_events().unwrap();
    let i = c.topology.lookup(11).unwrap();
    match &c.registry.actors[i].link {
        ActorLink::ChatClient { info, .. } => {
            assert_eq!(info.servers_types, vec![(20, ServerType::ChatServer)]);
        },
        _ => panic!("actor 11 is a chat client"),
    }
}

#[test]
fn chat_messages_accumulate_in_order() {
    let (chat, chat_ends) = chat_with_ends(11);
    let mut c = Controller::new(100);
    assert!(c.register_actor(chat).is_ok());
    chat_ends.events.send(ChatClientEvent::MessageReceived("hi".to_string())).unwrap();
    c.poll_events().unwrap();
    chat_ends.events.send(ChatClientEvent::MessageReceived("there".to_string())).unwrap();
    c.poll_events().unwrap();
    let i = c.topology.lookup(11).unwrap();
    match &c.registry.actors[i].link {
        ActorLink::ChatClient { info, .. } => {
            assert_eq!(
                info.chat_messages,
                vec![(false, "hi".to_string()), (false, "there".to_string())]
            );
        },
        _ => panic!("actor 11 is a chat client"),
    }
}

#[test]
fn add_link_hands_each_endpoint_the_peer_channel() {
    // Keep the command receivers to observe the structural commands.
    let (cmd_tx_1, cmd_rx_1) = unbounded::<RelayCommand>();
    let (_ev_tx_1, ev_rx_1) = unbounded::<RelayEvent>();
    let (pkt_tx_1, pkt_rx_1) = unbounded::<Packet>();
    let relay_1 = ActorHandle {
        id: 1,
        packet_in: pkt_tx_1,
        link: ActorLink::Relay { commands: cmd_tx_1, events: ev_rx_1 },
    };
    let (cmd_tx_2, cmd_rx_2) = unbounded::<RelayCommand>();
    let (_ev_tx_2, ev_rx_2) = unbounded::<RelayEvent>();
    let (pkt_tx_2, _pkt_rx_2) = unbounded::<Packet>();
    let relay_2 = ActorHandle {
        id: 2,
        packet_in: pkt_tx_2,
        link: ActorLink::Relay { commands: cmd_tx_2, events: ev_rx_2 },
    };
    let mut c = Controller::new(100);
    assert!(c.register_actor(relay_1).is_ok());
    assert!(c.register_actor(relay_2).is_ok());
    assert_eq!(c.request_add_link(1, "2"), Ok((1, 2)));
    // Each endpoint gets an AddSender naming the peer and carrying a clone
    // of the peer's packet-channel sender.
    match cmd_rx_1.try_recv().expect("relay 1 got a command") {
        RelayCommand::AddSender(peer, _ch) => assert_eq!(peer, 2),
        _ => panic!("expected AddSender"),
    }
    match cmd_rx_2.try_recv().expect("relay 2 got a command") {
        RelayCommand::AddSender(peer, ch) => {
            assert_eq!(peer, 1);
            // The carried sender feeds relay 1's packet channel.
            ch.send(packet_to(PacketKind::Ack, vec![2, 1])).unwrap();
            assert_eq!(pkt_rx_1.try_recv().unwrap().kind, PacketKind::Ack);
        },
        _ => panic!("expected AddSender"),
    }
}

#[test]
fn remove_link_and_crash_send_structural_commands() {
    let (cmd_tx_1, cmd_rx_1) = unbounded::<RelayCommand>();
    let (_ev_tx_1, ev_rx_1) = unbounded::<RelayEvent>();
    let (pkt_tx_1, _pkt_rx_1) = unbounded::<Packet>();
    let relay_1 = ActorHandle {
        id: 1,
        packet_in: pkt_tx_1,
        link: ActorLink::Relay { commands: cmd_tx_1, events: ev_rx_1 },
    };
    let (cmd_tx_2, cmd_rx_2) = unbounded::<RelayCommand>();
    let (_ev_tx_2, ev_rx_2) = unbounded::<RelayEvent>();
    let (pkt_tx_2, _pkt_rx_2) = unbounded::<Packet>();
    let relay_2 = ActorHandle {
        id: 2,
        packet_in: pkt_tx_2,
        link: ActorLink::Relay { commands: cmd_tx_2, events: ev_rx_2 },
    };
    let (cmd_tx_3, cmd_rx_3) = unbounded::<RelayCommand>();
    let (_ev_tx_3, ev_rx_3) = unbounded::<RelayEvent>();
    let (pkt_tx_3, _pkt_rx_3) = unbounded::<Packet>();
    let relay_3 = ActorHandle {
        id: 3,
        packet_in: pkt_tx_3,
        link: ActorLink::Relay { commands: cmd_tx_3, events: ev_rx_3 },
    };
    let (relay_4, _ends_4) = relay_with_ends(4);
    let mut c = Controller::new(100);
    assert!(c.register_actor(relay_1).is_ok());
    assert!(c.register_actor(relay_2).is_ok());
    assert!(c.register_actor(relay_3).is_ok());
    assert!(c.register_actor(relay_4).is_ok());
    assert!(c.add_initial_link(1, 2).is_ok());
    assert!(c.add_initial_link(2, 3).is_ok());
    assert!(c.add_initial_link(3, 4).is_ok());
    assert!(c.add_initial_link(4, 1).is_ok());
    assert!(c.add_initial_link(1, 3).is_ok());
    assert!(c.add_initial_link(2, 4).is_ok());
    // Removing 1 -- 2 tells each endpoint to forget the other.
    assert_eq!(c.request_remove_link(1, 2), Ok((1, 2)));
    assert!(matches!(cmd_rx_1.try_recv(), Ok(RelayCommand::RemoveSender(2))));
    assert!(matches!(cmd_rx_2.try_recv(), Ok(RelayCommand::RemoveSender(1))));
    // Crashing 3 tells it to crash and tells its neighbors to forget it.
    assert_eq!(c.request_crash(3), Ok(()));
    assert!(matches!(cmd_rx_3.try_recv(), Ok(RelayCommand::Crash)));
    assert!(matches!(cmd_rx_1.try_recv(), Ok(RelayCommand::RemoveSender(3))));
    assert!(matches!(cmd_rx_2.try_recv(), Ok(RelayCommand::RemoveSender(3))));
}

#[test]
fn assoc_state_helpers_are_consistent() {
    let mut info = WebClientInfo::new();
    info.add_list_of_files(20, vec!["a".to_string()]);
    info.add_list_of_files(21, vec!["b".to_string()]);
    info.add_list_of_files(20, vec!["c".to_string()]);
    assert_eq!(info.list_of_files.len(), 2);
    assert_eq!(info.list_of_files[0], (20, vec!["c".to_string()]));
    assert_eq!(info.list_of_files[1], (21, vec!["b".to_string()]));
}

#[test]
fn poll_on_empty_controller_returns_empty_batch() {
    let mut c = Controller::new(10);
    let out = c.poll_events().expect("nothing can go wrong with no actors");
    assert_eq!(out.len(), 0);
    assert_eq!(c.events.len(), 0);
}

#[test]
fn shortcut_to_closed_packet_channel_is_fatal() {
    let (relay, relay_ends) = relay_with_ends(1);
    // The destination is registered, but its packet receiver is dropped
    // immediately, so the forwarding send must fail loudly.
    let (cmd_tx, _cmd_rx) = unbounded::<RelayCommand>();
    let (_ev_tx2, ev_rx2) = unbounded::<RelayEvent>();
    let (pkt_tx, pkt_rx) = unbounded::<Packet>();
    drop(pkt_rx);
    let dest = ActorHandle {
        id: 2,
        packet_in: pkt_tx,
        link: ActorLink::Relay { commands: cmd_tx, events: ev_rx2 },
    };
    let mut c = Controller::new(10);
    assert!(c.register_actor(relay).is_ok());
    assert!(c.register_actor(dest).is_ok());
    relay_ends
        .events
        .send(RelayEvent::ControllerShortcut(packet_to(PacketKind::Ack, vec![1, 2])))
        .unwrap();
    let r = c.poll_events();
    assert_eq!(r.err(), Some(Fatal::CommandChannelClosed(2)));
}

#[test]
fn failed_structural_send_sets_the_liveness_fault() {
    // Both actors' command receivers are dropped by the helper, so the
    // AddSender commands cannot be delivered; the mutation still completes
    // (it was validated), and the breach is recorded for the caller.
    let (relay_1, _ends_1) = relay_with_ends(1);
    let (relay_2, _ends_2) = relay_with_ends(2);
    let mut c = Controller::new(10);
    assert!(c.register_actor(relay_1).is_ok());
    assert!(c.register_actor(relay_2).is_ok());
    assert_eq!(c.liveness_fault, None);
    assert_eq!(c.request_add_link(1, "2"), Ok((1, 2)));
    assert!(c.topology.has_edge(1, 2));
    assert_eq!(c.liveness_fault, Some(Fatal::CommandChannelClosed(1)));
}

#[test]
fn live_command_channels_leave_no_fault() {
    let (cmd_tx_1, _keep_1) = unbounded::<RelayCommand>();
    let (_ev_tx_1, ev_rx_1) = unbounded::<RelayEvent>();
    let (pkt_tx_1, _pkt_keep_1) = unbounded::<Packet>();
    let relay_1 = ActorHandle {
        id: 1,
        packet_in: pkt_tx_1,
        link: ActorLink::Relay { commands: cmd_tx_1, events: ev_rx_1 },
    };
    let (cmd_tx_2, _keep_2) = unbounded::<RelayCommand>();
    let (_ev_tx_2, ev_rx_2) = unbounded::<RelayEvent>();
    let (pkt_tx_2, _pkt_keep_2) = unbounded::<Packet>();
    let relay_2 = ActorHandle {
        id: 2,
        packet_in: pkt_tx_2,
        link: ActorLink::Relay { commands: cmd_tx_2, events: ev_rx_2 },
    };
    let mut c = Controller::new(10);
    assert!(c.register_actor(relay_1).is_ok());
    assert!(c.register_actor(relay_2).is_ok());
    assert_eq!(c.request_add_link(1, "2"), Ok((1, 2)));
    assert_eq!(c.liveness_fault, None);
}
