//! The structural commands the controller sends to actors, the events
//! actors send back, and the notifications the router hands to observers.

use crossbeam_channel::Sender;
use vstd::prelude::*;

use crate::actor::{ActorKind, ServerType};
use crate::packet::{Packet, PacketKind};

verus! {

/// Commands a relay accepts from the controller.
pub enum RelayCommand {
    /// Learn how to transmit directly to the named peer.
    AddSender(u8, Sender<Packet>),
    /// Forget the route to the named peer.
    RemoveSender(u8),
    /// Retire permanently.
    Crash,
}

/// Commands a web client accepts from the controller.
pub enum WebClientCommand {
    /// Learn how to transmit directly to the named peer.
    AddSender(u8, Sender<Packet>),
    /// Forget the route to the named peer.
    RemoveSender(u8),
    /// Ask every known server for its type.
    AskServersTypes,
    /// Ask the named server for its file list.
    AskListOfFiles(u8),
    /// Ask the named server for one file.
    RequestFile(String, u8),
}

/// Commands a chat client accepts from the controller.
pub enum ChatClientCommand {
    /// Learn how to transmit directly to the named peer.
    AddSender(u8, Sender<Packet>),
    /// Forget the route to the named peer.
    RemoveSender(u8),
    /// Ask every known server for its type.
    AskServersTypes,
    /// Send a chat message.
    SendMessage(String),
}

/// Commands a server accepts from the controller.
pub enum ServerCommand {
    /// Learn how to transmit directly to the named peer.
    AddSender(u8, Sender<Packet>),
    /// Forget the route to the named peer.
    RemoveSender(u8),
}

/// Events a relay reports to the controller.
pub enum RelayEvent {
    /// A packet was forwarded.
    PacketSent(Packet),
    /// A packet was dropped.
    PacketDropped(Packet),
    /// A packet the relay cannot route; the controller must deliver it
    /// directly to its final hop.
    ControllerShortcut(Packet),
}

/// A file a web client retrieved, with its media attachments.
#[derive(Clone)]
pub struct WebFile {
    /// The file's name.
    pub name: String,
    /// The file's bytes.
    pub content: Vec<u8>,
    /// Attached media files, as name and bytes.
    pub media: Vec<(String, Vec<u8>)>,
}

/// Events a web client reports to the controller.
pub enum WebClientEvent {
    /// A packet was sent.
    PacketSent(Packet),
    /// A packet to deliver directly to its final hop.
    Shortcut(Packet),
    /// The named server's file list.
    ListOfFiles(Vec<String>, u8),
    /// A retrieved file, from the named server.
    FileFromClient(WebFile, u8),
    /// The types of the discovered servers.
    ServersTypes(Vec<(u8, ServerType)>),
    /// The last request was not supported.
    UnsupportedRequest,
}

/// Events a chat client reports to the controller.
pub enum ChatClientEvent {
    /// A packet was sent.
    PacketSent(Packet),
    /// A packet to deliver directly to its final hop.
    Shortcut(Packet),
    /// The types of the discovered servers.
    ServersTypes(Vec<(u8, ServerType)>),
    /// The last request was not supported.
    UnsupportedRequest,
    /// A chat message arrived.
    MessageReceived(String),
}

/// Events a server reports to the controller.
pub enum ServerEvent {
    /// A packet was sent.
    PacketSent(Packet),
    /// A packet to deliver directly to its final hop.
    ShortCut(Packet),
}

/// Any actor's event, tagged by the actor kind that produced it.
pub enum Event {
    /// From a relay.
    Relay(RelayEvent),
    /// From a web client.
    WebClient(WebClientEvent),
    /// From a chat client.
    ChatClient(ChatClientEvent),
    /// From a server.
    Server(ServerEvent),
}

/// What a dispatched event means to an observer.
#[derive(Clone)]
pub enum NotificationDetail {
    /// The actor sent a packet of this kind.
    PacketSent(PacketKind),
    /// The actor dropped a packet of this kind.
    PacketDropped(PacketKind),
    /// The actor asked for a shortcut; the packet was forwarded to the
    /// named destination.
    ShortcutForwarded(PacketKind, u8),
    /// The actor retrieved a file, to be stored and shown.
    FileReceived(WebFile, u8),
    /// The actor's last request was not supported.
    UnsupportedRequest,
}

/// One observer-visible entry produced by an event dispatch.
#[derive(Clone)]
pub struct Notification {
    /// The actor the event came from.
    pub actor: u8,
    /// That actor's kind.
    pub kind: ActorKind,
    /// What happened.
    pub detail: NotificationDetail,
}

} // verus!
