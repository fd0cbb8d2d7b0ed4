//! The relay's wire protocol: the commands a client may send and the events
//! the relay sends back. Each message travels as a tagged JSON object; the
//! codec module renders and parses that form.
use vstd::prelude::*;

verus! {

/// A command sent by a connected client to the relay.
pub enum IncomingMessage {
    /// Ask the relay to issue a pairing code for this client's channel.
    GenerateCode,
    /// Relay an opaque payload to every member of the channel.
    Data { content: String },
}

/// An event the relay sends to a client.
pub enum OutgoingMessage {
    /// A pairing code was issued; sent only to the requester.
    GeneratedCode { code: String },
    /// An opaque payload relayed from a member of the channel.
    Data { content: String },
    /// The first message a new member receives: its own id, the channel's
    /// identifier, a snapshot of the membership, and the protocol version.
    ConnectionInfo { id: u64, channel_uuid: u128, client_ids: Vec<u64>, protocol_version: u64 },
    /// A member joined the channel.
    ClientConnected { id: u64 },
    /// A member left the channel.
    ClientDisconnected { id: u64 },
}

/// The mathematical value of an incoming message: its strings as character
/// sequences.
pub enum IncomingView {
    GenerateCode,
    Data { content: Seq<char> },
}

/// The mathematical value of an outgoing message.
pub enum OutgoingView {
    GeneratedCode { code: Seq<char> },
    Data { content: Seq<char> },
    ConnectionInfo { id: u64, channel_uuid: u128, client_ids: Seq<u64>, protocol_version: u64 },
    ClientConnected { id: u64 },
    ClientDisconnected { id: u64 },
}

impl View for IncomingMessage {
    type V = IncomingView;

    open spec fn view(&self) -> IncomingView {
        match self {
            IncomingMessage::GenerateCode => IncomingView::GenerateCode,
            IncomingMessage::Data { content } => IncomingView::Data { content: content@ },
        }
    }
}

impl View for OutgoingMessage {
    type V = OutgoingView;

    open spec fn view(&self) -> OutgoingView {
        match self {
            OutgoingMessage::GeneratedCode { code } => OutgoingView::GeneratedCode { code: code@ },
            OutgoingMessage::Data { content } => OutgoingView::Data { content: content@ },
            OutgoingMessage::ConnectionInfo { id, channel_uuid, client_ids, protocol_version } => (
            OutgoingView::ConnectionInfo {
                id: *id,
                channel_uuid: *channel_uuid,
                client_ids: client_ids@,
                protocol_version: *protocol_version,
            }),
            OutgoingMessage::ClientConnected { id } => OutgoingView::ClientConnected { id: *id },
            OutgoingMessage::ClientDisconnected { id } => (OutgoingView::ClientDisconnected {
                id: *id,
            }),
        }
    }
}

/// The errors with which the relay refuses a connection attempt.
#[derive(Debug)]
pub enum QuasarError {
    /// No channel carries the presented identifier.
    ChannelNotFound,
    /// The presented pairing code is malformed, was never issued, or was
    /// already consumed.
    InvalidConnectionCode,
}

} // verus!
