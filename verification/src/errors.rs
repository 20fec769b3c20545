//! The errors of socket.io operations, and which of them end the engine.io connection.
use crate::adapter::Sid;
use vstd::prelude::*;

verus! {

/// Why an engine.io connection ends: the reasons the engine.io layer knows.
#[derive(Debug, Copy, Clone, PartialEq, Eq, Structural)]
pub enum EngineDisconnectReason {
    /// The client gracefully closed the connection
    TransportClose,
    /// The client sent multiple polling requests at the same time (it is forbidden according to the engine.io protocol)
    MultipleHttpPollingError,
    /// The client sent a bad request / the packet could not be parsed correctly
    PacketParsingError,
    /// An error occured in the transport layer
    TransportError,
    /// The client did not respond to the heartbeat
    HeartbeatTimeout,
    /// The server is being closed
    ClosingServer,
}

/// Error type for the adapter: the message of the error the adapter reported.
#[derive(Debug, Clone)]
pub struct AdapterError(pub String);

/// Error type for socketio
#[derive(Debug)]
pub enum SocketIoError {
    /// Error serializing json packet
    Serialize(serde_json::Error),
    /// Invalid packet type
    InvalidPacketType,
    /// Invalid event name
    InvalidEventName,
    /// Invalid namespace
    InvalidNamespace,
    /// Cannot find socketio socket
    SocketGone(Sid),
    /// Adapter error
    Adapter(AdapterError),
}

impl SocketIoError {
    /// The engine.io disconnect reason an error closes the connection with, if it is fatal: a
    /// missing socket closes the transport, an unparsable packet is a parsing error, and adapter
    /// and namespace errors keep the connection alive.
    pub fn disconnect_reason(&self) -> (r: Option<EngineDisconnectReason>)
        ensures
            r == (match self {
                SocketIoError::SocketGone(_) => Some(EngineDisconnectReason::TransportClose),
                SocketIoError::Serialize(_) => Some(EngineDisconnectReason::PacketParsingError),
                SocketIoError::InvalidPacketType => Some(EngineDisconnectReason::PacketParsingError),
                SocketIoError::InvalidEventName => Some(EngineDisconnectReason::PacketParsingError),
                SocketIoError::Adapter(_) => None,
                SocketIoError::InvalidNamespace => None,
            }),
    {
        match self {
            SocketIoError::SocketGone(_) => Some(EngineDisconnectReason::TransportClose),
            SocketIoError::Serialize(_) | SocketIoError::InvalidPacketType | SocketIoError::InvalidEventName => Some(
                EngineDisconnectReason::PacketParsingError,
            ),
            SocketIoError::Adapter(_) | SocketIoError::InvalidNamespace => None,
        }
    }
}

/// Error type when using the underlying engine.io socket
#[derive(Debug)]
pub enum SocketError<T> {
    /// The socket channel is full.
    InternalChannelFull(T),
    /// The socket is already closed
    Closed(T),
}

/// Error type for ack operations.
#[derive(Debug)]
pub enum AckError<T> {
    /// The ack response cannot be parsed
    Serde(serde_json::Error),
    /// The ack response timed out
    Timeout,
    /// An error happened while broadcasting to other socket.io nodes
    Adapter(AdapterError),
    /// Error sending/receiving data through the engine.io socket
    Socket(SocketError<T>),
}

/// Error type for broadcast operations.
#[derive(Debug)]
pub enum BroadcastError<T> {
    /// An error occurred while sending packets.
    Socket(Vec<SocketError<T>>),
    /// An error occurred while serializing the JSON packet.
    Serialize(serde_json::Error),
    /// An error occured while broadcasting to other nodes.
    Adapter(AdapterError),
}

impl<T> BroadcastError<T> {
    /// The broadcast error of the sending errors.
    pub fn from_socket_errors(errors: Vec<SocketError<T>>) -> (r: BroadcastError<T>)
        ensures
            r matches BroadcastError::Socket(e) && e == errors,
    {
        BroadcastError::Socket(errors)
    }
}

/// Error type for sending operations.
#[derive(Debug)]
pub enum SendError<T> {
    /// An error occurred while serializing the JSON packet.
    Serialize(serde_json::Error),
    /// Error sending/receiving data through the engine.io socket
    Socket(SocketError<T>),
}

/// Error type for disconnect operations.
#[derive(Debug)]
pub enum DisconnectError {
    /// The socket channel is full.
    InternalChannelFull,
    /// An error occured while broadcasting to other nodes.
    Adapter(AdapterError),
}

} // verus!
