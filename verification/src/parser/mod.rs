//! The parsers of the socket.io protocol: the common text format and the MessagePack format.
use vstd::prelude::*;

pub mod common;
pub mod msgpack;
pub mod text_laws;

pub use common::CommonParser;
use crate::packet::Packet;
use common::{
    acks_not_negative, nonempty_json_array, parse_bin_outcome, parse_str_outcome, spec_parse_str, spec_parse_terminates,
    spec_serializable, spec_serialize_bins, spec_serialize_text,
};
use crate::packet::{PacketDataView, PacketView, ValueView};
use text_laws::canonical_ns;
use vstd::utf8::encode_utf8;
use crate::packet::bins_view;
use vstd::string::StringSliceAdditionalSpecFns;

verus! {

/// Represent a socket.io payload that can be sent over an engine.io connection
#[derive(Debug, Clone, PartialEq)]
pub enum TransportPayload {
    /// A string payload that will be sent as a string engine.io packet
    Str(String),
    /// A binary payload that will be sent as a binary engine.io packet
    Bytes(Vec<u8>),
}

impl TransportPayload {
    /// The string, if the payload is a string.
    pub fn into_str(self) -> (res: Option<String>)
        ensures
            self matches TransportPayload::Str(s) ==> res == Some(s),
            self is Bytes ==> res is None,
    {
        match self {
            TransportPayload::Str(s) => Some(s),
            TransportPayload::Bytes(_) => None,
        }
    }

    /// The bytes, if the payload is binary.
    pub fn into_bytes(self) -> (res: Option<Vec<u8>>)
        ensures
            self matches TransportPayload::Bytes(b) ==> res == Some(b),
            self is Str ==> res is None,
    {
        match self {
            TransportPayload::Str(_) => None,
            TransportPayload::Bytes(b) => Some(b),
        }
    }
}

/// Errors when parsing/serializing socket.io packets
#[derive(Debug)]
pub enum ParserError {
    /// Invalid packet type
    InvalidPacketType,
    /// Invalid event name
    InvalidEventName,
    /// Invalid namespace
    InvalidNamespace,
    /// Received unexpected binary data
    UnexpectedBinaryPacket,
    /// Received unexpected string data
    UnexpectedStringPacket,
    /// Needs more binary data before deserialization. It is not exactly an error, it is used for
    /// control flow: the common parser needs adjacent binary packets and therefore returns it n
    /// times for n adjacent binary packets expected.
    NeedsMoreBinaryData,
    /// Error deserializing a json packet
    Serialize(serde_json::Error),
    /// Error decoding a MessagePack packet, with the reason
    MsgPackDecode(DecodeFailure),
}

/// Why a MessagePack packet could not be decoded.
#[derive(Debug, Clone, Copy, PartialEq, Eq)]
pub enum DecodeFailure {
    /// The packet map is empty or has more than 20 entries ("packet length too big or empty"),
    /// with its number of entries.
    PacketLength(u32),
    /// An ack or binary ack packet has no `id` entry ("event ack id not present").
    AckIdMissing,
    /// The bytes are not what the reader expects where it reads: a header or integer of another
    /// kind, bytes that are not UTF-8, an event without its name, or a connect error without its
    /// message.
    Malformed,
}

/// The kind of a parser [`ParserError`], without its payload.
pub enum ErrorKind {
    InvalidPacketType,
    InvalidEventName,
    InvalidNamespace,
    UnexpectedBinaryPacket,
    UnexpectedStringPacket,
    NeedsMoreBinaryData,
    Serialize,
    MsgPackDecode,
}

impl ParserError {
    /// The kind of this error.
    pub open spec fn kind(&self) -> ErrorKind {
        match self {
            ParserError::InvalidPacketType => ErrorKind::InvalidPacketType,
            ParserError::InvalidEventName => ErrorKind::InvalidEventName,
            ParserError::InvalidNamespace => ErrorKind::InvalidNamespace,
            ParserError::UnexpectedBinaryPacket => ErrorKind::UnexpectedBinaryPacket,
            ParserError::UnexpectedStringPacket => ErrorKind::UnexpectedStringPacket,
            ParserError::NeedsMoreBinaryData => ErrorKind::NeedsMoreBinaryData,
            ParserError::Serialize(_) => ErrorKind::Serialize,
            ParserError::MsgPackDecode(_) => ErrorKind::MsgPackDecode,
        }
    }
}

/// A payload that is sent over the network: a text frame or a binary frame.
#[derive(Debug, Clone, PartialEq)]
pub enum Emittable {
    /// A string payload that will be sent as a string websocket frame over the network.
    String(String),
    /// A binary payload that will be sent as a binary websocket frame over the network.
    Binary(Vec<u8>),
}

/// All the parser available; it dispatches to the one it holds.
#[derive(Debug)]
pub enum Parser {
    /// The default parser
    Common(CommonParser),
}

impl Parser {
    /// The default parser: the common parser, with no partial packet.
    pub fn new() -> (p: Parser)
        ensures
            p matches Parser::Common(c) && c.partial_bin_packet is None,
    {
        Parser::Common(CommonParser::new())
    }

    /// A new parser of the same kind, with no partial packet.
    pub fn fresh(&self) -> (p: Parser)
        ensures
            p matches Parser::Common(c) && c.partial_bin_packet is None,
    {
        match self {
            Parser::Common(_) => Parser::Common(CommonParser::new()),
        }
    }

    /// Serialize a packet into its text and the binary attachments sent after it.
    pub fn serialize(&self, packet: Packet) -> (res: (TransportPayload, Vec<Vec<u8>>))
        requires
            spec_serializable(packet@),
        ensures
            res.0 matches TransportPayload::Str(s) && s@ == spec_serialize_text(packet@),
            bins_view(res.1@) == spec_serialize_bins(packet@),
            (packet@.inner matches PacketDataView::Event(_, ValueView::Json(d), _) && nonempty_json_array(d))
                && !packet@.ns.contains(',') && acks_not_negative(packet@.inner) ==> spec_parse_str(
                encode_utf8(spec_serialize_text(packet@)),
            ) == Ok::<PacketView, ErrorKind>(PacketView { inner: packet@.inner, ns: canonical_ns(packet@.ns) }),
    {
        match self {
            Parser::Common(p) => p.serialize(packet),
        }
    }

    /// Parse a packet from its text.
    pub fn parse_str(&mut self, data: &str) -> (res: Result<Packet, ParserError>)
        requires
            spec_parse_terminates(data.spec_bytes()),
        ensures
            match (*old(self), *final(self)) {
                (Parser::Common(a), Parser::Common(b)) => parse_str_outcome(
                    data.spec_bytes(),
                    a.partial_bin_packet,
                    res,
                    b.partial_bin_packet,
                ),
            },
    {
        match self {
            Parser::Common(p) => p.parse_str(data),
        }
    }

    /// Parse a binary payload: an attachment of the partial binary packet.
    pub fn parse_bin(&mut self, bin: Vec<u8>) -> (res: Result<Packet, ParserError>)
        ensures
            match (*old(self), *final(self)) {
                (Parser::Common(a), Parser::Common(b)) => parse_bin_outcome(
                    a.partial_bin_packet,
                    bin@,
                    res,
                    b.partial_bin_packet,
                ),
            },
    {
        match self {
            Parser::Common(p) => p.parse_bin(bin),
        }
    }
}

} // verus!
