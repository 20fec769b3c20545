//! Socket.io packet implementation.
//! The [`Packet`] is the base unit of data that is sent over the engine.io socket.
use crate::json::{json_parse, json_quote, spec_json_parse, spec_json_quote};
use crate::ProtocolVersion;
use vstd::prelude::*;

verus! {

/// A packet payload, already encoded for one of the two wire formats.
#[derive(Debug, Clone, PartialEq)]
pub enum Value {
    /// A JSON value, held as its canonical (compact) JSON text.
    Json(String),
    /// A MessagePack value.
    MsgPack(MsgPackValue),
}

/// A MessagePack encoded value and the number of binary attachments it holds.
#[derive(Debug, Clone, PartialEq)]
pub struct MsgPackValue {
    /// The encoded bytes: one MessagePack element.
    pub data: Vec<u8>,
    /// The number of binary attachments inside.
    pub attachments: usize,
}

/// Model of [`Value`].
pub enum ValueView {
    Json(Seq<char>),
    MsgPack(Seq<u8>, usize),
}

impl View for Value {
    type V = ValueView;

    open spec fn view(&self) -> ValueView {
        match self {
            Value::Json(t) => ValueView::Json(t@),
            Value::MsgPack(m) => ValueView::MsgPack(m.data@, m.attachments),
        }
    }
}

impl MsgPackValue {
    /// A MessagePack value from its encoded bytes and attachment count.
    pub fn new(data: Vec<u8>, attachments: usize) -> (v: MsgPackValue)
        ensures
            v.data@ == data@,
            v.attachments == attachments,
    {
        MsgPackValue { data, attachments }
    }
}

impl Value {
    /// A JSON value parsed from a JSON text; it holds the canonical text of that value.
    pub fn from_json(text: &str) -> (res: Result<Value, serde_json::Error>)
        ensures
            res is Ok <==> spec_json_parse(text@) is Some,
            res matches Ok(v) ==> v@ == ValueView::Json(spec_json_parse(text@).unwrap().text),
    {
        match json_parse(text) {
            Ok(p) => Ok(Value::Json(p.text)),
            Err(e) => Err(e),
        }
    }

    /// Whether the value is a MessagePack value with at least one attachment.
    pub fn has_binary(&self) -> (b: bool)
        ensures
            b == (self@ matches ValueView::MsgPack(_, n) && n > 0),
    {
        match self {
            Value::MsgPack(m) => m.attachments > 0,
            Value::Json(_) => false,
        }
    }

    /// The MessagePack content, if this is a MessagePack value.
    pub fn to_msgpack(self) -> (res: Option<MsgPackValue>)
        ensures
            res matches Some(m) ==> self@ == ValueView::MsgPack(m.data@, m.attachments),
            res is None <==> self@ is Json,
    {
        match self {
            Value::Json(_) => None,
            Value::MsgPack(m) => Some(m),
        }
    }

    /// The JSON text, if this is a JSON value.
    pub fn to_json(self) -> (res: Option<String>)
        ensures
            res matches Some(t) ==> self@ == ValueView::Json(t@),
            res is None <==> self@ is MsgPack,
    {
        match self {
            Value::Json(t) => Some(t),
            Value::MsgPack(_) => None,
        }
    }
}

/// Binary packet used when sending binary data.
#[derive(Debug, Clone, PartialEq)]
pub struct BinaryPacket {
    /// Data related to the packet
    pub data: Value,
    /// Binary payloads
    pub bin: Vec<Vec<u8>>,
    /// The number of expected payloads (used when receiving data)
    pub payload_count: usize,
}

/// The bytes of each binary payload.
pub open spec fn bins_view(bins: Seq<Vec<u8>>) -> Seq<Seq<u8>> {
    bins.map_values(|v: Vec<u8>| v@)
}

/// Model of [`BinaryPacket`].
pub struct BinaryPacketView {
    pub data: ValueView,
    pub bin: Seq<Seq<u8>>,
    pub payload_count: usize,
}

impl View for BinaryPacket {
    type V = BinaryPacketView;

    open spec fn view(&self) -> BinaryPacketView {
        BinaryPacketView { data: self.data@, bin: bins_view(self.bin@), payload_count: self.payload_count }
    }
}

/// The packet data, one variant per socket.io packet type.
///
/// | Type          | ID  |
/// |---------------|-----|
/// | CONNECT       | 0   |
/// | DISCONNECT    | 1   |
/// | EVENT         | 2   |
/// | ACK           | 3   |
/// | CONNECT_ERROR | 4   |
/// | BINARY_EVENT  | 5   |
/// | BINARY_ACK    | 6   |
#[derive(Debug, Clone, PartialEq)]
pub enum PacketData {
    /// Connect packet with optional payload (only used with v5 for response)
    Connect(Option<Value>),
    /// Disconnect packet, used to disconnect from a namespace
    Disconnect,
    /// Event packet with optional ack id, to request an ack from the other side
    Event(String, Value, Option<i64>),
    /// Event ack packet, to acknowledge an event
    EventAck(Value, i64),
    /// Connect error packet, sent when the namespace is invalid
    ConnectError(String),
    /// Binary event packet with optional ack id, to request an ack from the other side
    BinaryEvent(String, BinaryPacket, Option<i64>),
    /// Binary ack packet, to acknowledge an event with binary data
    BinaryAck(BinaryPacket, i64),
}

/// Model of [`PacketData`].
pub enum PacketDataView {
    Connect(Option<ValueView>),
    Disconnect,
    Event(Seq<char>, ValueView, Option<i64>),
    EventAck(ValueView, i64),
    ConnectError(Seq<char>),
    BinaryEvent(Seq<char>, BinaryPacketView, Option<i64>),
    BinaryAck(BinaryPacketView, i64),
}

impl View for PacketData {
    type V = PacketDataView;

    open spec fn view(&self) -> PacketDataView {
        match self {
            PacketData::Connect(None) => PacketDataView::Connect(None),
            PacketData::Connect(Some(v)) => PacketDataView::Connect(Some(v@)),
            PacketData::Disconnect => PacketDataView::Disconnect,
            PacketData::Event(e, d, a) => PacketDataView::Event(e@, d@, *a),
            PacketData::EventAck(d, a) => PacketDataView::EventAck(d@, *a),
            PacketData::ConnectError(s) => PacketDataView::ConnectError(s@),
            PacketData::BinaryEvent(e, b, a) => PacketDataView::BinaryEvent(e@, b@, *a),
            PacketData::BinaryAck(b, a) => PacketDataView::BinaryAck(b@, *a),
        }
    }
}

/// The socket.io packet type.
/// Each packet has a type and a namespace
#[derive(Debug, Clone, PartialEq)]
pub struct Packet {
    /// The packet data
    pub inner: PacketData,
    /// The namespace the packet belongs to
    pub ns: String,
}

/// Model of [`Packet`].
pub struct PacketView {
    pub inner: PacketDataView,
    pub ns: Seq<char>,
}

impl View for Packet {
    type V = PacketView;

    open spec fn view(&self) -> PacketView {
        PacketView { inner: self.inner@, ns: self.ns@ }
    }
}

/// The packet type number of a packet.
pub open spec fn spec_index(d: PacketDataView) -> usize {
    match d {
        PacketDataView::Connect(_) => 0,
        PacketDataView::Disconnect => 1,
        PacketDataView::Event(..) => 2,
        PacketDataView::EventAck(..) => 3,
        PacketDataView::ConnectError(_) => 4,
        PacketDataView::BinaryEvent(..) => 5,
        PacketDataView::BinaryAck(..) => 6,
    }
}

/// Whether a packet is a binary event or a binary ack.
pub open spec fn spec_is_binary(d: PacketDataView) -> bool {
    d is BinaryEvent || d is BinaryAck
}

/// Whether every expected binary payload of a packet has arrived (always true of a non-binary
/// packet).
pub open spec fn spec_is_complete(d: PacketDataView) -> bool {
    match d {
        PacketDataView::BinaryEvent(_, b, _) => b.payload_count == b.bin.len(),
        PacketDataView::BinaryAck(b, _) => b.payload_count == b.bin.len(),
        _ => true,
    }
}

/// The text of a connect error packet carrying a message.
pub open spec fn spec_connect_error_text(message: Seq<char>) -> Seq<char> {
    seq!['{', '"', 'm', 'e', 's', 's', 'a', 'g', 'e', '"', ':'] + spec_json_quote(message) + seq!['}']
}

impl PacketData {
    /// The packet type number.
    pub fn index(&self) -> (i: usize)
        ensures
            i == spec_index(self@),
    {
        match self {
            PacketData::Connect(_) => 0,
            PacketData::Disconnect => 1,
            PacketData::Event(_, _, _) => 2,
            PacketData::EventAck(_, _) => 3,
            PacketData::ConnectError(_) => 4,
            PacketData::BinaryEvent(_, _, _) => 5,
            PacketData::BinaryAck(_, _) => 6,
        }
    }

    /// Set the ack id of an event or binary event; other packets are left unchanged.
    pub fn set_ack_id(&mut self, ack_id: i64)
        ensures
            final(self)@ == (match old(self)@ {
                PacketDataView::Event(e, d, _) => PacketDataView::Event(e, d, Some(ack_id)),
                PacketDataView::BinaryEvent(e, b, _) => PacketDataView::BinaryEvent(e, b, Some(ack_id)),
                other => other,
            }),
    {
        match self {
            PacketData::Event(_, _, ack) => *ack = Some(ack_id),
            PacketData::BinaryEvent(_, _, ack) => *ack = Some(ack_id),
            _ => {},
        }
    }

    /// Check if the packet is a binary packet (either binary event or binary ack)
    pub fn is_binary(&self) -> (b: bool)
        ensures
            b == spec_is_binary(self@),
    {
        match self {
            PacketData::BinaryEvent(_, _, _) | PacketData::BinaryAck(_, _) => true,
            _ => false,
        }
    }

    /// Check if the binary packet is complete, it means that all payloads have been received
    pub fn is_complete(&self) -> (b: bool)
        ensures
            b == spec_is_complete(self@),
    {
        match self {
            PacketData::BinaryEvent(_, bin, _) => bin.payload_count == bin.bin.len(),
            PacketData::BinaryAck(bin, _) => bin.payload_count == bin.bin.len(),
            _ => true,
        }
    }
}

impl BinaryPacket {
    /// Create a new binary packet, expecting as many payloads as it is given.
    pub fn new(data: Value, bin: Vec<Vec<u8>>) -> (p: BinaryPacket)
        ensures
            p@.data == data@,
            p@.bin == bins_view(bin@),
            p.payload_count == bin.len(),
    {
        let payload_count = bin.len();
        BinaryPacket { data, bin, payload_count }
    }

    /// Add a payload to the binary packet, when all payloads are added,
    /// the packet is complete and can be further processed
    pub fn add_payload(&mut self, payload: Vec<u8>)
        ensures
            final(self)@ == (BinaryPacketView { bin: old(self)@.bin.push(payload@), ..old(self)@ }),
    {
        self.bin.push(payload);
        assert(bins_view(self.bin@) =~= bins_view(old(self).bin@).push(payload@));
    }

    /// Check if the binary packet is complete, it means that all payloads have been received
    pub fn is_complete(&self) -> (b: bool)
        ensures
            b == (self.payload_count == self.bin.len()),
    {
        self.payload_count == self.bin.len()
    }
}

fn string_of(s: &str) -> (r: String)
    ensures
        r@ == s@,
{
    s.to_owned()
}

impl Packet {
    /// A connect packet: with the given payload for protocol v5, without one for v4.
    pub fn connect(ns: &str, value: Value, protocol: ProtocolVersion) -> (p: Packet)
        ensures
            p.ns@ == ns@,
            protocol == ProtocolVersion::V4 ==> p.inner@ == PacketDataView::Connect(None),
            protocol == ProtocolVersion::V5 ==> p.inner@ == PacketDataView::Connect(Some(value@)),
    {
        match protocol {
            ProtocolVersion::V4 => Packet { inner: PacketData::Connect(None), ns: string_of(ns) },
            ProtocolVersion::V5 => Packet { inner: PacketData::Connect(Some(value)), ns: string_of(ns) },
        }
    }

    /// Create a disconnect packet for the given namespace
    pub fn disconnect(ns: &str) -> (p: Packet)
        ensures
            p@ == (PacketView { inner: PacketDataView::Disconnect, ns: ns@ }),
    {
        Packet { inner: PacketData::Disconnect, ns: string_of(ns) }
    }

    /// Create a connect error packet for the given namespace, with the message
    /// `{"message":<message as a JSON string>}`.
    pub fn connect_error(ns: &str, message: &str) -> (p: Packet)
        ensures
            p@ == (PacketView {
                inner: PacketDataView::ConnectError(spec_connect_error_text(message@)),
                ns: ns@,
            }),
    {
        let quoted = json_quote(message);
        let mut text = String::new();
        text.append("{\"message\":");
        text.append(quoted.as_str());
        text.append("}");
        proof {
            reveal_strlit("{\"message\":");
            reveal_strlit("}");
            assert(text@ =~= spec_connect_error_text(message@));
        }
        Packet { inner: PacketData::ConnectError(text), ns: string_of(ns) }
    }

    /// Create an event packet for the given namespace
    pub fn event(ns: &str, e: &str, data: Value) -> (p: Packet)
        ensures
            p@ == (PacketView { inner: PacketDataView::Event(e@, data@, None), ns: ns@ }),
    {
        Packet { inner: PacketData::Event(string_of(e), data, None), ns: string_of(ns) }
    }

    /// Create a binary event packet for the given namespace
    pub fn bin_event(ns: &str, e: &str, data: Value, bin: Vec<Vec<u8>>) -> (p: Packet)
        ensures
            p@ == (PacketView {
                inner: PacketDataView::BinaryEvent(
                    e@,
                    BinaryPacketView { data: data@, bin: bins_view(bin@), payload_count: bin.len() },
                    None,
                ),
                ns: ns@,
            }),
    {
        Packet { inner: PacketData::BinaryEvent(string_of(e), BinaryPacket::new(data, bin), None), ns: string_of(ns) }
    }

    /// Create an ack packet for the given namespace
    pub fn ack(ns: &str, data: Value, ack: i64) -> (p: Packet)
        ensures
            p@ == (PacketView { inner: PacketDataView::EventAck(data@, ack), ns: ns@ }),
    {
        Packet { inner: PacketData::EventAck(data, ack), ns: string_of(ns) }
    }

    /// Create a binary ack packet for the given namespace
    pub fn bin_ack(ns: &str, data: Value, bin: Vec<Vec<u8>>, ack: i64) -> (p: Packet)
        ensures
            p@ == (PacketView {
                inner: PacketDataView::BinaryAck(
                    BinaryPacketView { data: data@, bin: bins_view(bin@), payload_count: bin.len() },
                    ack,
                ),
                ns: ns@,
            }),
    {
        Packet { inner: PacketData::BinaryAck(BinaryPacket::new(data, bin), ack), ns: string_of(ns) }
    }
}

} // verus!
