//! The MessagePack parser: packets as MessagePack maps with the keys `type`, `nsp`, `data`,
//! `attachments` and `id`, binary payloads kept inside the data.
pub mod codec;
pub mod de;
pub mod ser;

use crate::packet::Packet;
use crate::parser::{ParserError, TransportPayload};
use de::{deserialize_packet, spec_decode, spec_decode_failure, try_deserialize_packet, Step};
use ser::{serialize_packet, spec_msgpack_serializable, spec_serialize_packet};
use vstd::prelude::*;

verus! {

/// The MsgPack parser
#[derive(Debug, Clone)]
pub struct MsgPackParser;

impl MsgPackParser {
    /// The parser (it keeps no state).
    pub fn new() -> (p: MsgPackParser) {
        MsgPackParser
    }

    /// Serialize a packet into one binary payload: the packet's MessagePack map. Binary
    /// attachments stay inside the data, so no separate attachment is returned.
    pub fn encode(&self, packet: Packet) -> (res: (TransportPayload, Vec<Vec<u8>>))
        requires
            spec_msgpack_serializable(packet@),
        ensures
            res.0 matches TransportPayload::Bytes(b) && b@ == spec_serialize_packet(packet@),
            res.1@.len() == 0,
    {
        let data = serialize_packet(packet);
        (TransportPayload::Bytes(data), Vec::new())
    }

    /// A string payload is never a MessagePack packet.
    pub fn decode_str(&self, data: &str) -> (res: Result<Packet, ParserError>)
        ensures
            res matches Err(ParserError::UnexpectedStringPacket),
    {
        Err(ParserError::UnexpectedStringPacket)
    }

    /// Parse a binary payload: a packet's MessagePack map.
    pub fn decode_bin(&self, bin: &[u8]) -> (res: Result<Packet, ParserError>)
        requires
            !(spec_decode(bin@) is Halt),
        ensures
            spec_decode(bin@) matches Step::Done(p) ==> res matches Ok(q) && q@ == p,
            spec_decode(bin@) is Fail ==> (res matches Err(ParserError::MsgPackDecode(w)) && w == spec_decode_failure(bin@)),
    {
        deserialize_packet(bin)
    }

    /// Parse a binary payload, or `None` on the input [`MsgPackParser::decode_bin`] requires
    /// absent.
    pub fn try_decode_bin(&self, bin: &[u8]) -> (res: Option<Result<Packet, ParserError>>)
        ensures
            res is None <==> spec_decode(bin@) is Halt,
            spec_decode(bin@) matches Step::Done(p) ==> res matches Some(Ok(q)) && q@ == p,
            spec_decode(bin@) is Fail ==> (res matches Some(Err(ParserError::MsgPackDecode(w))) && w == spec_decode_failure(bin@)),
    {
        try_deserialize_packet(bin)
    }
}

} // verus!
pub mod laws;
