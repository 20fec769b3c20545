use socketioxide::packet::{MsgPackValue, Packet, Value};
use socketioxide::parser::msgpack::MsgPackParser;
use socketioxide::parser::{DecodeFailure, ParserError, TransportPayload};
use socketioxide::ProtocolVersion;

fn msgpack(data: Vec<u8>, attachments: usize) -> Value {
    Value::MsgPack(MsgPackValue::new(data, attachments))
}

/// `{"sid": "nwz3C8u7qysvgVqj"}`
fn sid_value() -> Value {
    let mut d = Vec::new();
    rmp::encode::write_map_len(&mut d, 1).unwrap();
    rmp::encode::write_str(&mut d, "sid").unwrap();
    rmp::encode::write_str(&mut d, "nwz3C8u7qysvgVqj").unwrap();
    msgpack(d, 0)
}

/// `{"data": "value™"}`
fn data_object(d: &mut Vec<u8>) {
    rmp::encode::write_map_len(d, 1).unwrap();
    rmp::encode::write_str(d, "data").unwrap();
    rmp::encode::write_str(d, "value™").unwrap();
}

fn object_value() -> Value {
    let mut d = Vec::new();
    data_object(&mut d);
    msgpack(d, 0)
}

/// `[{"data": "value™"}]`
fn array_value() -> Value {
    let mut d = Vec::new();
    rmp::encode::write_array_len(&mut d, 1).unwrap();
    data_object(&mut d);
    msgpack(d, 0)
}

/// `({"data": "value™"}, <bytes 1 2 3 4>)`, one attachment.
fn binary_value() -> Value {
    let mut d = Vec::new();
    rmp::encode::write_array_len(&mut d, 2).unwrap();
    data_object(&mut d);
    rmp::encode::write_bin(&mut d, &[1, 2, 3, 4]).unwrap();
    msgpack(d, 1)
}

fn str_value(s: &str) -> Value {
    let mut d = Vec::new();
    rmp::encode::write_str(&mut d, s).unwrap();
    msgpack(d, 0)
}

fn decode(value: &[u8]) -> Packet {
    MsgPackParser::new().decode_bin(value).unwrap()
}

fn encode(packet: Packet) -> Vec<u8> {
    match MsgPackParser::new().encode(packet).0 {
        TransportPayload::Bytes(b) => b,
        TransportPayload::Str(_) => panic!("implementation should only return bytes"),
    }
}

const CONNECT_ROOT: [u8; 40] = [
    131, 164, 116, 121, 112, 101, 0, 163, 110, 115, 112, 161, 47, 164, 100, 97, 116, 97, 129, 163, 115, 105, 100,
    176, 110, 119, 122, 51, 67, 56, 117, 55, 113, 121, 115, 118, 103, 86, 113, 106,
];
const CONNECT_CUSTOM: [u8; 48] = [
    131, 164, 116, 121, 112, 101, 0, 163, 110, 115, 112, 169, 47, 97, 100, 109, 105, 110, 226, 132, 162, 164, 100,
    97, 116, 97, 129, 163, 115, 105, 100, 176, 110, 119, 122, 51, 67, 56, 117, 55, 113, 121, 115, 118, 103, 86,
    113, 106,
];
const DISCONNECT_ROOT: [u8; 13] = [130, 164, 116, 121, 112, 101, 1, 163, 110, 115, 112, 161, 47];
const DISCONNECT_CUSTOM: [u8; 21] = [
    130, 164, 116, 121, 112, 101, 1, 163, 110, 115, 112, 169, 47, 97, 100, 109, 105, 110, 226, 132, 162,
];
const EVENT_ROOT: [u8; 40] = [
    131, 164, 116, 121, 112, 101, 2, 163, 110, 115, 112, 161, 47, 164, 100, 97, 116, 97, 146, 165, 101, 118, 101,
    110, 116, 129, 164, 100, 97, 116, 97, 168, 118, 97, 108, 117, 101, 226, 132, 162,
];
const EVENT_ROOT_EMPTY: [u8; 25] = [
    131, 164, 116, 121, 112, 101, 2, 163, 110, 115, 112, 161, 47, 164, 100, 97, 116, 97, 145, 165, 101, 118, 101,
    110, 116,
];
const EVENT_ROOT_ACK: [u8; 44] = [
    132, 164, 116, 121, 112, 101, 2, 163, 110, 115, 112, 161, 47, 164, 100, 97, 116, 97, 146, 165, 101, 118, 101,
    110, 116, 129, 164, 100, 97, 116, 97, 168, 118, 97, 108, 117, 101, 226, 132, 162, 162, 105, 100, 1,
];
const EVENT_CUSTOM: [u8; 48] = [
    131, 164, 116, 121, 112, 101, 2, 163, 110, 115, 112, 169, 47, 97, 100, 109, 105, 110, 226, 132, 162, 164, 100,
    97, 116, 97, 146, 165, 101, 118, 101, 110, 116, 129, 164, 100, 97, 116, 97, 168, 118, 97, 108, 117, 101, 226,
    132, 162,
];
const EVENT_CUSTOM_ACK: [u8; 52] = [
    132, 164, 116, 121, 112, 101, 2, 163, 110, 115, 112, 169, 47, 97, 100, 109, 105, 110, 226, 132, 162, 164, 100,
    97, 116, 97, 146, 165, 101, 118, 101, 110, 116, 129, 164, 100, 97, 116, 97, 168, 118, 97, 108, 117, 101, 226,
    132, 162, 162, 105, 100, 1,
];
const ACK_ROOT: [u8; 28] = [
    132, 164, 116, 121, 112, 101, 3, 163, 110, 115, 112, 161, 47, 164, 100, 97, 116, 97, 145, 164, 100, 97, 116,
    97, 162, 105, 100, 54,
];
const ACK_CUSTOM: [u8; 36] = [
    132, 164, 116, 121, 112, 101, 3, 163, 110, 115, 112, 169, 47, 97, 100, 109, 105, 110, 226, 132, 162, 164, 100,
    97, 116, 97, 145, 164, 100, 97, 116, 97, 162, 105, 100, 54,
];
const BIN_EVENT_ROOT: [u8; 59] = [
    132, 164, 116, 121, 112, 101, 5, 163, 110, 115, 112, 161, 47, 164, 100, 97, 116, 97, 147, 165, 101, 118, 101,
    110, 116, 129, 164, 100, 97, 116, 97, 168, 118, 97, 108, 117, 101, 226, 132, 162, 196, 4, 1, 2, 3, 4, 171, 97,
    116, 116, 97, 99, 104, 109, 101, 110, 116, 115, 1,
];
const BIN_EVENT_ROOT_ACK: [u8; 64] = [
    133, 164, 116, 121, 112, 101, 5, 163, 110, 115, 112, 161, 47, 164, 100, 97, 116, 97, 147, 165, 101, 118, 101,
    110, 116, 129, 164, 100, 97, 116, 97, 168, 118, 97, 108, 117, 101, 226, 132, 162, 196, 4, 1, 2, 3, 4, 171, 97,
    116, 116, 97, 99, 104, 109, 101, 110, 116, 115, 1, 162, 105, 100, 204, 254,
];
const BIN_EVENT_CUSTOM: [u8; 67] = [
    132, 164, 116, 121, 112, 101, 5, 163, 110, 115, 112, 169, 47, 97, 100, 109, 105, 110, 226, 132, 162, 164, 100,
    97, 116, 97, 147, 165, 101, 118, 101, 110, 116, 129, 164, 100, 97, 116, 97, 168, 118, 97, 108, 117, 101, 226,
    132, 162, 196, 4, 1, 2, 3, 4, 171, 97, 116, 116, 97, 99, 104, 109, 101, 110, 116, 115, 1,
];
const BIN_EVENT_CUSTOM_ACK: [u8; 72] = [
    133, 164, 116, 121, 112, 101, 5, 163, 110, 115, 112, 169, 47, 97, 100, 109, 105, 110, 226, 132, 162, 164, 100,
    97, 116, 97, 147, 165, 101, 118, 101, 110, 116, 129, 164, 100, 97, 116, 97, 168, 118, 97, 108, 117, 101, 226,
    132, 162, 196, 4, 1, 2, 3, 4, 171, 97, 116, 116, 97, 99, 104, 109, 101, 110, 116, 115, 1, 162, 105, 100, 204,
    254,
];
const BIN_ACK_ROOT: [u8; 57] = [
    133, 164, 116, 121, 112, 101, 6, 163, 110, 115, 112, 161, 47, 164, 100, 97, 116, 97, 146, 129, 164, 100, 97,
    116, 97, 168, 118, 97, 108, 117, 101, 226, 132, 162, 196, 4, 1, 2, 3, 4, 171, 97, 116, 116, 97, 99, 104, 109,
    101, 110, 116, 115, 1, 162, 105, 100, 54,
];
const BIN_ACK_CUSTOM: [u8; 65] = [
    133, 164, 116, 121, 112, 101, 6, 163, 110, 115, 112, 169, 47, 97, 100, 109, 105, 110, 226, 132, 162, 164, 100,
    97, 116, 97, 146, 129, 164, 100, 97, 116, 97, 168, 118, 97, 108, 117, 101, 226, 132, 162, 196, 4, 1, 2, 3, 4,
    171, 97, 116, 116, 97, 99, 104, 109, 101, 110, 116, 115, 1, 162, 105, 100, 54,
];

#[test]
fn mod_packet_encode_connect_root_ns() {
    let packet = encode(Packet::connect("/", sid_value(), ProtocolVersion::V5));
    assert_eq!(&CONNECT_ROOT[..], &packet[..]);
}

#[test]
fn msgpack_packet_encode_connect_root_ns() {
    let packet = encode(Packet::connect("/", sid_value(), ProtocolVersion::V5));
    assert_eq!(&CONNECT_ROOT[..], &packet[..]);
}

#[test]
fn packet_decode_connect_root_ns() {
    let packet = decode(&CONNECT_ROOT);
    assert_eq!(packet, Packet::connect("/", sid_value(), ProtocolVersion::V5));
}

#[test]
fn mod_packet_encode_connect_custom_ns() {
    let packet = encode(Packet::connect("/admin™", sid_value(), ProtocolVersion::V5));
    assert_eq!(&CONNECT_CUSTOM[..], &packet[..]);
}

#[test]
fn msgpack_packet_encode_connect_custom_ns() {
    let packet = encode(Packet::connect("/admin™", sid_value(), ProtocolVersion::V5));
    assert_eq!(&CONNECT_CUSTOM[..], &packet[..]);
}

#[test]
fn packet_decode_connect_custom_ns() {
    let packet = decode(&CONNECT_CUSTOM);
    assert_eq!(packet, Packet::connect("/admin™", sid_value(), ProtocolVersion::V5));
}

#[test]
fn mod_packet_encode_disconnect_root_ns() {
    let packet = encode(Packet::disconnect("/"));
    assert_eq!(&DISCONNECT_ROOT[..], &packet[..]);
}

#[test]
fn msgpack_packet_encode_disconnect_root_ns() {
    let packet = encode(Packet::disconnect("/"));
    assert_eq!(&DISCONNECT_ROOT[..], &packet[..]);
}

#[test]
fn packet_decode_disconnect_root_ns() {
    let packet = decode(&DISCONNECT_ROOT);
    assert_eq!(packet, Packet::disconnect("/"));
}

#[test]
fn mod_packet_encode_disconnect_custom_ns() {
    let packet = encode(Packet::disconnect("/admin™"));
    assert_eq!(&DISCONNECT_CUSTOM[..], &packet[..]);
}

#[test]
fn msgpack_packet_encode_disconnect_custom_ns() {
    let packet = encode(Packet::disconnect("/admin™"));
    assert_eq!(&DISCONNECT_CUSTOM[..], &packet[..]);
}

#[test]
fn packet_decode_disconnect_custom_ns() {
    let packet = decode(&DISCONNECT_CUSTOM);
    assert_eq!(packet, Packet::disconnect("/admin™"));
}

#[test]
fn mod_packet_encode_event_root_ns() {
    let packet = encode(Packet::event("/", "event", object_value()));
    assert_eq!(&EVENT_ROOT[..], &packet[..]);
}

#[test]
fn msgpack_packet_encode_event_root_ns() {
    let packet = encode(Packet::event("/", "event", object_value()));
    assert_eq!(&EVENT_ROOT[..], &packet[..]);
}

#[test]
fn packet_decode_event_root_ns() {
    let packet = decode(&EVENT_ROOT);
    assert_eq!(packet, Packet::event("/", "event", array_value()));
}

#[test]
fn mod_packet_encode_event_root_ns_empty_data() {
    let packet = decode(&EVENT_ROOT_EMPTY);
    assert_eq!(packet, Packet::event("/", "event", msgpack(vec![0x90], 0)));
}

#[test]
fn mod_packet_encode_event_root_ns_with_ack_id() {
    let mut packet = Packet::event("/", "event", object_value());
    packet.inner.set_ack_id(1);
    let packet = encode(packet);
    assert_eq!(&EVENT_ROOT_ACK[..], &packet[..]);
}

#[test]
fn msgpack_packet_encode_event_root_ns_with_ack_id() {
    let mut packet = Packet::event("/", "event", object_value());
    packet.inner.set_ack_id(1);
    let packet = encode(packet);
    assert_eq!(&EVENT_ROOT_ACK[..], &packet[..]);
}

#[test]
fn packet_decode_event_root_ns_with_ack_id() {
    let mut packet_comp = Packet::event("/", "event", array_value());
    packet_comp.inner.set_ack_id(1);
    let packet = decode(&EVENT_ROOT_ACK);
    assert_eq!(packet, packet_comp);
}

#[test]
fn mod_packet_encode_event_custom_ns() {
    let packet = encode(Packet::event("/admin™", "event", object_value()));
    assert_eq!(&EVENT_CUSTOM[..], &packet[..]);
}

#[test]
fn msgpack_packet_encode_event_custom_ns() {
    let packet = encode(Packet::event("/admin™", "event", object_value()));
    assert_eq!(&EVENT_CUSTOM[..], &packet[..]);
}

#[test]
fn packet_decode_event_custom_ns() {
    let packet = decode(&EVENT_CUSTOM);
    assert_eq!(packet, Packet::event("/admin™", "event", array_value()));
}

#[test]
fn mod_packet_encode_event_custom_ns_with_ack_id() {
    let mut packet = Packet::event("/admin™", "event", array_value());
    packet.inner.set_ack_id(1);
    let packet = encode(packet);
    assert_eq!(&EVENT_CUSTOM_ACK[..], &packet[..]);
}

#[test]
fn msgpack_packet_encode_event_custom_ns_with_ack_id() {
    let mut packet = Packet::event("/admin™", "event", array_value());
    packet.inner.set_ack_id(1);
    let packet = encode(packet);
    assert_eq!(&EVENT_CUSTOM_ACK[..], &packet[..]);
}

#[test]
fn packet_decode_event_custom_ns_with_ack_id() {
    let mut packet_ref = Packet::event("/admin™", "event", array_value());
    packet_ref.inner.set_ack_id(1);
    let packet = decode(&EVENT_CUSTOM_ACK);
    assert_eq!(packet, packet_ref);
}

#[test]
fn mod_packet_encode_event_ack_root_ns() {
    let packet = encode(Packet::ack("/", str_value("data"), 54));
    assert_eq!(&ACK_ROOT[..], &packet[..]);
}

#[test]
fn msgpack_packet_encode_event_ack_root_ns() {
    let packet = encode(Packet::ack("/", str_value("data"), 54));
    assert_eq!(&ACK_ROOT[..], &packet[..]);
}

#[test]
fn packet_decode_event_ack_root_ns() {
    let packet = decode(&ACK_ROOT);
    assert_eq!(packet, Packet::ack("/", msgpack(vec![145, 164, 100, 97, 116, 97], 0), 54));
}

#[test]
fn mod_packet_encode_event_ack_custom_ns() {
    let packet = encode(Packet::ack("/admin™", msgpack(vec![145, 164, 100, 97, 116, 97], 0), 54));
    assert_eq!(&ACK_CUSTOM[..], &packet[..]);
}

#[test]
fn msgpack_packet_encode_event_ack_custom_ns() {
    let packet = encode(Packet::ack("/admin™", str_value("data"), 54));
    assert_eq!(&ACK_CUSTOM[..], &packet[..]);
}

#[test]
fn packet_decode_event_ack_custom_ns() {
    let packet = decode(&ACK_CUSTOM);
    assert_eq!(packet, Packet::ack("/admin™", msgpack(vec![145, 164, 100, 97, 116, 97], 0), 54));
}

#[test]
fn mod_packet_encode_binary_event_root_ns() {
    let packet = encode(Packet::bin_event("/", "event", binary_value(), vec![]));
    assert_eq!(&BIN_EVENT_ROOT[..], &packet[..]);
}

#[test]
fn packet_decode_binary_event_root_ns() {
    let packet = decode(&BIN_EVENT_ROOT);
    assert_eq!(packet, Packet::bin_event("/", "event", binary_value(), vec![]));
}

#[test]
fn mod_packet_encode_binary_event_root_ns_with_ack_id() {
    let mut packet = Packet::bin_event("/", "event", binary_value(), vec![]);
    packet.inner.set_ack_id(254);
    let packet = encode(packet);
    assert_eq!(&BIN_EVENT_ROOT_ACK[..], &packet[..]);
}

#[test]
fn packet_decode_binary_event_root_ns_with_ack_id() {
    let mut packet_ref = Packet::bin_event("/", "event", binary_value(), vec![]);
    packet_ref.inner.set_ack_id(254);
    let packet = decode(&BIN_EVENT_ROOT_ACK);
    assert_eq!(packet, packet_ref);
}

#[test]
fn mod_packet_encode_binary_event_custom_ns() {
    let packet = encode(Packet::bin_event("/admin™", "event", binary_value(), vec![]));
    assert_eq!(&BIN_EVENT_CUSTOM[..], &packet[..]);
}

#[test]
fn packet_decode_binary_event_custom_ns() {
    let packet = decode(&BIN_EVENT_CUSTOM);
    assert_eq!(packet, Packet::bin_event("/admin™", "event", binary_value(), vec![]));
}

#[test]
fn mod_packet_encode_binary_event_custom_ns_with_ack_id() {
    let mut packet = Packet::bin_event("/admin™", "event", binary_value(), vec![]);
    packet.inner.set_ack_id(254);
    let packet = encode(packet);
    assert_eq!(&BIN_EVENT_CUSTOM_ACK[..], &packet[..]);
}

#[test]
fn packet_decode_binary_event_custom_ns_with_ack_id() {
    let mut packet_ref = Packet::bin_event("/admin™", "event", binary_value(), vec![]);
    packet_ref.inner.set_ack_id(254);
    let packet = decode(&BIN_EVENT_CUSTOM_ACK);
    assert_eq!(packet, packet_ref);
}

#[test]
fn mod_packet_encode_binary_ack_root_ns() {
    let packet = encode(Packet::bin_ack("/", binary_value(), vec![], 54));
    assert_eq!(&BIN_ACK_ROOT[..], &packet[..]);
}

#[test]
fn packet_decode_binary_ack_root_ns() {
    let packet = decode(&BIN_ACK_ROOT);
    assert_eq!(packet, Packet::bin_ack("/", binary_value(), vec![], 54));
}

#[test]
fn mod_packet_encode_binary_ack_custom_ns() {
    let packet = encode(Packet::bin_ack("/admin™", binary_value(), vec![], 54));
    assert_eq!(&BIN_ACK_CUSTOM[..], &packet[..]);
}

#[test]
fn packet_decode_binary_ack_custom_ns() {
    let packet = decode(&BIN_ACK_CUSTOM);
    assert_eq!(packet, Packet::bin_ack("/admin™", binary_value(), vec![], 54));
}

#[test]
fn msgpack_decode_str_is_refused() {
    assert!(matches!(
        MsgPackParser::new().decode_str("0"),
        Err(socketioxide::parser::ParserError::UnexpectedStringPacket)
    ));
}

#[test]
fn msgpack_decode_garbage() {
    let parser = MsgPackParser::new();
    // not a map
    assert!(matches!(parser.decode_bin(&[0x90]), Err(ParserError::MsgPackDecode(DecodeFailure::Malformed))));
    // empty map
    assert!(matches!(parser.decode_bin(&[0x80]), Err(ParserError::MsgPackDecode(DecodeFailure::PacketLength(0)))));
    // a map of 21 entries
    assert!(matches!(
        parser.decode_bin(&[0xde, 0x00, 0x15]),
        Err(ParserError::MsgPackDecode(DecodeFailure::PacketLength(21)))
    ));
    // a string length past the end of the input is not decoded
    assert!(parser.try_decode_bin(&[0x81, 0xa4, b't']).is_none());
    // an event ack without id
    let mut d = Vec::new();
    rmp::encode::write_map_len(&mut d, 3).unwrap();
    rmp::encode::write_str(&mut d, "type").unwrap();
    rmp::encode::write_uint(&mut d, 3).unwrap();
    rmp::encode::write_str(&mut d, "nsp").unwrap();
    rmp::encode::write_str(&mut d, "/").unwrap();
    rmp::encode::write_str(&mut d, "data").unwrap();
    rmp::encode::write_array_len(&mut d, 0).unwrap();
    assert!(matches!(parser.decode_bin(&d), Err(ParserError::MsgPackDecode(DecodeFailure::AckIdMissing))));
}
