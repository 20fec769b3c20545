use socketioxide::packet::{BinaryPacket, Packet, PacketData, Value};
use socketioxide::parser::common::get_size_hint;
use socketioxide::parser::{CommonParser, ParserError, TransportPayload};
use socketioxide::ProtocolVersion;

const SID: &str = "nwz3C8u7qysvgVqj";

fn json(text: &str) -> Value {
    Value::from_json(text).unwrap()
}

fn sid_json() -> String {
    format!("{{\"sid\":\"{}\"}}", SID)
}

fn encode(packet: Packet) -> String {
    match CommonParser::new().serialize(packet).0 {
        TransportPayload::Str(d) => d,
        TransportPayload::Bytes(_) => panic!("testing only returns str"),
    }
}

fn decode(value: String) -> Packet {
    CommonParser::new().parse_str(&value).unwrap()
}

#[test]
fn packet_decode_connect() {
    let payload = format!("0{}", sid_json());
    let packet = decode(payload);

    assert_eq!(Packet::connect("/", json(&sid_json()), ProtocolVersion::V5), packet);

    let payload = format!("0/admin™,{}", sid_json());
    let packet = decode(payload);

    assert_eq!(Packet::connect("/admin™", json(&sid_json()), ProtocolVersion::V5), packet);
}

#[test]
fn packet_encode_connect() {
    let payload = format!("0{}", sid_json());
    let packet = encode(Packet::connect("/", json(&sid_json()), ProtocolVersion::V5));
    assert_eq!(packet, payload);

    let payload = format!("0/admin™,{}", sid_json());
    let packet: String = encode(Packet::connect("/admin™", json(&sid_json()), ProtocolVersion::V5));
    assert_eq!(packet, payload);
}

#[test]
fn packet_decode_disconnect() {
    let payload = "1".to_string();
    let packet = decode(payload);
    assert_eq!(Packet::disconnect("/"), packet);

    let payload = "1/admin™,".to_string();
    let packet = decode(payload);
    assert_eq!(Packet::disconnect("/admin™"), packet);
}

#[test]
fn packet_encode_disconnect() {
    let payload = "1".to_string();
    let packet = encode(Packet::disconnect("/"));
    assert_eq!(packet, payload);

    let payload = "1/admin™,".to_string();
    let packet = encode(Packet::disconnect("/admin™"));
    assert_eq!(packet, payload);
}

#[test]
fn packet_decode_event() {
    let payload = format!("2{}", r#"["event",{"data":"value"}]"#);
    let packet = decode(payload);

    assert_eq!(Packet::event("/", "event", json(r#"[{"data":"value"}]"#)), packet);

    // Check with ack ID
    let payload = format!("21{}", r#"["event",{"data":"value"}]"#);
    let packet = decode(payload);

    let mut comparison_packet = Packet::event("/", "event", json(r#"[{"data":"value"}]"#));
    comparison_packet.inner.set_ack_id(1);
    assert_eq!(packet, comparison_packet);

    // Check with NS
    let payload = format!("2/admin™,{}", r#"["event",{"data":"value™"}]"#);
    let packet = decode(payload);

    assert_eq!(Packet::event("/admin™", "event", json(r#"[{"data":"value™"}]"#)), packet);

    // Check with ack ID and NS
    let payload = format!("2/admin™,1{}", r#"["event",{"data":"value™"}]"#);
    let mut packet = decode(payload);
    packet.inner.set_ack_id(1);

    let mut comparison_packet = Packet::event("/admin™", "event", json(r#"[{"data":"value™"}]"#));
    comparison_packet.inner.set_ack_id(1);

    assert_eq!(packet, comparison_packet);
}

#[test]
fn packet_encode_event() {
    let payload = format!("2{}", r#"["event",{"data":"value™"}]"#);
    let packet = encode(Packet::event("/", "event", json(r#"{"data":"value™"}"#)));

    assert_eq!(packet, payload);

    // Encode empty data
    let payload = format!("2{}", r#"["event",[]]"#);
    let packet = encode(Packet::event("/", "event", json("[]")));

    assert_eq!(packet, payload);

    // Encode with ack ID
    let payload = format!("21{}", r#"["event",{"data":"value™"}]"#);
    let mut packet = Packet::event("/", "event", json(r#"{"data":"value™"}"#));
    packet.inner.set_ack_id(1);
    let packet = encode(packet);

    assert_eq!(packet, payload);

    // Encode with NS
    let payload = format!("2/admin™,{}", r#"["event",{"data":"value™"}]"#);
    let packet = encode(Packet::event("/admin™", "event", json(r#"{"data":"value™"}"#)));

    assert_eq!(packet, payload);

    // Encode with NS and ack ID
    let payload = format!("2/admin™,1{}", r#"["event",{"data":"value™"}]"#);
    let mut packet = Packet::event("/admin™", "event", json(r#"[{"data":"value™"}]"#));
    packet.inner.set_ack_id(1);
    let packet = encode(packet);
    assert_eq!(packet, payload);
}

#[test]
fn packet_decode_event_ack() {
    let payload = "354[\"data\"]".to_string();
    let packet = decode(payload);

    assert_eq!(Packet::ack("/", json(r#"["data"]"#), 54), packet);

    let payload = "3/admin™,54[\"data\"]".to_string();
    let packet = decode(payload);

    assert_eq!(Packet::ack("/admin™", json(r#"["data"]"#), 54), packet);
}

#[test]
fn packet_encode_event_ack() {
    let payload = "354[\"data\"]".to_string();
    let packet = encode(Packet::ack("/", json(r#""data""#), 54));
    assert_eq!(packet, payload);

    let payload = "3/admin™,54[\"data\"]".to_string();
    let packet = encode(Packet::ack("/admin™", json(r#""data""#), 54));
    assert_eq!(packet, payload);
}

#[test]
fn packet_encode_connect_error() {
    let payload = format!("4{}", r#"{"message":"Invalid namespace"}"#);
    let packet = encode(Packet::connect_error("/", "Invalid namespace"));
    assert_eq!(packet, payload);

    let payload = format!("4/admin™,{}", r#"{"message":"Invalid namespace"}"#);
    let packet = encode(Packet::connect_error("/admin™", "Invalid namespace"));
    assert_eq!(packet, payload);
}

const BIN_EVENT_JSON: &str = r#"["event",{"data":"value™"},{"_placeholder":true,"num":0}]"#;
const BIN_ACK_JSON: &str = r#"[{"data":"value™"},{"_placeholder":true,"num":0}]"#;

#[test]
fn packet_encode_binary_event() {
    let payload = format!("51-{}", BIN_EVENT_JSON);
    let packet = encode(Packet::bin_event("/", "event", json(r#"{"data":"value™"}"#), vec![vec![1]]));

    assert_eq!(packet, payload);

    // Encode with ack ID
    let payload = format!("51-254{}", BIN_EVENT_JSON);
    let mut packet = Packet::bin_event("/", "event", json(r#"{"data":"value™"}"#), vec![vec![1]]);
    packet.inner.set_ack_id(254);
    let packet = encode(packet);

    assert_eq!(packet, payload);

    // Encode with NS
    let payload = format!("51-/admin™,{}", BIN_EVENT_JSON);
    let packet = encode(Packet::bin_event("/admin™", "event", json(r#"[{"data":"value™"}]"#), vec![vec![1]]));

    assert_eq!(packet, payload);

    // Encode with NS and ack ID
    let payload = format!("51-/admin™,254{}", BIN_EVENT_JSON);
    let mut packet = Packet::bin_event("/admin™", "event", json(r#"[{"data":"value™"}]"#), vec![vec![1]]);
    packet.inner.set_ack_id(254);
    let packet = encode(packet);
    assert_eq!(packet, payload);
}

fn bin_event_packet(ack: Option<i64>, ns: &str) -> Packet {
    Packet {
        inner: PacketData::BinaryEvent(
            "event".to_string(),
            BinaryPacket { bin: vec![vec![1]], data: json(r#"[{"data":"value™"}]"#), payload_count: 1 },
            ack,
        ),
        ns: ns.to_string(),
    }
}

#[test]
fn packet_decode_binary_event() {
    let mut parser = CommonParser::new();
    let payload = format!("51-{}", BIN_EVENT_JSON);
    assert!(matches!(parser.parse_str(&payload), Err(ParserError::NeedsMoreBinaryData)));
    let packet = parser.parse_bin(vec![1]).unwrap();

    assert_eq!(packet, bin_event_packet(None, "/"));

    // Check with ack ID
    let mut parser = CommonParser::new();
    let payload = format!("51-254{}", BIN_EVENT_JSON);
    assert!(matches!(parser.parse_str(&payload), Err(ParserError::NeedsMoreBinaryData)));
    let packet = parser.parse_bin(vec![1]).unwrap();

    assert_eq!(packet, bin_event_packet(Some(254), "/"));

    // Check with NS
    let mut parser = CommonParser::new();
    let payload = format!("51-/admin™,{}", BIN_EVENT_JSON);
    assert!(matches!(parser.parse_str(&payload), Err(ParserError::NeedsMoreBinaryData)));
    let packet = parser.parse_bin(vec![1]).unwrap();

    assert_eq!(packet, bin_event_packet(None, "/admin™"));

    // Check with ack ID and NS
    let mut parser = CommonParser::new();
    let payload = format!("51-/admin™,254{}", BIN_EVENT_JSON);
    assert!(matches!(parser.parse_str(&payload), Err(ParserError::NeedsMoreBinaryData)));
    let packet = parser.parse_bin(vec![1]).unwrap();

    assert_eq!(packet, bin_event_packet(Some(254), "/admin™"));
}

#[test]
fn packet_encode_binary_ack() {
    let payload = format!("61-54{}", BIN_ACK_JSON);
    let packet = encode(Packet::bin_ack("/", json(r#"{"data":"value™"}"#), vec![vec![1]], 54));

    assert_eq!(packet, payload);

    // Encode with NS
    let payload = format!("61-/admin™,54{}", BIN_ACK_JSON);
    let packet = encode(Packet::bin_ack("/admin™", json(r#"{"data":"value™"}"#), vec![vec![1]], 54));

    assert_eq!(packet, payload);
}

fn bin_ack_packet(ack: i64, ns: &str) -> Packet {
    Packet {
        inner: PacketData::BinaryAck(
            BinaryPacket { bin: vec![vec![1]], data: json(r#"[{"data":"value™"}]"#), payload_count: 1 },
            ack,
        ),
        ns: ns.to_string(),
    }
}

#[test]
fn packet_decode_binary_ack() {
    let payload = format!("61-54{}", BIN_ACK_JSON);
    let mut parser = CommonParser::new();
    assert!(matches!(parser.parse_str(&payload), Err(ParserError::NeedsMoreBinaryData)));
    let packet = parser.parse_bin(vec![1]).unwrap();

    assert_eq!(packet, bin_ack_packet(54, "/"));

    // Check with NS
    let mut parser = CommonParser::new();
    let payload = format!("61-/admin™,54{}", BIN_ACK_JSON);
    assert!(matches!(parser.parse_str(&payload), Err(ParserError::NeedsMoreBinaryData)));
    let packet = parser.parse_bin(vec![1]).unwrap();
    assert_eq!(packet, bin_ack_packet(54, "/admin™"));
}

#[test]
fn packet_size_hint() {
    let sid = json(&sid_json());
    let packet = Packet::connect("/", sid.clone(), ProtocolVersion::V5);
    assert_eq!(get_size_hint(&packet), 1);

    let packet = Packet::connect("/admin", sid.clone(), ProtocolVersion::V5);
    assert_eq!(get_size_hint(&packet), 8);

    let packet = Packet::connect("admin", sid.clone(), ProtocolVersion::V4);
    assert_eq!(get_size_hint(&packet), 8);

    let packet = Packet::disconnect("/");
    assert_eq!(get_size_hint(&packet), 1);

    let packet = Packet::disconnect("/admin");
    assert_eq!(get_size_hint(&packet), 8);

    let packet = Packet::event("/", "event", json(r#"{"data":"value™"}"#));
    assert_eq!(get_size_hint(&packet), 1);

    let packet = Packet::event("/admin", "event", json(r#"{"data":"value™"}"#));
    assert_eq!(get_size_hint(&packet), 8);

    let packet = Packet::ack("/", json(r#""data""#), 54);
    assert_eq!(get_size_hint(&packet), 3);

    let packet = Packet::ack("/admin", json(r#""data""#), 54);
    assert_eq!(get_size_hint(&packet), 10);

    let packet = Packet::bin_event("/", "event", json(r#"{"data":"value™"}"#), vec![vec![1]]);
    assert_eq!(get_size_hint(&packet), 3);

    let packet = Packet::bin_event("/admin", "event", json(r#"{"data":"value™"}"#), vec![vec![1]]);
    assert_eq!(get_size_hint(&packet), 10);

    let packet = Packet::bin_ack("/", json(r#""data""#), vec![vec![1]], 54);
    assert_eq!(get_size_hint(&packet), 5);
}
