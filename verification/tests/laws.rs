use socketioxide::packet::{MsgPackValue, Packet, Value};
use socketioxide::parser::common::{get_size_hint, CommonParser};
use socketioxide::parser::msgpack::MsgPackParser;
use socketioxide::parser::TransportPayload;
use socketioxide::ProtocolVersion;

fn mp(build: impl Fn(&mut Vec<u8>)) -> Value {
    let mut d = Vec::new();
    build(&mut d);
    Value::MsgPack(MsgPackValue::new(d, 0))
}

fn roundtrip(p: Packet) {
    let parser = MsgPackParser::new();
    let (payload, bins) = parser.encode(p.clone());
    assert!(bins.is_empty());
    let bytes = match payload {
        TransportPayload::Bytes(b) => b,
        TransportPayload::Str(_) => panic!("a MessagePack frame is bytes"),
    };
    assert_eq!(parser.decode_bin(&bytes).unwrap(), p);
}

#[test]
fn msgpack_decode_gives_back_what_encode_wrote() {
    let obj = mp(|d| {
        rmp::encode::write_map_len(d, 1).unwrap();
        rmp::encode::write_str(d, "k").unwrap();
        rmp::encode::write_uint(d, 300).unwrap();
    });
    let arr = mp(|d| {
        rmp::encode::write_array_len(d, 2).unwrap();
        rmp::encode::write_str(d, "a").unwrap();
        rmp::encode::write_sint(d, -7).unwrap();
    });
    roundtrip(Packet::connect("/", obj.clone(), ProtocolVersion::V5));
    roundtrip(Packet::disconnect("/admin"));
    roundtrip(Packet::event("/", "ev", arr.clone()));
    let mut with_ack = Packet::event("/x", "ev", arr.clone());
    with_ack.inner.set_ack_id(12);
    roundtrip(with_ack);
    roundtrip(Packet::ack("/", arr, 40000));
}

#[test]
fn size_hint_bounds_the_text_frame() {
    let parser = CommonParser::new();
    let cases = vec![
        (Packet::event("/chat", "message", Value::Json("[\"hi\",1]".to_string())), "[\"message\",\"hi\",1]"),
        (Packet::ack("/", Value::Json("[true]".to_string()), 123), "[true]"),
        (Packet::disconnect("/admin"), ""),
        (Packet::connect("/", Value::Json("{\"a\":1}".to_string()), ProtocolVersion::V5), "{\"a\":1}"),
    ];
    for (p, payload) in cases {
        let hint = get_size_hint(&p);
        let text = match parser.serialize(p).0 {
            TransportPayload::Str(s) => s,
            TransportPayload::Bytes(_) => panic!("a text frame"),
        };
        assert!(text.ends_with(payload));
        assert_eq!(text.len(), hint + payload.len(), "{}", text);
    }
}

fn text_of(p: Packet) -> String {
    match CommonParser::new().serialize(p).0 {
        TransportPayload::Str(s) => s,
        TransportPayload::Bytes(_) => panic!("a text frame"),
    }
}

#[test]
fn text_parse_reads_back_what_serialize_wrote() {
    let mut parser = CommonParser::new();
    let p = Packet::disconnect("admin");
    assert_eq!(parser.parse_str(&text_of(p)).unwrap(), Packet::disconnect("/admin"));
    let p = Packet::disconnect("/");
    assert_eq!(parser.parse_str(&text_of(p.clone())).unwrap(), p);
    let p = Packet::connect("/chat™", Value::Json("{\"token\":\"x\"}".to_string()), ProtocolVersion::V5);
    assert_eq!(parser.parse_str(&text_of(p.clone())).unwrap(), p);
    let p = Packet::connect("/", Value::Json("{}".to_string()), ProtocolVersion::V4);
    assert_eq!(parser.parse_str(&text_of(p.clone())).unwrap(), p);
    let mut e = Packet::event("/ns", "msg", Value::Json("[1,\"a\"]".to_string()));
    e.inner.set_ack_id(77);
    assert_eq!(parser.parse_str(&text_of(e.clone())).unwrap(), e);
}

#[test]
fn text_parse_reads_back_events_and_acks() {
    let mut parser = CommonParser::new();
    let e = Packet::event("/admin™", "event", Value::Json("[{\"data\":\"value™\"},2]".to_string()));
    assert_eq!(parser.parse_str(&text_of(e.clone())).unwrap(), e);
    let e = Packet::event("/", "ev\"q", Value::Json("[null]".to_string()));
    assert_eq!(parser.parse_str(&text_of(e.clone())).unwrap(), e);
    let a = Packet::ack("/admin™", Value::Json("[\"data\"]".to_string()), 54);
    assert_eq!(parser.parse_str(&text_of(a.clone())).unwrap(), a);
    let a = Packet::ack("/", Value::Json("[]".to_string()), 0);
    assert_eq!(parser.parse_str(&text_of(a.clone())).unwrap(), a);
}

#[test]
fn text_parse_cannot_tell_a_digit_payload_from_an_ack() {
    let mut parser = CommonParser::new();
    let p = Packet::connect("/", Value::Json("12".to_string()), ProtocolVersion::V5);
    let back = parser.parse_str(&text_of(p.clone())).unwrap();
    assert_ne!(back, p);
}
