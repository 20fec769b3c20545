use socketioxide::adapter::{BroadcastFlags, Sid};
use socketioxide::client::{apply_payload_on_packet, binary_action, has_namespace, message_action, BinaryAction, MessageAction};
use socketioxide::errors::{AdapterError, BroadcastError, EngineDisconnectReason, SocketError, SocketIoError};
use socketioxide::extract::{upwrap_array, NsParamDeserializationError};
use socketioxide::handler::AckSender;
use socketioxide::operators::{Operators, RoomParam};
use socketioxide::packet::{MsgPackValue, Packet, PacketData, Value};
use socketioxide::parser::ParserError;
use socketioxide::socket::DisconnectReason;
use socketioxide::{EngineProtocolVersion, ProtocolVersion};
use std::time::Duration;

fn names(v: &[&str]) -> Vec<String> {
    v.iter().map(|s| s.to_string()).collect()
}

fn json(s: &str) -> Value {
    Value::Json(s.to_string())
}

#[test]
fn unparsable_message_closes_the_connection() {
    let a = message_action(Err(ParserError::InvalidPacketType), &names(&["/"]), ProtocolVersion::V5);
    assert!(matches!(a, MessageAction::Close(EngineDisconnectReason::PacketParsingError)));
}

#[test]
fn connect_to_a_known_namespace() {
    let p = Packet::connect("/chat", json("{\"token\":1}"), ProtocolVersion::V5);
    let a = message_action(Ok(p), &names(&["/", "/chat"]), ProtocolVersion::V5);
    match a {
        MessageAction::Connect(ns, auth) => {
            assert_eq!(ns, "/chat");
            assert_eq!(auth, Some(json("{\"token\":1}")));
        }
        other => panic!("unexpected {:?}", other),
    }
}

#[test]
fn v4_connect_to_a_missing_root_closes_the_transport() {
    let p = Packet::connect("/", json("{}"), ProtocolVersion::V4);
    let a = message_action(Ok(p), &names(&["/chat"]), ProtocolVersion::V4);
    assert!(matches!(a, MessageAction::Close(EngineDisconnectReason::TransportClose)));
}

#[test]
fn connect_to_a_missing_namespace_is_refused() {
    let p = Packet::connect("/nope", json("{}"), ProtocolVersion::V5);
    let a = message_action(Ok(p), &names(&["/"]), ProtocolVersion::V5);
    match a {
        MessageAction::Reply(r) => {
            assert_eq!(r.ns, "/nope");
            assert_eq!(r.inner, PacketData::ConnectError("{\"message\":\"Invalid namespace\"}".to_string()));
        }
        other => panic!("unexpected {:?}", other),
    }
}

#[test]
fn events_go_to_known_namespaces_only() {
    let p = Packet::event("/", "hi", json("[1]"));
    let a = message_action(Ok(p.clone()), &names(&["/"]), ProtocolVersion::V5);
    match a {
        MessageAction::Propagate(q) => assert_eq!(q, p),
        other => panic!("unexpected {:?}", other),
    }
    let a = message_action(Ok(p), &names(&["/other"]), ProtocolVersion::V5);
    assert!(matches!(a, MessageAction::Ignore));
}

#[test]
fn binary_events_wait_for_their_attachments() {
    let mut p = Packet::bin_event("/", "up", json("[]"), vec![vec![1], vec![2]]);
    if let PacketData::BinaryEvent(_, b, _) = &mut p.inner {
        b.bin.clear();
    }
    let a = message_action(Ok(p.clone()), &names(&["/"]), ProtocolVersion::V5);
    let stored = match a {
        MessageAction::StoreBinary(q) => q,
        other => panic!("unexpected {:?}", other),
    };
    assert_eq!(stored, p);

    let mut partial = Some(stored);
    assert!(matches!(binary_action(&mut partial, vec![1], &names(&["/"])), BinaryAction::Wait));
    assert!(partial.is_some());
    match binary_action(&mut partial, vec![2], &names(&["/"])) {
        BinaryAction::Propagate(q) => {
            assert_eq!(q, Packet::bin_event("/", "up", json("[]"), vec![vec![1], vec![2]]));
        }
        other => panic!("unexpected {:?}", other),
    }
    assert!(partial.is_none());
}

#[test]
fn completed_binary_packet_of_unknown_namespace_is_dropped() {
    let mut p = Packet::bin_ack("/x", json("[]"), vec![vec![9]], 3);
    if let PacketData::BinaryAck(b, _) = &mut p.inner {
        b.bin.clear();
    }
    let mut partial = Some(p);
    assert!(matches!(binary_action(&mut partial, vec![9], &names(&["/"])), BinaryAction::Ignore));
    assert!(partial.is_none());
}

#[test]
fn payload_without_a_partial_packet_is_dropped() {
    let mut partial: Option<Packet> = None;
    assert!(!apply_payload_on_packet(&mut partial, vec![1, 2]));
    assert!(partial.is_none());
    assert!(matches!(binary_action(&mut partial, vec![1], &names(&["/"])), BinaryAction::Wait));
}

#[test]
fn namespace_lookup() {
    assert!(has_namespace(&names(&["/", "/a"]), "/a"));
    assert!(!has_namespace(&names(&["/", "/a"]), "/b"));
    assert!(!has_namespace(&Vec::new(), "/"));
}

#[test]
fn operators_gather_rooms_once_and_set_broadcast() {
    let op = Operators::new("/", Some(Sid(7)))
        .to(names(&["a", "b"]))
        .within(names(&["b", "c"]))
        .except(names(&["d"]))
        .local();
    let opts = op.opts();
    assert_eq!(opts.rooms, names(&["a", "b", "c"]));
    assert_eq!(opts.except, names(&["d"]));
    assert_eq!(opts.sid, Some(Sid(7)));
    assert_eq!(opts.flags.len(), 2);
    assert!(matches!(opts.flags[0], BroadcastFlags::Broadcast));
    assert!(matches!(opts.flags[1], BroadcastFlags::Local));
    assert!(op.is_broadcast());
}

#[test]
fn operators_within_alone_is_no_broadcast() {
    let op = Operators::new("/", None).within(names(&["a"])).timeout(Duration::from_secs(2));
    assert!(!op.is_broadcast());
    assert!(matches!(op.opts().flags[0], BroadcastFlags::Timeout(d) if d == Duration::from_secs(2)));
}

#[test]
fn operators_packet_is_binary_only_with_payloads() {
    let mut op = Operators::new("/ns", None);
    assert_eq!(op.get_packet("e", json("[1]")), Packet::event("/ns", "e", json("[1]")));
    let mut op2 = Operators::new("/ns", None).bin(vec![vec![1, 2]]);
    assert_eq!(
        op2.get_packet("e", json("[1]")),
        Packet::bin_event("/ns", "e", json("[1]"), vec![vec![1, 2]])
    );
    assert_eq!(op2.get_packet("e", json("[1]")), Packet::event("/ns", "e", json("[1]")));
    let _ = op.opts();
}

#[test]
fn room_params_list_their_rooms() {
    assert_eq!("a".into_room_iter(), names(&["a"]));
    assert_eq!("b".to_string().into_room_iter(), names(&["b"]));
    assert_eq!(names(&["c", "d"]).into_room_iter(), names(&["c", "d"]));
}

#[test]
fn fatal_errors_close_the_connection() {
    assert_eq!(SocketIoError::SocketGone(Sid(1)).disconnect_reason(), Some(EngineDisconnectReason::TransportClose));
    assert_eq!(SocketIoError::InvalidPacketType.disconnect_reason(), Some(EngineDisconnectReason::PacketParsingError));
    assert_eq!(SocketIoError::InvalidEventName.disconnect_reason(), Some(EngineDisconnectReason::PacketParsingError));
    assert_eq!(SocketIoError::InvalidNamespace.disconnect_reason(), None);
    assert_eq!(SocketIoError::Adapter(AdapterError("x".to_string())).disconnect_reason(), None);
}

#[test]
fn broadcast_error_from_socket_errors() {
    let e: BroadcastError<u8> = BroadcastError::from_socket_errors(vec![SocketError::Closed(1), SocketError::InternalChannelFull(2)]);
    match e {
        BroadcastError::Socket(v) => assert_eq!(v.len(), 2),
        other => panic!("unexpected {:?}", other),
    }
}

#[test]
fn disconnect_reasons_from_engine() {
    assert_eq!(DisconnectReason::from_engine(EngineDisconnectReason::TransportClose), DisconnectReason::TransportClose);
    assert_eq!(DisconnectReason::from_engine(EngineDisconnectReason::HeartbeatTimeout), DisconnectReason::HeartbeatTimeout);
    assert_eq!(DisconnectReason::from_engine(EngineDisconnectReason::ClosingServer), DisconnectReason::ClosingServer);
    assert_eq!(DisconnectReason::TransportError.description(), "The connection was abruptly closed");
    assert_eq!(DisconnectReason::ServerNSDisconnect.description(), "socket was forcefully disconnected from the namespace");
}

#[test]
fn protocol_versions_round_trip() {
    assert_eq!(ProtocolVersion::V4.to_engine(), EngineProtocolVersion::V3);
    assert_eq!(ProtocolVersion::V5.to_engine(), EngineProtocolVersion::V4);
    for v in [ProtocolVersion::V4, ProtocolVersion::V5] {
        assert_eq!(ProtocolVersion::from_engine(v.to_engine()), v);
    }
}

#[test]
fn ns_param_error_messages() {
    assert_eq!(NsParamDeserializationError::UnsupportedType("f64").message(), "Unsupported type: f64");
    assert_eq!(NsParamDeserializationError::Message("oops".to_string()).message(), "oops");
    assert_eq!(
        NsParamDeserializationError::ParseErrorAtKey {
            key: "id".to_string(),
            value: "x".to_string(),
            expected_type: "u32"
        }
        .message(),
        "Failed to parse value: 'x', expected type: u32 at key: id"
    );
    assert_eq!(
        NsParamDeserializationError::ParseErrorAtIndex {
            index: 12,
            value: "y".to_string(),
            expected_type: "bool"
        }
        .message(),
        "Failed to parse value: 'y', expected type: bool at index: 12"
    );
    assert_eq!(
        NsParamDeserializationError::WrongNumberOfParameters { got: 3, expected: 10 }.message(),
        "Wrong number of parameters, got: 3, expected: 10"
    );
}

#[test]
fn ack_sender_answers_only_when_asked() {
    use_ack_sender();
}

fn use_ack_sender() {
    let none = AckSender::new("/", None).packet(json("[1]"));
    assert!(none.is_none());
    let p = AckSender::new("/chat", Some(4)).packet(json("[1]")).unwrap();
    assert_eq!(p, Packet::ack("/chat", json("[1]"), 4));
    let p = AckSender::new("/chat", Some(5)).bin(vec![vec![7]]).packet(json("[]")).unwrap();
    assert_eq!(p, Packet::bin_ack("/chat", json("[]"), vec![vec![7]], 5));
}

#[test]
fn single_element_arrays_are_unwrapped() {
    assert_eq!(upwrap_array(json("[ {\"a\": 1} ]")), json("{\"a\":1}"));
    assert_eq!(upwrap_array(json("[1,2]")), json("[1,2]"));
    assert_eq!(upwrap_array(json("\"s\"")), json("\"s\""));
    assert_eq!(upwrap_array(json("[]")), json("[]"));
    assert_eq!(upwrap_array(json("not json")), json("not json"));
}

#[test]
fn single_element_msgpack_arrays_are_unwrapped() {
    let mp = |d: &[u8], a: usize| Value::MsgPack(MsgPackValue::new(d.to_vec(), a));
    assert_eq!(upwrap_array(mp(&[0x91, 0x01], 0)), mp(&[0x01], 0));
    assert_eq!(upwrap_array(mp(&[0x91, 0xa1, b'a'], 2)), mp(&[0xa1, b'a'], 2));
    assert_eq!(upwrap_array(mp(&[0x91, 0x92, 0x01, 0x02], 0)), mp(&[0x92, 0x01, 0x02], 0));
    assert_eq!(upwrap_array(mp(&[0x92, 0x01, 0x02], 0)), mp(&[0x92, 0x01, 0x02], 0));
    assert_eq!(upwrap_array(mp(&[0x90], 0)), mp(&[0x90], 0));
    assert_eq!(upwrap_array(mp(&[0xa1, b'a'], 0)), mp(&[0xa1, b'a'], 0));
}
