use socketioxide::adapter::{BroadcastFlags, BroadcastOptions, Sid};
use socketioxide::client::Client;
use socketioxide::errors::SocketIoError;
use socketioxide::handler::{middleware_after, middleware_first, MiddlewareStep};
use socketioxide::ns::Namespace;
use socketioxide::packet::{BinaryPacket, Packet, PacketData, Value};
use socketioxide::socket::{AckTable, DisconnectReason, SocketAction, SocketState};
use socketioxide::ProtocolVersion;

fn json(s: &str) -> Value {
    Value::Json(s.to_string())
}

fn rooms(v: &[&str]) -> Vec<String> {
    v.iter().map(|s| s.to_string()).collect()
}

#[test]
fn get_op() {
    let mut client = Client::new();
    client.add_ns("test");
    assert!(client.get_op("test").is_some());
    assert!(client.get_op("test2").is_none());
}

#[test]
fn get_default_op() {
    let mut client = Client::new();
    client.add_ns("/");
    let op = client.get_op("/").unwrap();
    assert!(op.is_broadcast());
}

#[test]
fn namespace_connects_and_refuses() {
    let mut ns = Namespace::new("/chat");
    let reply = ns.connect(Sid(1), Some("not allowed".to_string()), ProtocolVersion::V5, json("{}"));
    assert_eq!(reply, Packet::connect_error("/chat", "not allowed"));
    assert!(!ns.has(Sid(1)));

    let reply = ns.connect(Sid(1), None, ProtocolVersion::V5, json("{\"sid\":\"a\"}"));
    assert_eq!(reply, Packet::connect("/chat", json("{\"sid\":\"a\"}"), ProtocolVersion::V5));
    assert!(ns.has(Sid(1)));
    assert_eq!(ns.get_sockets(), vec![Sid(1)]);

    let reply = ns.connect(Sid(1), None, ProtocolVersion::V4, json("{}"));
    assert_eq!(reply.inner, PacketData::Connect(None));
    assert_eq!(ns.get_sockets(), vec![Sid(1)]);
}

#[test]
fn namespace_routes_packets_of_connected_sockets() {
    let mut ns = Namespace::new("/");
    ns.connect(Sid(1), None, ProtocolVersion::V5, json("{}"));
    let data = PacketData::Event("e".to_string(), json("[1]"), None);
    assert_eq!(ns.recv(Sid(1), data.clone()).unwrap(), data);
    assert!(matches!(ns.recv(Sid(2), data), Err(SocketIoError::SocketGone(Sid(2)))));
    assert!(matches!(
        ns.recv(Sid(1), PacketData::ConnectError("x".to_string())),
        Err(SocketIoError::InvalidPacketType)
    ));
    assert!(matches!(ns.get_socket(Sid(3)), Err(SocketIoError::SocketGone(Sid(3)))));
}

#[test]
fn removed_socket_leaves_rooms() {
    let mut ns = Namespace::new("/");
    ns.connect(Sid(1), None, ProtocolVersion::V5, json("{}"));
    ns.connect(Sid(2), None, ProtocolVersion::V5, json("{}"));
    ns.join(Sid(1), rooms(&["a", "b"]));
    ns.join(Sid(2), rooms(&["a"]));
    ns.remove_socket(Sid(1));
    assert_eq!(ns.get_sockets(), vec![Sid(2)]);
    assert!(ns.adapter().socket_rooms(Sid(1)).is_empty());
    assert_eq!(ns.adapter().room_sockets("a"), Some(vec![Sid(2)]));

    let mut opts = BroadcastOptions::new(None);
    opts.flags.push(BroadcastFlags::Broadcast);
    assert_eq!(ns.apply_opts(&opts), vec![Sid(2)]);
    ns.leave(Sid(2), rooms(&["a"]));
    assert_eq!(ns.adapter().room_sockets("a"), Some(vec![]));
    assert_eq!(ns.close(), vec![Sid(2)]);
    assert!(ns.adapter().rooms().is_empty());
}

#[test]
fn client_registry_add_replace_delete() {
    let mut client = Client::new();
    client.add_ns("/");
    client.add_ns("/admin");
    assert_eq!(client.paths(), rooms(&["/", "/admin"]));
    assert!(client.sock_connect("/admin", Sid(4), None, ProtocolVersion::V4, json("{}")).is_some());
    assert!(client.get_ns("/admin").unwrap().has(Sid(4)));
    client.add_ns("/admin");
    assert!(!client.get_ns("/admin").unwrap().has(Sid(4)));
    let removed = client.delete_ns("/admin").unwrap();
    assert_eq!(removed.path(), "/admin");
    assert!(client.get_ns("/admin").is_none());
    assert!(client.delete_ns("/admin").is_none());
    assert_eq!(
        client.sock_connect("/nope", Sid(4), None, ProtocolVersion::V4, json("{}")),
        Some(Packet::connect_error("/nope", "Invalid namespace"))
    );
    assert_eq!(client.paths(), rooms(&["/"]));
}

#[test]
fn sock_connect_to_a_missing_root_namespace() {
    let mut client = Client::new();
    assert!(client.sock_connect("/", Sid(1), None, ProtocolVersion::V4, json("{}")).is_none());
    assert_eq!(
        client.sock_connect("/", Sid(1), None, ProtocolVersion::V5, json("{}")),
        Some(Packet::connect_error("/", "Invalid namespace"))
    );
}

#[test]
fn client_propagates_and_disconnects() {
    let mut client = Client::new();
    client.add_ns("/");
    client.add_ns("/a");
    client.sock_connect("/", Sid(7), None, ProtocolVersion::V5, json("{}"));
    client.sock_connect("/a", Sid(7), None, ProtocolVersion::V5, json("{}"));
    let p = Packet::event("/a", "hi", json("[]"));
    assert_eq!(client.sock_propagate_packet(p.clone(), Sid(7)).unwrap(), Some(p.inner.clone()));
    assert!(matches!(client.sock_propagate_packet(p.clone(), Sid(8)), Err(SocketIoError::SocketGone(Sid(8)))));
    let lost = Packet::event("/b", "hi", json("[]"));
    assert_eq!(client.sock_propagate_packet(lost, Sid(7)).unwrap(), None);

    client.remove_socket("/a", Sid(7));
    assert!(!client.get_ns("/a").unwrap().has(Sid(7)));
    assert!(client.get_ns("/").unwrap().has(Sid(7)));
    client.sock_connect("/a", Sid(7), None, ProtocolVersion::V5, json("{}"));
    assert_eq!(client.sock_disconnect(Sid(7)), rooms(&["/", "/a"]));
    assert!(!client.get_ns("/").unwrap().has(Sid(7)));
    assert!(!client.get_ns("/a").unwrap().has(Sid(7)));
    assert!(client.sock_disconnect(Sid(7)).is_empty());
}

#[test]
fn ack_ids_are_given_out_in_order_and_answered_once() {
    let mut acks: AckTable<&str> = AckTable::new();
    assert_eq!(acks.register("first"), 1);
    assert_eq!(acks.register("second"), 2);
    assert!(acks.is_pending(1));
    assert_eq!(acks.take(2), Some("second"));
    assert_eq!(acks.take(2), None);
    assert!(!acks.is_pending(2));
    assert_eq!(acks.take(1), Some("first"));
    assert_eq!(acks.register("third"), 3);
}

type Handler = fn(&Value) -> usize;

fn count(v: &Value) -> usize {
    match v {
        Value::Json(s) => s.len(),
        Value::MsgPack(m) => m.data.len(),
    }
}

#[test]
fn socket_dispatches_events_acks_and_disconnects() {
    let mut s: SocketState<Handler, &str, u32> = SocketState::new();
    assert!(!s.connected());
    s.set_connected(true);
    assert!(s.connected());
    s.on("msg".to_string(), count);
    assert!(s.handler("msg").is_some());
    assert!(s.handler("other").is_none());

    match s.recv(PacketData::Event("msg".to_string(), json("[1,2]"), Some(3))) {
        SocketAction::Event(name, data, bins, ack) => {
            assert_eq!(name, "msg");
            assert_eq!((s.handler(&name).unwrap())(&data), 5);
            assert!(bins.is_empty());
            assert_eq!(ack, Some(3));
        }
        other => panic!("unexpected {:?}", other),
    }
    assert!(matches!(s.recv(PacketData::Event("other".to_string(), json("[]"), None)), SocketAction::Ignore));

    let bin = BinaryPacket::new(json("[]"), vec![vec![1, 2]]);
    match s.recv(PacketData::BinaryEvent("msg".to_string(), bin, None)) {
        SocketAction::Event(_, _, bins, _) => assert_eq!(bins, vec![vec![1, 2]]),
        other => panic!("unexpected {:?}", other),
    }

    let id = s.register_ack(99);
    match s.recv(PacketData::EventAck(json("[true]"), id)) {
        SocketAction::Answer(tx, resp) => {
            assert_eq!(tx, 99);
            assert_eq!(resp.data, json("[true]"));
            assert!(resp.binary.is_empty());
        }
        other => panic!("unexpected {:?}", other),
    }
    assert!(matches!(s.recv(PacketData::EventAck(json("[true]"), id)), SocketAction::Ignore));

    let id = s.register_ack(100);
    let bin = BinaryPacket::new(json("[]"), vec![vec![9]]);
    match s.recv(PacketData::BinaryAck(bin, id)) {
        SocketAction::Answer(tx, resp) => {
            assert_eq!(tx, 100);
            assert_eq!(resp.binary, vec![vec![9]]);
        }
        other => panic!("unexpected {:?}", other),
    }

    assert!(matches!(s.recv(PacketData::Disconnect), SocketAction::Close(DisconnectReason::ClientNSDisconnect)));
    s.on_disconnect("bye");
    assert_eq!(s.close(), Some("bye"));
    assert_eq!(s.close(), None);
}

#[test]
fn socket_handler_is_replaced() {
    fn zero(_: &Value) -> usize {
        0
    }
    let mut s: SocketState<Handler, (), ()> = SocketState::new();
    s.on("e".to_string(), count);
    s.on("e".to_string(), zero);
    assert_eq!((s.handler("e").unwrap())(&json("[1]")), 0);
}

/// Runs the middlewares as the server does, each answering from `outcomes`: the positions run,
/// and the message the chain was refused with.
fn run_middlewares(outcomes: &[Result<(), String>]) -> (Vec<usize>, Option<String>) {
    let mut ran = Vec::new();
    let mut step = middleware_first(outcomes.len());
    loop {
        match step {
            MiddlewareStep::Run(i) => {
                ran.push(i);
                step = middleware_after(outcomes.len(), i, outcomes[i].clone());
            }
            MiddlewareStep::Accept => return (ran, None),
            MiddlewareStep::Refuse(m) => return (ran, Some(m)),
        }
    }
}

#[test]
fn connect_middlewares_stop_at_the_first_error() {
    // `with(h3).with(h2).with(h1)`: h1 runs first, then h2, which fails; h3 never runs.
    let (ran, refused) = run_middlewares(&[Ok(()), Err("MyError".to_string()), Ok(())]);
    assert_eq!(ran, vec![0, 1]);
    assert_eq!(refused, Some("MyError".to_string()));
    let mut ns = Namespace::new("/");
    let reply = ns.connect(Sid(1), refused, ProtocolVersion::V5, json("{}"));
    assert_eq!(reply, Packet::connect_error("/", "MyError"));
    assert!(matches!(ns.get_socket(Sid(1)), Err(SocketIoError::SocketGone(_))));

    let (ran, refused) = run_middlewares(&[Ok(()), Ok(())]);
    assert_eq!(ran, vec![0, 1]);
    assert_eq!(refused, None);
    let (ran, refused) = run_middlewares(&[]);
    assert!(ran.is_empty());
    assert_eq!(refused, None);
}
