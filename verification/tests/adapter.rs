use socketioxide::adapter::{broadcast_timeout, BroadcastFlags, BroadcastOptions, LocalAdapter, Sid};
use std::time::Duration;

fn rooms(names: &[&str]) -> Vec<String> {
    names.iter().map(|s| s.to_string()).collect()
}

fn members(adapter: &LocalAdapter, room: &str) -> Vec<Sid> {
    adapter.room_sockets(room).unwrap()
}

/// Every socket selected by the options leaves every room, as a disconnection does.
fn disconnect_socket(adapter: &mut LocalAdapter, opts: &BroadcastOptions, ns: &mut Vec<Sid>) {
    for sid in adapter.apply_opts(opts, ns) {
        adapter.del_all(sid);
        ns.retain(|s| *s != sid);
    }
}

fn check_server_count() {
    let adapter = LocalAdapter::new();
    assert_eq!(adapter.server_count(), 1);
}

fn check_add_all() {
    let socket = Sid(1);
    let mut adapter = LocalAdapter::new();
    adapter.add_all(socket, rooms(&["room1", "room2"]));
    assert_eq!(adapter.rooms().len(), 2);
    assert_eq!(members(&adapter, "room1").len(), 1);
    assert_eq!(members(&adapter, "room2").len(), 1);
}

fn check_del() {
    let socket = Sid(1);
    let mut adapter = LocalAdapter::new();
    adapter.add_all(socket, rooms(&["room1", "room2"]));
    adapter.del(socket, rooms(&["room1"]));
    assert_eq!(adapter.rooms().len(), 2);
    assert_eq!(members(&adapter, "room1").len(), 0);
    assert_eq!(members(&adapter, "room2").len(), 1);
}

fn check_del_all() {
    let socket = Sid(1);
    let mut adapter = LocalAdapter::new();
    adapter.add_all(socket, rooms(&["room1", "room2"]));
    adapter.del_all(socket);
    assert_eq!(adapter.rooms().len(), 2);
    assert_eq!(members(&adapter, "room1").len(), 0);
    assert_eq!(members(&adapter, "room2").len(), 0);
}

fn check_socket_room() {
    let (sid1, sid2, sid3) = (Sid(1), Sid(2), Sid(3));
    let mut adapter = LocalAdapter::new();
    adapter.add_all(sid1, rooms(&["room1", "room2"]));
    adapter.add_all(sid2, rooms(&["room1"]));
    adapter.add_all(sid3, rooms(&["room2"]));
    assert!(adapter.socket_rooms(sid1).contains(&"room1".to_string()));
    assert!(adapter.socket_rooms(sid1).contains(&"room2".to_string()));
    assert_eq!(adapter.socket_rooms(sid2), ["room1"]);
    assert_eq!(adapter.socket_rooms(sid3), ["room2"]);
}

fn check_add_socket() {
    let socket = Sid(1);
    let ns = vec![socket];
    let mut adapter = LocalAdapter::new();
    adapter.add_all(socket, rooms(&["room1"]));

    let mut opts = BroadcastOptions::new(Some(socket));
    opts.rooms = rooms(&["room1"]);
    adapter.add_sockets(&opts, rooms(&["room2"]), &ns);

    assert_eq!(adapter.rooms().len(), 2);
    assert!(members(&adapter, "room1").contains(&socket));
    assert!(members(&adapter, "room2").contains(&socket));
}

fn check_del_socket() {
    let socket = Sid(1);
    let ns = vec![socket];
    let mut adapter = LocalAdapter::new();
    adapter.add_all(socket, rooms(&["room1"]));

    let mut opts = BroadcastOptions::new(Some(socket));
    opts.rooms = rooms(&["room1"]);
    adapter.add_sockets(&opts, rooms(&["room2"]), &ns);

    assert_eq!(adapter.rooms().len(), 2);
    assert!(members(&adapter, "room1").contains(&socket));
    assert!(members(&adapter, "room2").contains(&socket));

    let mut opts = BroadcastOptions::new(Some(socket));
    opts.rooms = rooms(&["room1"]);
    adapter.del_sockets(&opts, rooms(&["room2"]), &ns);

    assert_eq!(adapter.rooms().len(), 2);
    assert!(members(&adapter, "room1").contains(&socket));
    assert!(members(&adapter, "room2").is_empty());
}

fn check_sockets() {
    let (socket0, socket1, socket2) = (Sid(10), Sid(11), Sid(12));
    let ns = vec![socket0, socket1, socket2];
    let mut adapter = LocalAdapter::new();
    adapter.add_all(socket0, rooms(&["room1", "room2"]));
    adapter.add_all(socket1, rooms(&["room1", "room3"]));
    adapter.add_all(socket2, rooms(&["room2", "room3"]));

    let sockets = adapter.sockets(rooms(&["room1"]), &ns);
    assert_eq!(sockets.len(), 2);
    assert!(sockets.contains(&socket0));
    assert!(sockets.contains(&socket1));

    let sockets = adapter.sockets(rooms(&["room2"]), &ns);
    assert_eq!(sockets.len(), 2);
    assert!(sockets.contains(&socket0));
    assert!(sockets.contains(&socket2));

    let sockets = adapter.sockets(rooms(&["room3"]), &ns);
    assert_eq!(sockets.len(), 2);
    assert!(sockets.contains(&socket1));
    assert!(sockets.contains(&socket2));
}

fn check_disconnect_socket() {
    let (socket0, socket1, socket2) = (Sid(10), Sid(11), Sid(12));
    let mut ns = vec![socket0, socket1, socket2];
    let mut adapter = LocalAdapter::new();
    adapter.add_all(socket0, rooms(&["room1", "room2", "room4"]));
    adapter.add_all(socket1, rooms(&["room1", "room3", "room5"]));
    adapter.add_all(socket2, rooms(&["room2", "room3", "room6"]));

    let mut opts = BroadcastOptions::new(Some(socket0));
    opts.rooms = rooms(&["room5"]);
    disconnect_socket(&mut adapter, &opts, &mut ns);

    let sockets = adapter.sockets(rooms(&["room2"]), &ns);
    assert_eq!(sockets.len(), 2);
    assert!(sockets.contains(&socket2));
    assert!(sockets.contains(&socket0));
}

fn check_apply_opts() {
    let (socket0, socket1, socket2) = (Sid(10), Sid(11), Sid(12));
    let ns = vec![socket0, socket1, socket2];
    let mut adapter = LocalAdapter::new();
    adapter.add_all(socket0, rooms(&["room1", "room2"]));
    adapter.add_all(socket1, rooms(&["room1", "room3"]));
    adapter.add_all(socket2, rooms(&["room1", "room2", "room3"]));

    let mut opts = BroadcastOptions::new(Some(socket2));
    opts.rooms = rooms(&["room1"]);
    opts.except = rooms(&["room2"]);
    let sockets = adapter.apply_opts(&opts, &ns);
    assert_eq!(sockets.len(), 1);
    assert_eq!(sockets[0], socket1);

    let mut opts = BroadcastOptions::new(Some(socket2));
    opts.flags.push(BroadcastFlags::Broadcast);
    let sockets = adapter.apply_opts(&opts, &ns);
    assert_eq!(sockets.len(), 2);
    sockets.iter().for_each(|s| {
        assert!(*s == socket0 || *s == socket1);
    });

    let mut opts = BroadcastOptions::new(Some(socket2));
    opts.flags.push(BroadcastFlags::Broadcast);
    opts.except = rooms(&["room2"]);
    let sockets = adapter.apply_opts(&opts, &ns);
    assert_eq!(sockets.len(), 1);

    let opts = BroadcastOptions::new(Some(socket2));
    let sockets = adapter.apply_opts(&opts, &ns);
    assert_eq!(sockets.len(), 1);
    assert_eq!(sockets[0], socket2);

    let opts = BroadcastOptions::new(Some(Sid(99)));
    let sockets = adapter.apply_opts(&opts, &ns);
    assert_eq!(sockets.len(), 0);
}

#[test]
fn adapter_test_server_count() {
    check_server_count();
}

#[test]
fn adapter_test_add_all() {
    check_add_all();
}

#[test]
fn adapter_test_del() {
    check_del();
}

#[test]
fn adapter_test_del_all() {
    check_del_all();
}

#[test]
fn adapter_test_socket_room() {
    check_socket_room();
}

#[test]
fn adapter_test_add_socket() {
    check_add_socket();
}

#[test]
fn adapter_test_del_socket() {
    check_del_socket();
}

#[test]
fn adapter_test_sockets() {
    check_sockets();
}

#[test]
fn adapter_test_disconnect_socket() {
    check_disconnect_socket();
}

#[test]
fn adapter_test_apply_opts() {
    check_apply_opts();
}

#[test]
fn local_adapter_test_server_count() {
    check_server_count();
}

#[test]
fn local_adapter_test_add_all() {
    check_add_all();
}

#[test]
fn local_adapter_test_del() {
    check_del();
}

#[test]
fn local_adapter_test_del_all() {
    check_del_all();
}

#[test]
fn local_adapter_test_socket_room() {
    check_socket_room();
}

#[test]
fn local_adapter_test_add_socket() {
    check_add_socket();
}

#[test]
fn local_adapter_test_del_socket() {
    check_del_socket();
}

#[test]
fn local_adapter_test_sockets() {
    check_sockets();
}

#[test]
fn local_adapter_test_disconnect_socket() {
    check_disconnect_socket();
}

#[test]
fn local_adapter_test_apply_opts() {
    check_apply_opts();
}

#[test]
fn add_all_twice_keeps_one_membership() {
    let mut adapter = LocalAdapter::new();
    adapter.add_all(Sid(1), rooms(&["a", "a"]));
    adapter.add_all(Sid(1), rooms(&["a"]));
    assert_eq!(members(&adapter, "a"), vec![Sid(1)]);
    assert_eq!(adapter.rooms(), ["a"]);
}

#[test]
fn del_of_missing_room_changes_nothing() {
    let mut adapter = LocalAdapter::new();
    adapter.add_all(Sid(1), rooms(&["a"]));
    adapter.del(Sid(1), rooms(&["b"]));
    assert_eq!(adapter.rooms(), ["a"]);
    assert_eq!(members(&adapter, "a"), vec![Sid(1)]);
    assert!(adapter.room_sockets("b").is_none());
}

#[test]
fn close_drops_every_room() {
    let mut adapter = LocalAdapter::new();
    adapter.add_all(Sid(1), rooms(&["a", "b"]));
    adapter.close();
    assert!(adapter.rooms().is_empty());
}

#[test]
fn apply_opts_selects_a_socket_in_two_rooms_once() {
    let ns = vec![Sid(1), Sid(2)];
    let mut adapter = LocalAdapter::new();
    adapter.add_all(Sid(1), rooms(&["a", "b"]));
    adapter.add_all(Sid(2), rooms(&["b"]));
    let mut opts = BroadcastOptions::new(None);
    opts.rooms = rooms(&["a", "b"]);
    assert_eq!(adapter.apply_opts(&opts, &ns), vec![Sid(1), Sid(2)]);
    opts.rooms = rooms(&["b", "a", "b"]);
    assert_eq!(adapter.apply_opts(&opts, &ns), vec![Sid(1), Sid(2)]);
}

#[test]
fn apply_opts_skips_sockets_outside_the_namespace() {
    let ns = vec![Sid(2)];
    let mut adapter = LocalAdapter::new();
    adapter.add_all(Sid(1), rooms(&["a"]));
    adapter.add_all(Sid(2), rooms(&["a"]));
    let mut opts = BroadcastOptions::new(None);
    opts.rooms = rooms(&["a"]);
    assert_eq!(adapter.apply_opts(&opts, &ns), vec![Sid(2)]);
}

#[test]
fn broadcast_in_a_room_leaves_out_the_sender() {
    let ns = vec![Sid(1), Sid(2)];
    let mut adapter = LocalAdapter::new();
    adapter.add_all(Sid(1), rooms(&["a"]));
    adapter.add_all(Sid(2), rooms(&["a"]));
    let mut opts = BroadcastOptions::new(Some(Sid(1)));
    opts.rooms = rooms(&["a"]);
    assert_eq!(adapter.apply_opts(&opts, &ns), vec![Sid(1), Sid(2)]);
    opts.flags.push(BroadcastFlags::Broadcast);
    assert_eq!(adapter.apply_opts(&opts, &ns), vec![Sid(2)]);
}

#[test]
fn broadcast_timeout_is_the_first_timeout_flag() {
    assert_eq!(broadcast_timeout(&vec![BroadcastFlags::Local, BroadcastFlags::Broadcast]), None);
    assert_eq!(
        broadcast_timeout(&vec![
            BroadcastFlags::Local,
            BroadcastFlags::Timeout(Duration::from_millis(5)),
            BroadcastFlags::Timeout(Duration::from_millis(9)),
        ]),
        Some(Duration::from_millis(5))
    );
}
