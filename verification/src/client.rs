//! The decisions of a client: what to do with each message and binary payload an engine.io
//! socket receives. The engine.io socket and the namespaces act on what is decided.
use crate::adapter::{spec_del_all, texts, without, Sid};
use crate::errors::{EngineDisconnectReason, SocketIoError};
use crate::ns::{Namespace, NamespaceView};
use crate::operators::Operators;
use crate::packet::{
    spec_connect_error_text, spec_is_binary, spec_is_complete, BinaryPacketView, Packet, PacketData,
    PacketDataView, PacketView, Value, ValueView,
};
use crate::parser::ParserError;
use crate::text::str_eq;
use crate::ProtocolVersion;
use vstd::prelude::*;

verus! {

/// What the client does with a message of an engine.io socket.
#[derive(Debug)]
pub enum MessageAction {
    /// Close the engine.io connection.
    Close(EngineDisconnectReason),
    /// Connect the socket to the namespace `ns` (it exists), with the authentication payload.
    Connect(String, Option<Value>),
    /// Send this packet to the socket: the namespace does not exist.
    Reply(Packet),
    /// Keep the binary packet until all its attachments have arrived.
    StoreBinary(Packet),
    /// Hand the packet to its namespace (it exists).
    Propagate(Packet),
    /// Drop the packet: its namespace does not exist.
    Ignore,
}

/// What the client does with a binary payload of an engine.io socket.
#[derive(Debug)]
pub enum BinaryAction {
    /// Wait for more attachments (or drop a payload that no packet expects).
    Wait,
    /// Hand the completed packet to its namespace (it exists).
    Propagate(Packet),
    /// Drop the completed packet: its namespace does not exist.
    Ignore,
}

/// The message with which a connection to an unknown namespace is refused.
pub open spec fn invalid_namespace() -> Seq<char> {
    seq!['I', 'n', 'v', 'a', 'l', 'i', 'd', ' ', 'n', 'a', 'm', 'e', 's', 'p', 'a', 'c', 'e']
}

/// Whether the namespace `path` is one of `namespaces`.
pub fn has_namespace(namespaces: &Vec<String>, path: &str) -> (b: bool)
    ensures
        b == texts(namespaces@).contains(path@),
{
    let mut i: usize = 0;
    while i < namespaces.len()
        invariant
            0 <= i <= namespaces@.len(),
            forall|j: int| 0 <= j < i ==> namespaces@[j]@ != path@,
        decreases namespaces@.len() - i,
    {
        if str_eq(namespaces[i].as_str(), path) {
            assert(texts(namespaces@)[i as int] == path@);
            return true;
        }
        i = i + 1;
    }
    assert forall|j: int| 0 <= j < texts(namespaces@).len() implies texts(namespaces@)[j] != path@ by {
        assert(texts(namespaces@)[j] == namespaces@[j]@);
    }
    false
}

/// What a connect request to the namespace `ns` leads to: the connection when the namespace
/// exists; for a v4 client asking for a missing root namespace, closing the transport; otherwise
/// a connect error packet with the message `Invalid namespace`.
pub open spec fn connect_outcome(ns: Seq<char>, known: bool, protocol: ProtocolVersion) -> Option<EngineDisconnectReason> {
    if !known && protocol == ProtocolVersion::V4 && ns == seq!['/'] {
        Some(EngineDisconnectReason::TransportClose)
    } else {
        None
    }
}

/// What the client does with a message, once parsed: a message that is not a packet closes the
/// connection (an incomplete binary packet is kept instead); a connect packet connects to its
/// namespace when it exists (see [`connect_outcome`] otherwise); a binary packet is kept until
/// its attachments arrive; any other packet goes to its namespace, or is dropped when the
/// namespace does not exist.
pub fn message_action(
    parsed: Result<Packet, ParserError>,
    namespaces: &Vec<String>,
    protocol: ProtocolVersion,
) -> (a: MessageAction)
    ensures
        match parsed {
            Err(_) => a == MessageAction::Close(EngineDisconnectReason::PacketParsingError),
            Ok(p) => match p@.inner {
                PacketDataView::Connect(auth) => if texts(namespaces@).contains(p@.ns) {
                    a matches MessageAction::Connect(ns, v) && ns@ == p@.ns && (match v {
                        Some(x) => auth == Some(x@),
                        None => auth is None,
                    })
                } else if connect_outcome(p@.ns, false, protocol) is Some {
                    a == MessageAction::Close(EngineDisconnectReason::TransportClose)
                } else {
                    a matches MessageAction::Reply(r) && r@ == (PacketView {
                        inner: PacketDataView::ConnectError(spec_connect_error_text(invalid_namespace())),
                        ns: p@.ns,
                    })
                },
                PacketDataView::BinaryEvent(..) => a matches MessageAction::StoreBinary(q) && q@ == p@,
                PacketDataView::BinaryAck(..) => a matches MessageAction::StoreBinary(q) && q@ == p@,
                _ => if texts(namespaces@).contains(p@.ns) {
                    a matches MessageAction::Propagate(q) && q@ == p@
                } else {
                    a == MessageAction::Ignore
                },
            },
        },
{
    match parsed {
        Err(_) => MessageAction::Close(EngineDisconnectReason::PacketParsingError),
        Ok(p) => {
            let known = has_namespace(namespaces, p.ns.as_str());
            let Packet { inner, ns } = p;
            match inner {
                PacketData::Connect(auth) => {
                    if known {
                        MessageAction::Connect(ns, auth)
                    } else if protocol == ProtocolVersion::V4 && str_eq(ns.as_str(), "/") {
                        proof {
                            reveal_strlit("/");
                        }
                        assert("/"@ =~= seq!['/']);
                        MessageAction::Close(EngineDisconnectReason::TransportClose)
                    } else {
                        proof {
                            reveal_strlit("/");
                            reveal_strlit("Invalid namespace");
                        }
                        assert("/"@ =~= seq!['/']);
                        assert("Invalid namespace"@ =~= invalid_namespace());
                        MessageAction::Reply(Packet::connect_error(ns.as_str(), "Invalid namespace"))
                    }
                },
                PacketData::BinaryEvent(e, b, a) => MessageAction::StoreBinary(
                    Packet { inner: PacketData::BinaryEvent(e, b, a), ns },
                ),
                PacketData::BinaryAck(b, a) => MessageAction::StoreBinary(
                    Packet { inner: PacketData::BinaryAck(b, a), ns },
                ),
                other => {
                    if known {
                        MessageAction::Propagate(Packet { inner: other, ns })
                    } else {
                        MessageAction::Ignore
                    }
                },
            }
        },
    }
}

/// Applies an incoming binary payload to the partial binary packet waiting for its payloads.
/// Returns whether the packet is complete; without a partial packet, the payload is dropped.
pub fn apply_payload_on_packet(partial: &mut Option<Packet>, data: Vec<u8>) -> (complete: bool)
    requires
        (*old(partial)) matches Some(p) ==> spec_is_binary(p@.inner),
    ensures
        match *old(partial) {
            None => !complete && *final(partial) == *old(partial),
            Some(p) => (*final(partial)) matches Some(q) && q@.ns == p@.ns && match p@.inner {
                PacketDataView::BinaryEvent(e, b, a) => q@.inner == PacketDataView::BinaryEvent(
                    e,
                    BinaryPacketView { bin: b.bin.push(data@), ..b },
                    a,
                ),
                PacketDataView::BinaryAck(b, a) => q@.inner == PacketDataView::BinaryAck(
                    BinaryPacketView { bin: b.bin.push(data@), ..b },
                    a,
                ),
                _ => false,
            } && complete == spec_is_complete(q@.inner),
        },
{
    match partial.take() {
        None => false,
        Some(p) => {
            let Packet { inner, ns } = p;
            match inner {
                PacketData::BinaryEvent(e, mut b, a) => {
                    b.add_payload(data);
                    let complete = b.is_complete();
                    *partial = Some(Packet { inner: PacketData::BinaryEvent(e, b, a), ns });
                    complete
                },
                PacketData::BinaryAck(mut b, a) => {
                    b.add_payload(data);
                    let complete = b.is_complete();
                    *partial = Some(Packet { inner: PacketData::BinaryAck(b, a), ns });
                    complete
                },
                other => {
                    *partial = Some(Packet { inner: other, ns });
                    false
                },
            }
        },
    }
}

/// What the client does with a binary payload: it is added to the partial binary packet; once
/// that packet is complete it is taken out and goes to its namespace, or is dropped when the
/// namespace does not exist.
pub fn binary_action(partial: &mut Option<Packet>, data: Vec<u8>, namespaces: &Vec<String>) -> (a: BinaryAction)
    requires
        (*old(partial)) matches Some(p) ==> spec_is_binary(p@.inner),
    ensures
        match *old(partial) {
            None => a == BinaryAction::Wait && *final(partial) == *old(partial),
            Some(p) => {
                let nb = |b: BinaryPacketView| BinaryPacketView { bin: b.bin.push(data@), ..b };
                let np = match p@.inner {
                    PacketDataView::BinaryEvent(e, b, x) => PacketDataView::BinaryEvent(e, nb(b), x),
                    PacketDataView::BinaryAck(b, x) => PacketDataView::BinaryAck(nb(b), x),
                    other => other,
                };
                if spec_is_complete(np) {
                    &&& (*final(partial)) is None
                    &&& if texts(namespaces@).contains(p@.ns) {
                        a matches BinaryAction::Propagate(q) && q@ == (PacketView { inner: np, ns: p@.ns })
                    } else {
                        a == BinaryAction::Ignore
                    }
                } else {
                    &&& a == BinaryAction::Wait
                    &&& (*final(partial)) matches Some(q) && q@ == (PacketView { inner: np, ns: p@.ns })
                }
            },
        },
{
    if apply_payload_on_packet(partial, data) {
        match partial.take() {
            Some(p) => {
                if has_namespace(namespaces, p.ns.as_str()) {
                    BinaryAction::Propagate(p)
                } else {
                    BinaryAction::Ignore
                }
            },
            None => BinaryAction::Wait,
        }
    } else {
        BinaryAction::Wait
    }
}

// ---------------------------------------------------------------------------------------------
// The namespaces of a server
// ---------------------------------------------------------------------------------------------

/// The paths of the namespaces.
pub open spec fn ns_paths(v: Seq<NamespaceView>) -> Seq<Seq<char>> {
    v.map_values(|n: NamespaceView| n.path)
}

/// Whether a namespace has the path `path`.
pub open spec fn has_ns(v: Seq<NamespaceView>, path: Seq<char>) -> bool {
    exists|i: int| 0 <= i < v.len() && v[i].path == path
}

/// The namespace of the path `path`, if there is one.
pub open spec fn ns_of(v: Seq<NamespaceView>, path: Seq<char>) -> Option<NamespaceView> {
    if has_ns(v, path) {
        Some(v[choose|i: int| 0 <= i < v.len() && v[i].path == path])
    } else {
        None
    }
}

/// The namespaces of a server, each path once.
#[derive(Debug)]
pub struct Client {
    ns: Vec<Namespace>,
}

impl View for Client {
    type V = Seq<NamespaceView>;

    closed spec fn view(&self) -> Seq<NamespaceView> {
        self.ns@.map_values(|n: Namespace| n@)
    }
}

/// In namespaces with distinct paths, the namespace at `i` is the namespace of its path.
proof fn lemma_ns_at(v: Seq<NamespaceView>, i: int)
    requires
        ns_paths(v).no_duplicates(),
        0 <= i < v.len(),
    ensures
        ns_of(v, v[i].path) == Some(v[i]),
{
    let j = choose|j: int| 0 <= j < v.len() && v[j].path == v[i].path;
    assert(ns_paths(v)[i] == v[i].path);
    assert(ns_paths(v)[j] == v[j].path);
}

/// Where the namespace of `path` is, if there is one.
fn find_ns(ns: &Vec<Namespace>, path: &str) -> (res: Option<usize>)
    ensures
        match res {
            Some(i) => i < ns@.len() && ns@[i as int]@.path == path@,
            None => forall|i: int| 0 <= i < ns@.len() ==> #[trigger] ns@[i]@.path != path@,
        },
{
    let mut i: usize = 0;
    while i < ns.len()
        invariant
            0 <= i <= ns@.len(),
            forall|k: int| 0 <= k < i ==> #[trigger] ns@[k]@.path != path@,
        decreases ns@.len() - i,
    {
        if str_eq(ns[i].path(), path) {
            return Some(i);
        }
        i = i + 1;
    }
    None
}

impl Client {
    #[verifier::type_invariant]
    closed spec fn inv(self) -> bool {
        ns_paths(self@).no_duplicates()
    }

    /// A server without namespaces.
    pub fn new() -> (c: Client)
        ensures
            c@ == Seq::<NamespaceView>::empty(),
    {
        let c = Client { ns: Vec::new() };
        assert(c@ =~= Seq::<NamespaceView>::empty());
        c
    }

    /// The paths of the namespaces, in the order they were added.
    pub fn paths(&self) -> (res: Vec<String>)
        ensures
            texts(res@) == ns_paths(self@),
    {
        let mut out: Vec<String> = Vec::new();
        let mut i: usize = 0;
        while i < self.ns.len()
            invariant
                0 <= i <= self@.len(),
                texts(out@) == ns_paths(self@.subrange(0, i as int)),
            decreases self@.len() - i,
        {
            let name = self.ns[i].path().to_owned();
            assert(name@ == self@[i as int].path);
            out.push(name);
            proof {
                assert(self@.subrange(0, i + 1) =~= self@.subrange(0, i as int).push(self@[i as int]));
                self@.subrange(0, i as int).lemma_push_map_commute(|n: NamespaceView| n.path, self@[i as int]);
                out@.drop_last().lemma_push_map_commute(|s: String| s@, out@.last());
                assert(out@.drop_last().push(out@.last()) =~= out@);
            }
            assert(texts(out@) =~= ns_paths(self@.subrange(0, i + 1)));
            i = i + 1;
        }
        assert(self@.subrange(0, self@.len() as int) =~= self@);
        out
    }

    /// Adds a namespace: a new one, with no socket and no room, in place of the namespace of
    /// that path if there was one.
    pub fn add_ns(&mut self, path: &str)
        ensures
            ns_of(final(self)@, path@) == Some(NamespaceView {
                path: path@,
                rooms: Seq::<(Seq<char>, Seq<Sid>)>::empty(),
                sockets: Seq::<Sid>::empty(),
            }),
            forall|p: Seq<char>| p != path@ ==> ns_of(final(self)@, p) == ns_of(old(self)@, p),
    {
        proof {
            use_type_invariant(&*self);
        }
        let ghost v = self@;
        let mut ns: Vec<Namespace> = Vec::new();
        std::mem::swap(&mut ns, &mut self.ns);
        let fresh = Namespace::new(path);
        match find_ns(&ns, path) {
            Some(i) => {
                ns.set(i, fresh);
                proof {
                    let w = ns@.map_values(|n: Namespace| n@);
                    assert(w =~= v.update(i as int, w[i as int]));
                    assert(ns_paths(w) =~= ns_paths(v));
                    lemma_ns_at(w, i as int);
                    assert forall|p: Seq<char>| p != path@ implies ns_of(w, p) == ns_of(v, p) by {
                        if has_ns(w, p) {
                            let k = choose|k: int| 0 <= k < w.len() && w[k].path == p;
                            lemma_ns_at(w, k);
                            lemma_ns_at(v, k);
                        } else {
                            assert forall|k: int| 0 <= k < v.len() implies v[k].path != p by {
                                assert(ns_paths(v)[k] == ns_paths(w)[k]);
                            }
                        }
                    }
                }
            },
            None => {
                ns.push(fresh);
                proof {
                    let w = ns@.map_values(|n: Namespace| n@);
                    assert(w =~= v.push(w[v.len() as int]));
                    assert(ns_paths(w) =~= ns_paths(v).push(path@));
                    assert forall|k: int| 0 <= k < v.len() implies ns_paths(v)[k] != path@ by {
                        assert(v[k].path == ns@[k]@.path);
                    }
                    lemma_ns_at(w, v.len() as int);
                    assert forall|p: Seq<char>| p != path@ implies ns_of(w, p) == ns_of(v, p) by {
                        if has_ns(w, p) {
                            let k = choose|k: int| 0 <= k < w.len() && w[k].path == p;
                            assert(k < v.len());
                            lemma_ns_at(w, k);
                            lemma_ns_at(v, k);
                        } else {
                            assert forall|k: int| 0 <= k < v.len() implies v[k].path != p by {
                                assert(w[k] == v[k]);
                            }
                        }
                    }
                }
            },
        }
        self.ns = ns;
    }

    /// Deletes the namespace of `path`, and returns it (to be closed), if there was one.
    pub fn delete_ns(&mut self, path: &str) -> (res: Option<Namespace>)
        ensures
            match res {
                Some(n) => ns_of(old(self)@, path@) == Some(n@),
                None => ns_of(old(self)@, path@) is None,
            },
            ns_of(final(self)@, path@) is None,
            forall|p: Seq<char>| p != path@ ==> ns_of(final(self)@, p) == ns_of(old(self)@, p),
    {
        proof {
            use_type_invariant(&*self);
        }
        let ghost v = self@;
        let mut ns: Vec<Namespace> = Vec::new();
        std::mem::swap(&mut ns, &mut self.ns);
        let res = match find_ns(&ns, path) {
            Some(i) => {
                proof {
                    lemma_ns_at(v, i as int);
                }
                let removed = ns.remove(i);
                proof {
                    let w = ns@.map_values(|n: Namespace| n@);
                    assert(w =~= v.remove(i as int));
                    assert(ns_paths(w) =~= ns_paths(v).remove(i as int));
                    assert forall|a: int, b: int| 0 <= a < b < ns_paths(w).len() implies ns_paths(w)[a] != ns_paths(w)[b] by {
                        let a0 = if a < i { a } else { a + 1 };
                        let b0 = if b < i { b } else { b + 1 };
                        assert(ns_paths(w)[a] == ns_paths(v)[a0]);
                        assert(ns_paths(w)[b] == ns_paths(v)[b0]);
                    }
                    assert forall|k: int| 0 <= k < w.len() implies w[k].path != path@ by {
                        let k0 = if k < i { k } else { k + 1 };
                        assert(w[k] == v[k0]);
                        assert(ns_paths(v)[k0] != ns_paths(v)[i as int]);
                    }
                    assert forall|p: Seq<char>| p != path@ implies ns_of(w, p) == ns_of(v, p) by {
                        if has_ns(v, p) {
                            let k = choose|k: int| 0 <= k < v.len() && v[k].path == p;
                            assert(k != i);
                            let k1 = if k < i { k } else { k - 1 };
                            assert(w[k1] == v[k]);
                            lemma_ns_at(w, k1);
                            lemma_ns_at(v, k);
                        } else {
                            assert forall|k: int| 0 <= k < w.len() implies w[k].path != p by {
                                let k0 = if k < i { k } else { k + 1 };
                                assert(w[k] == v[k0]);
                            }
                        }
                    }
                }
                Some(removed)
            },
            None => None,
        };
        self.ns = ns;
        res
    }

    /// The namespace of `path`, if there is one.
    pub fn get_ns(&self, path: &str) -> (res: Option<&Namespace>)
        ensures
            match res {
                Some(n) => ns_of(self@, path@) == Some(n@),
                None => ns_of(self@, path@) is None,
            },
    {
        proof {
            use_type_invariant(self);
        }
        match find_ns(&self.ns, path) {
            Some(i) => {
                proof {
                    lemma_ns_at(self@, i as int);
                }
                Some(&self.ns[i])
            },
            None => None,
        }
    }

    /// Broadcast operators on the namespace of `path`, if there is one.
    pub fn get_op(&self, path: &str) -> (res: Option<Operators>)
        ensures
            res is Some <==> has_ns(self@, path@),
            res matches Some(o) ==> o.spec_ns() == path@ && o.spec_opts().sid is None
                && o.spec_opts().rooms.len() == 0 && o.spec_opts().except.len() == 0
                && crate::adapter::has_broadcast(o.spec_opts().flags),
    {
        match self.get_ns(path) {
            Some(_) => {
                let o = Operators::new(path, None).broadcast();
                proof {
                    let f = o.spec_opts().flags;
                    assert(f.len() > 0 && f.last() is Broadcast);
                }
                Some(o)
            },
            None => None,
        }
    }
}

/// A namespace after the socket `sid` leaves it, if it was connected.
pub open spec fn spec_leave_ns(n: NamespaceView, sid: Sid) -> NamespaceView {
    if n.sockets.contains(sid) {
        NamespaceView { sockets: without(n.sockets, sid), rooms: spec_del_all(n.rooms, sid), ..n }
    } else {
        n
    }
}

/// Whether a namespace holds the socket `sid`.
pub open spec fn holds_socket(sid: Sid) -> spec_fn(NamespaceView) -> bool {
    |n: NamespaceView| n.sockets.contains(sid)
}

impl Client {
    /// Connects the socket to the namespace of `path`, if there is one, and returns the reply
    /// of the namespace (see [`Namespace::connect`]). Without such a namespace nothing changes,
    /// and the reply is a connect error `Invalid namespace`, except for a v4 client asking for
    /// the root namespace: then there is no reply, and the transport is to be closed.
    pub fn sock_connect(
        &mut self,
        path: &str,
        sid: Sid,
        refused: Option<String>,
        protocol: ProtocolVersion,
        sid_payload: Value,
    ) -> (reply: Option<Packet>)
        ensures
            reply is None <==> (!has_ns(old(self)@, path@) && connect_outcome(path@, false, protocol) is Some),
            !has_ns(old(self)@, path@) ==> final(self)@ == old(self)@,
            reply matches Some(r) ==> (!has_ns(old(self)@, path@) ==> r@ == (PacketView {
                inner: PacketDataView::ConnectError(spec_connect_error_text(invalid_namespace())),
                ns: path@,
            })),
            ns_paths(final(self)@) == ns_paths(old(self)@),
            forall|p: Seq<char>| p != path@ ==> ns_of(final(self)@, p) == ns_of(old(self)@, p),
            reply matches Some(r) ==> (has_ns(old(self)@, path@) ==> ({
                let n = ns_of(old(self)@, path@).unwrap();
                let m = ns_of(final(self)@, path@).unwrap();
                &&& m.path == n.path
                &&& m.rooms == n.rooms
                &&& match refused {
                    Some(msg) => {
                        &&& m.sockets == n.sockets
                        &&& r@ == (PacketView {
                            inner: PacketDataView::ConnectError(spec_connect_error_text(msg@)),
                            ns: n.path,
                        })
                    },
                    None => {
                        &&& m.sockets == crate::ns::with_socket(n.sockets, sid)
                        &&& r@.ns == n.path
                        &&& protocol == ProtocolVersion::V4 ==> r@.inner == PacketDataView::Connect(None)
                        &&& protocol == ProtocolVersion::V5 ==> r@.inner == PacketDataView::Connect(Some(sid_payload@))
                    },
                }
            })),
    {
        proof {
            use_type_invariant(&*self);
        }
        let ghost v = self@;
        let mut ns: Vec<Namespace> = Vec::new();
        std::mem::swap(&mut ns, &mut self.ns);
        let reply = match find_ns(&ns, path) {
            Some(i) => {
                proof {
                    lemma_ns_at(v, i as int);
                }
                let mut n = ns.remove(i);
                let r = n.connect(sid, refused, protocol, sid_payload);
                ns.insert(i, n);
                proof {
                    let w = ns@.map_values(|x: Namespace| x@);
                    assert(w =~= v.update(i as int, w[i as int]));
                    assert(ns_paths(w) =~= ns_paths(v));
                    lemma_ns_at(w, i as int);
                    assert forall|p: Seq<char>| p != path@ implies ns_of(w, p) == ns_of(v, p) by {
                        if has_ns(w, p) {
                            let k = choose|k: int| 0 <= k < w.len() && w[k].path == p;
                            lemma_ns_at(w, k);
                            lemma_ns_at(v, k);
                        } else {
                            assert forall|k: int| 0 <= k < v.len() implies v[k].path != p by {
                                assert(ns_paths(v)[k] == ns_paths(w)[k]);
                            }
                        }
                    }
                }
                Some(r)
            },
            None => {
                proof {
                    reveal_strlit("/");
                    reveal_strlit("Invalid namespace");
                }
                assert("/"@ =~= seq!['/']);
                assert("Invalid namespace"@ =~= invalid_namespace());
                if protocol == ProtocolVersion::V4 && str_eq(path, "/") {
                    None
                } else {
                    Some(Packet::connect_error(path, "Invalid namespace"))
                }
            },
        };
        self.ns = ns;
        reply
    }

    /// The socket leaves the namespace of `path` (it closed there), if there is such a
    /// namespace: it is removed from the namespace and from its rooms.
    pub fn remove_socket(&mut self, path: &str, sid: Sid)
        ensures
            ns_paths(final(self)@) == ns_paths(old(self)@),
            forall|p: Seq<char>| p != path@ ==> ns_of(final(self)@, p) == ns_of(old(self)@, p),
            ns_of(old(self)@, path@) matches Some(n) ==> ns_of(final(self)@, path@) == Some(
                NamespaceView { sockets: without(n.sockets, sid), rooms: spec_del_all(n.rooms, sid), ..n },
            ),
            ns_of(old(self)@, path@) is None ==> final(self)@ == old(self)@,
    {
        proof {
            use_type_invariant(&*self);
        }
        let ghost v = self@;
        let mut ns: Vec<Namespace> = Vec::new();
        std::mem::swap(&mut ns, &mut self.ns);
        match find_ns(&ns, path) {
            Some(i) => {
                proof {
                    lemma_ns_at(v, i as int);
                }
                let mut n = ns.remove(i);
                n.remove_socket(sid);
                ns.insert(i, n);
                proof {
                    let w = ns@.map_values(|x: Namespace| x@);
                    assert(w =~= v.update(i as int, w[i as int]));
                    assert(ns_paths(w) =~= ns_paths(v));
                    lemma_ns_at(w, i as int);
                    assert forall|p: Seq<char>| p != path@ implies ns_of(w, p) == ns_of(v, p) by {
                        if has_ns(w, p) {
                            let k = choose|k: int| 0 <= k < w.len() && w[k].path == p;
                            lemma_ns_at(w, k);
                            lemma_ns_at(v, k);
                        } else {
                            assert forall|k: int| 0 <= k < v.len() implies v[k].path != p by {
                                assert(ns_paths(v)[k] == ns_paths(w)[k]);
                            }
                        }
                    }
                }
            },
            None => {
                assert(ns@.map_values(|x: Namespace| x@) =~= v);
            },
        }
        self.ns = ns;
    }

    /// Where a packet goes: to the namespace of its path, if there is one (`None` otherwise),
    /// which hands it to the socket (see [`Namespace::recv`]).
    pub fn sock_propagate_packet(&self, packet: Packet, sid: Sid) -> (res: Result<Option<PacketData>, SocketIoError>)
        requires
            !(packet@.inner is Connect),
        ensures
            match ns_of(self@, packet@.ns) {
                None => res matches Ok(None),
                Some(n) => {
                    &&& packet@.inner is ConnectError ==> (res matches Err(SocketIoError::InvalidPacketType))
                    &&& !(packet@.inner is ConnectError) && !n.sockets.contains(sid) ==> (res matches Err(
                        SocketIoError::SocketGone(s),
                    ) && s == sid)
                    &&& !(packet@.inner is ConnectError) && n.sockets.contains(sid) ==> (res matches Ok(Some(q)) && q@
                        == packet@.inner)
                },
            },
    {
        let Packet { inner, ns } = packet;
        match self.get_ns(ns.as_str()) {
            Some(n) => match n.recv(sid, inner) {
                Ok(q) => Ok(Some(q)),
                Err(e) => Err(e),
            },
            None => Ok(None),
        }
    }

    /// The socket leaves every namespace it is connected to (its engine.io connection ended);
    /// returns the paths of those namespaces, in order.
    pub fn sock_disconnect(&mut self, sid: Sid) -> (res: Vec<String>)
        ensures
            final(self)@ == old(self)@.map_values(|n: NamespaceView| spec_leave_ns(n, sid)),
            texts(res@) == ns_paths(old(self)@.filter(holds_socket(sid))),
    {
        proof {
            use_type_invariant(&*self);
        }
        let ghost v = self@;
        let mut ns: Vec<Namespace> = Vec::new();
        std::mem::swap(&mut ns, &mut self.ns);
        let mut out: Vec<Namespace> = Vec::new();
        let mut left: Vec<String> = Vec::new();
        let ghost f = |n: NamespaceView| spec_leave_ns(n, sid);
        while ns.len() > 0
            invariant
                out@.len() + ns@.len() == v.len(),
                out@.map_values(|x: Namespace| x@) == v.subrange(0, out@.len() as int).map_values(f),
                ns@.map_values(|x: Namespace| x@) == v.subrange(out@.len() as int, v.len() as int),
                texts(left@) == ns_paths(v.subrange(0, out@.len() as int).filter(holds_socket(sid))),
                f == (|n: NamespaceView| spec_leave_ns(n, sid)),
            decreases ns@.len(),
        {
            let ghost k = out@.len() as int;
            let ghost before_ns = ns@;
            let ghost before_out = out@;
            let mut n = ns.remove(0);
            assert(n@ == v[k]) by {
                assert(v.subrange(k, v.len() as int)[0] == v[k]);
            }
            let ghost pre = v.subrange(0, k);
            proof {
                assert(v.subrange(0, k + 1) =~= pre.push(v[k]));
                crate::adapter::lemma_filter_push(pre, v[k], holds_socket(sid));
            }
            if n.has(sid) {
                left.push(n.path().to_owned());
                n.remove_socket(sid);
                proof {
                    let g = pre.filter(holds_socket(sid));
                    g.lemma_push_map_commute(|m: NamespaceView| m.path, v[k]);
                    left@.drop_last().lemma_push_map_commute(|s: String| s@, left@.last());
                    assert(left@.drop_last().push(left@.last()) =~= left@);
                }
            }
            assert(texts(left@) =~= ns_paths(v.subrange(0, k + 1).filter(holds_socket(sid))));
            assert(n@ == f(v[k]));
            out.push(n);
            proof {
                assert(out@ == before_out.push(n));
                let om = out@.map_values(|x: Namespace| x@);
                let bm = before_out.map_values(|x: Namespace| x@);
                let target = v.subrange(0, k + 1).map_values(f);
                let prev = v.subrange(0, k).map_values(f);
                assert forall|j: int| 0 <= j < k + 1 implies #[trigger] om[j] == target[j] by {
                    if j < k {
                        assert(out@[j] == before_out[j]);
                        assert(bm[j] == prev[j]);
                    }
                }
                assert(om =~= target);
                assert(ns@ == before_ns.remove(0));
                let nm = ns@.map_values(|x: Namespace| x@);
                let bnm = before_ns.map_values(|x: Namespace| x@);
                let rest = v.subrange(k + 1, v.len() as int);
                let rest0 = v.subrange(k, v.len() as int);
                assert forall|j: int| 0 <= j < nm.len() implies #[trigger] nm[j] == rest[j] by {
                    assert(ns@[j] == before_ns[j + 1]);
                    assert(bnm[j + 1] == rest0[j + 1]);
                }
                assert(ns@.map_values(|x: Namespace| x@) =~= v.subrange(k + 1, v.len() as int));
            }
        }
        proof {
            assert(v.subrange(0, v.len() as int) =~= v);
            let w = out@.map_values(|x: Namespace| x@);
            assert(w =~= v.map_values(f));
            assert(ns_paths(w) =~= ns_paths(v));
        }
        self.ns = out;
        left
    }
}

/// A socket whose connection ended is connected to no namespace any more, and is in no room of
/// the namespaces it was connected to; the other sockets keep their namespaces.
pub proof fn lemma_disconnect_leaves_every_namespace(v: Seq<NamespaceView>, sid: Sid)
    requires
        forall|k: int| 0 <= k < v.len() ==> crate::ns::ns_wf(#[trigger] v[k]),
    ensures
        ({
            let w = v.map_values(|n: NamespaceView| spec_leave_ns(n, sid));
            &&& forall|k: int| 0 <= k < w.len() ==> !(#[trigger] w[k]).sockets.contains(sid)
            &&& forall|k: int, r: Seq<char>|
                0 <= k < w.len() && v[k].sockets.contains(sid) ==> !(#[trigger] crate::adapter::members(w[k].rooms, r)).contains(sid)
            &&& forall|k: int, x: Sid|
                0 <= k < w.len() && x != sid ==> ((#[trigger] w[k].sockets.contains(x)) <==> v[k].sockets.contains(x))
        }),
{
    let w = v.map_values(|n: NamespaceView| spec_leave_ns(n, sid));
    assert forall|k: int| 0 <= k < w.len() implies {
        &&& !w[k].sockets.contains(sid)
        &&& forall|r: Seq<char>| v[k].sockets.contains(sid) ==> !(#[trigger] crate::adapter::members(w[k].rooms, r)).contains(sid)
        &&& forall|x: Sid| x != sid ==> ((#[trigger] w[k].sockets.contains(x)) <==> v[k].sockets.contains(x))
    } by {
        crate::ns::lemma_remove_socket_leaves(v[k], sid);
    }
}

} // verus!
