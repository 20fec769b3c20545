//! A namespace: its path, the sockets connected to it, and its adapter, which holds the rooms of
//! those sockets.
use crate::adapter::{
    lemma_apply_opts_once, lemma_apply_opts_sound, lemma_del_all_leaves, lemma_without, members, rooms_wf, spec_add_all, spec_apply_opts,
    spec_del, spec_del_all, texts, without, BroadcastOptions, LocalAdapter, RoomsView, Sid,
};
use crate::errors::SocketIoError;
use crate::packet::{spec_connect_error_text, Packet, PacketData, PacketDataView, PacketView, Value};
use crate::ProtocolVersion;
use vstd::prelude::*;

verus! {

/// A namespace: its path, its adapter and the sockets connected to it.
#[derive(Debug)]
pub struct Namespace {
    path: String,
    adapter: LocalAdapter,
    sockets: Vec<Sid>,
}

/// Model of [`Namespace`].
pub struct NamespaceView {
    /// The path of the namespace.
    pub path: Seq<char>,
    /// The rooms of its sockets.
    pub rooms: RoomsView,
    /// The sockets connected to it, in the order they connected.
    pub sockets: Seq<Sid>,
}

impl View for Namespace {
    type V = NamespaceView;

    closed spec fn view(&self) -> NamespaceView {
        NamespaceView { path: self.path@, rooms: self.adapter@, sockets: self.sockets@ }
    }
}

/// Each socket once, and well-formed rooms.
pub open spec fn ns_wf(v: NamespaceView) -> bool {
    &&& v.sockets.no_duplicates()
    &&& rooms_wf(v.rooms)
}

/// The sockets with `sid` added, unless it is there already.
pub open spec fn with_socket(sockets: Seq<Sid>, sid: Sid) -> Seq<Sid> {
    if sockets.contains(sid) {
        sockets
    } else {
        sockets.push(sid)
    }
}

impl Namespace {
    #[verifier::type_invariant]
    closed spec fn inv(self) -> bool {
        ns_wf(self@)
    }

    /// A namespace with no socket and no room.
    pub fn new(path: &str) -> (ns: Namespace)
        ensures
            ns@.path == path@,
            ns@.rooms == Seq::<(Seq<char>, Seq<Sid>)>::empty(),
            ns@.sockets == Seq::<Sid>::empty(),
    {
        let ns = Namespace { path: path.to_owned(), adapter: LocalAdapter::new(), sockets: Vec::new() };
        assert(ns@.sockets =~= Seq::<Sid>::empty());
        ns
    }

    /// The path of the namespace.
    pub fn path(&self) -> (p: &str)
        ensures
            p@ == self@.path,
    {
        self.path.as_str()
    }

    /// The adapter of the namespace.
    pub fn adapter(&self) -> (a: &LocalAdapter)
        ensures
            a@ == self@.rooms,
    {
        &self.adapter
    }

    /// Whether the socket is connected to the namespace.
    pub fn has(&self, sid: Sid) -> (b: bool)
        ensures
            b == self@.sockets.contains(sid),
    {
        let mut i: usize = 0;
        while i < self.sockets.len()
            invariant
                0 <= i <= self@.sockets.len(),
                forall|k: int| 0 <= k < i ==> self@.sockets[k] != sid,
            decreases self@.sockets.len() - i,
        {
            if self.sockets[i] == sid {
                return true;
            }
            i = i + 1;
        }
        false
    }

    /// The socket, if it is connected to the namespace; otherwise the error that it is gone.
    pub fn get_socket(&self, sid: Sid) -> (res: Result<Sid, SocketIoError>)
        ensures
            self@.sockets.contains(sid) ==> res == Ok::<Sid, SocketIoError>(sid),
            !self@.sockets.contains(sid) ==> (res matches Err(SocketIoError::SocketGone(s)) && s == sid),
    {
        if self.has(sid) {
            Ok(sid)
        } else {
            Err(SocketIoError::SocketGone(sid))
        }
    }

    /// The sockets connected to the namespace.
    pub fn get_sockets(&self) -> (res: Vec<Sid>)
        ensures
            res@ == self@.sockets,
    {
        self.sockets.clone()
    }

    /// Connects a socket. When the connect middlewares refused it (with a message), the socket
    /// is not added and the reply is a connect error with that message; otherwise the socket is
    /// added and the reply is a connect packet, with the payload `sid_payload` for protocol v5.
    pub fn connect(&mut self, sid: Sid, refused: Option<String>, protocol: ProtocolVersion, sid_payload: Value) -> (reply: Packet)
        ensures
            final(self)@.path == old(self)@.path,
            final(self)@.rooms == old(self)@.rooms,
            match refused {
                Some(msg) => {
                    &&& final(self)@.sockets == old(self)@.sockets
                    &&& reply@ == (PacketView {
                        inner: PacketDataView::ConnectError(spec_connect_error_text(msg@)),
                        ns: old(self)@.path,
                    })
                },
                None => {
                    &&& final(self)@.sockets == with_socket(old(self)@.sockets, sid)
                    &&& reply@.ns == old(self)@.path
                    &&& protocol == ProtocolVersion::V4 ==> reply@.inner == PacketDataView::Connect(None)
                    &&& protocol == ProtocolVersion::V5 ==> reply@.inner == PacketDataView::Connect(Some(sid_payload@))
                },
            },
    {
        proof {
            use_type_invariant(&*self);
        }
        match refused {
            Some(msg) => Packet::connect_error(self.path.as_str(), msg.as_str()),
            None => {
                if !self.has(sid) {
                    let mut sockets: Vec<Sid> = Vec::new();
                    std::mem::swap(&mut sockets, &mut self.sockets);
                    sockets.push(sid);
                    proof {
                        assert forall|i: int, j: int| 0 <= i < j < sockets@.len() implies sockets@[i] != sockets@[j] by {
                            if j == sockets@.len() - 1 {
                                assert(old(self)@.sockets[i] == sockets@[i]);
                            } else {
                                assert(old(self)@.sockets[i] == sockets@[i] && old(self)@.sockets[j] == sockets@[j]);
                            }
                        }
                    }
                    self.sockets = sockets;
                }
                Packet::connect(self.path.as_str(), sid_payload, protocol)
            },
        }
    }

    /// Removes a socket from the namespace, and from every room of the adapter.
    pub fn remove_socket(&mut self, sid: Sid)
        ensures
            final(self)@ == (NamespaceView {
                sockets: without(old(self)@.sockets, sid),
                rooms: spec_del_all(old(self)@.rooms, sid),
                ..old(self)@
            }),
    {
        proof {
            use_type_invariant(&*self);
            lemma_without(self@.sockets, sid);
        }
        let ghost before = self@.sockets;
        let mut kept: Vec<Sid> = Vec::new();
        let mut i: usize = 0;
        while i < self.sockets.len()
            invariant
                0 <= i <= before.len(),
                before == self@.sockets,
                kept@ == without(before.subrange(0, i as int), sid),
            decreases before.len() - i,
        {
            let x = self.sockets[i];
            proof {
                assert(before.subrange(0, i + 1) =~= before.subrange(0, i as int).push(x));
                crate::adapter::lemma_filter_push(before.subrange(0, i as int), x, crate::adapter::not_sid(sid));
            }
            if x != sid {
                kept.push(x);
            }
            i = i + 1;
        }
        assert(before.subrange(0, before.len() as int) =~= before);
        let mut adapter = LocalAdapter::new();
        std::mem::swap(&mut adapter, &mut self.adapter);
        adapter.del_all(sid);
        self.sockets = kept;
        self.adapter = adapter;
    }

    /// Adds a connected socket to the rooms.
    pub fn join(&mut self, sid: Sid, rooms: Vec<String>)
        ensures
            final(self)@ == (NamespaceView { rooms: spec_add_all(old(self)@.rooms, sid, texts(rooms@)), ..old(self)@ }),
    {
        proof {
            use_type_invariant(&*self);
        }
        let mut adapter = LocalAdapter::new();
        std::mem::swap(&mut adapter, &mut self.adapter);
        adapter.add_all(sid, rooms);
        self.adapter = adapter;
    }

    /// Removes a socket from the rooms.
    pub fn leave(&mut self, sid: Sid, rooms: Vec<String>)
        ensures
            final(self)@ == (NamespaceView { rooms: spec_del(old(self)@.rooms, sid, texts(rooms@)), ..old(self)@ }),
    {
        proof {
            use_type_invariant(&*self);
        }
        let mut adapter = LocalAdapter::new();
        std::mem::swap(&mut adapter, &mut self.adapter);
        adapter.del(sid, rooms);
        self.adapter = adapter;
    }

    /// The sockets of the namespace that the broadcast options select, each once.
    pub fn apply_opts(&self, opts: &BroadcastOptions) -> (res: Vec<Sid>)
        ensures
            res@ == spec_apply_opts(self@.rooms, opts@, self@.sockets),
            res@.no_duplicates(),
    {
        proof {
            use_type_invariant(self);
        }
        self.adapter.apply_opts(opts, &self.sockets)
    }

    /// Where a packet of a socket goes: a connect error is no packet a client sends; a packet of
    /// a socket that is not connected reports it gone; any other packet goes to the socket.
    /// Connect packets are handled before they reach a namespace.
    pub fn recv(&self, sid: Sid, packet: PacketData) -> (res: Result<PacketData, SocketIoError>)
        requires
            !(packet@ is Connect),
        ensures
            packet@ is ConnectError ==> res matches Err(SocketIoError::InvalidPacketType),
            !(packet@ is ConnectError) && !self@.sockets.contains(sid) ==> (res matches Err(SocketIoError::SocketGone(s))
                && s == sid),
            !(packet@ is ConnectError) && self@.sockets.contains(sid) ==> (res matches Ok(q) && q@ == packet@),
    {
        match packet {
            PacketData::ConnectError(_) => Err(SocketIoError::InvalidPacketType),
            other => match self.get_socket(sid) {
                Ok(_) => Ok(other),
                Err(e) => Err(e),
            },
        }
    }

    /// Closes the namespace: the adapter drops every room. Returns the sockets whose transports
    /// are then closed; each leaves the namespace when its transport is closed.
    pub fn close(&mut self) -> (res: Vec<Sid>)
        ensures
            res@ == old(self)@.sockets,
            final(self)@ == (NamespaceView { rooms: Seq::<(Seq<char>, Seq<Sid>)>::empty(), ..old(self)@ }),
    {
        proof {
            use_type_invariant(&*self);
        }
        let mut adapter = LocalAdapter::new();
        std::mem::swap(&mut adapter, &mut self.adapter);
        adapter.close();
        self.adapter = adapter;
        self.sockets.clone()
    }
}

/// A socket removed from a namespace is no longer connected to it and in none of its rooms; the
/// other sockets keep their connection and their rooms.
pub proof fn lemma_remove_socket_leaves(v: NamespaceView, sid: Sid)
    requires
        ns_wf(v),
    ensures
        ({
            let w = NamespaceView { sockets: without(v.sockets, sid), rooms: spec_del_all(v.rooms, sid), ..v };
            &&& ns_wf(w)
            &&& !w.sockets.contains(sid)
            &&& forall|r: Seq<char>| !(#[trigger] members(w.rooms, r)).contains(sid)
            &&& forall|x: Sid| x != sid ==> (#[trigger] w.sockets.contains(x) <==> v.sockets.contains(x))
            &&& forall|r: Seq<char>, x: Sid|
                x != sid ==> (#[trigger] members(w.rooms, r).contains(x) <==> members(v.rooms, r).contains(x))
        }),
{
    lemma_without(v.sockets, sid);
    lemma_del_all_leaves(v.rooms, sid);
}

/// The sockets a namespace's broadcast options select are connected to it, each selected once.
pub proof fn lemma_broadcast_reaches_connected(v: NamespaceView, opts: crate::adapter::BroadcastOptionsView)
    requires
        ns_wf(v),
    ensures
        forall|x: Sid| #[trigger] spec_apply_opts(v.rooms, opts, v.sockets).contains(x) ==> v.sockets.contains(x),
        spec_apply_opts(v.rooms, opts, v.sockets).no_duplicates(),
{
    lemma_apply_opts_sound(v.rooms, opts, v.sockets);
    lemma_apply_opts_once(v.rooms, opts, v.sockets);
}

} // verus!
