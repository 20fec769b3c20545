//! A socket's bookkeeping: why it leaves a namespace, the acknowledgements it waits for, the
//! event handlers it holds, and what each packet it receives leads to.
use crate::errors::EngineDisconnectReason;
use crate::packet::{bins_view, BinaryPacket, PacketData, PacketDataView, Value, ValueView};
use crate::text::str_eq;
use std::collections::HashMap;
use vstd::prelude::*;
use vstd::std_specs::hash::group_hash_axioms;

verus! {

/// All the possible reasons for a socket to be disconnected from a namespace.
#[derive(Debug, Copy, Clone, PartialEq, Eq, Structural)]
pub enum DisconnectReason {
    /// The client gracefully closed the connection
    TransportClose,
    /// The client sent multiple polling requests at the same time (it is forbidden according to the engine.io protocol)
    MultipleHttpPollingError,
    /// The client sent a bad request / the packet could not be parsed correctly
    PacketParsingError,
    /// The connection was closed (example: the user has lost connection, or the network was changed from WiFi to 4G)
    TransportError,
    /// The client did not send a PONG packet in the `ping timeout` delay
    HeartbeatTimeout,
    /// The client has manually disconnected the socket
    ClientNSDisconnect,
    /// The socket was forcefully disconnected from the namespace
    ServerNSDisconnect,
    /// The server is being closed
    ClosingServer,
}

/// The description of a disconnect reason.
pub open spec fn spec_description(r: DisconnectReason) -> Seq<char> {
    match r {
        DisconnectReason::TransportClose => "client gracefully closed the connection"@,
        DisconnectReason::MultipleHttpPollingError => "client sent multiple polling requests at the same time"@,
        DisconnectReason::PacketParsingError => "client sent a bad request / the packet could not be parsed"@,
        DisconnectReason::TransportError => "The connection was abruptly closed"@,
        DisconnectReason::HeartbeatTimeout => "client did not send a PONG packet in time"@,
        DisconnectReason::ClientNSDisconnect => "client has manually disconnected the socket from the namespace"@,
        DisconnectReason::ServerNSDisconnect => "socket was forcefully disconnected from the namespace"@,
        DisconnectReason::ClosingServer => "server is being closed"@,
    }
}

/// The namespace disconnect reason of an engine.io disconnect reason: the same reason.
pub open spec fn spec_from_engine(r: EngineDisconnectReason) -> DisconnectReason {
    match r {
        EngineDisconnectReason::TransportClose => DisconnectReason::TransportClose,
        EngineDisconnectReason::TransportError => DisconnectReason::TransportError,
        EngineDisconnectReason::HeartbeatTimeout => DisconnectReason::HeartbeatTimeout,
        EngineDisconnectReason::MultipleHttpPollingError => DisconnectReason::MultipleHttpPollingError,
        EngineDisconnectReason::PacketParsingError => DisconnectReason::PacketParsingError,
        EngineDisconnectReason::ClosingServer => DisconnectReason::ClosingServer,
    }
}

impl DisconnectReason {
    /// A human readable description of the reason.
    pub fn description(&self) -> (s: &'static str)
        ensures
            s@ == spec_description(*self),
    {
        match self {
            DisconnectReason::TransportClose => "client gracefully closed the connection",
            DisconnectReason::MultipleHttpPollingError => "client sent multiple polling requests at the same time",
            DisconnectReason::PacketParsingError => "client sent a bad request / the packet could not be parsed",
            DisconnectReason::TransportError => "The connection was abruptly closed",
            DisconnectReason::HeartbeatTimeout => "client did not send a PONG packet in time",
            DisconnectReason::ClientNSDisconnect => "client has manually disconnected the socket from the namespace",
            DisconnectReason::ServerNSDisconnect => "socket was forcefully disconnected from the namespace",
            DisconnectReason::ClosingServer => "server is being closed",
        }
    }

    /// The reason a socket leaves its namespaces when its engine.io connection ends.
    pub fn from_engine(reason: EngineDisconnectReason) -> (r: DisconnectReason)
        ensures
            r == spec_from_engine(reason),
    {
        match reason {
            EngineDisconnectReason::TransportClose => DisconnectReason::TransportClose,
            EngineDisconnectReason::TransportError => DisconnectReason::TransportError,
            EngineDisconnectReason::HeartbeatTimeout => DisconnectReason::HeartbeatTimeout,
            EngineDisconnectReason::MultipleHttpPollingError => DisconnectReason::MultipleHttpPollingError,
            EngineDisconnectReason::PacketParsingError => DisconnectReason::PacketParsingError,
            EngineDisconnectReason::ClosingServer => DisconnectReason::ClosingServer,
        }
    }
}

/// Distinct engine.io reasons give distinct namespace reasons, and none of them is a namespace
/// disconnection by the client or the server.
pub proof fn lemma_from_engine_injective(a: EngineDisconnectReason, b: EngineDisconnectReason)
    ensures
        spec_from_engine(a) == spec_from_engine(b) ==> a == b,
        spec_from_engine(a) != DisconnectReason::ClientNSDisconnect,
        spec_from_engine(a) != DisconnectReason::ServerNSDisconnect,
{
}

/// An acknowledgement sent by the client.
/// It contains the data sent by the client and the binary payloads if there are any.
#[derive(Debug)]
pub struct AckResponse<T> {
    /// The data returned by the client
    pub data: T,
    /// Optional binary payloads
    ///
    /// If there is no binary payload, the `Vec` will be empty
    pub binary: Vec<Vec<u8>>,
}


// ---------------------------------------------------------------------------------------------
// Acknowledgements
// ---------------------------------------------------------------------------------------------

/// The acknowledgements a socket waits for: the last ack id given out, and for each id still
/// awaited, what receives the client's answer.
pub struct AckTable<T> {
    counter: i64,
    pending: HashMap<i64, T>,
}

/// Model of [`AckTable`].
pub struct AckTableView<T> {
    /// The last ack id given out (0 before the first).
    pub counter: i64,
    /// The receiver of each awaited ack id.
    pub pending: Map<i64, T>,
}

impl<T> View for AckTable<T> {
    type V = AckTableView<T>;

    closed spec fn view(&self) -> AckTableView<T> {
        AckTableView { counter: self.counter, pending: self.pending@ }
    }
}

/// Every awaited ack id was given out: it is positive and at most the counter.
pub open spec fn acks_wf<T>(v: AckTableView<T>) -> bool {
    &&& v.counter >= 0
    &&& forall|id: i64| #[trigger] v.pending.contains_key(id) ==> 0 < id <= v.counter
}

/// The table after a new ack id, one past the counter, is given to `tx`.
pub open spec fn spec_register<T>(v: AckTableView<T>, tx: T) -> AckTableView<T> {
    AckTableView { counter: (v.counter + 1) as i64, pending: v.pending.insert((v.counter + 1) as i64, tx) }
}

/// What answering the ack id `id` takes out of the table: its receiver, if it is awaited.
pub open spec fn spec_take<T>(v: AckTableView<T>, id: i64) -> (AckTableView<T>, Option<T>) {
    if v.pending.contains_key(id) {
        (AckTableView { pending: v.pending.remove(id), ..v }, Some(v.pending[id]))
    } else {
        (v, None)
    }
}

impl<T> AckTable<T> {
    #[verifier::type_invariant]
    closed spec fn inv(self) -> bool {
        acks_wf(self@)
    }

    /// A table with no ack given out.
    pub fn new() -> (t: AckTable<T>)
        ensures
            t@.counter == 0,
            t@.pending == Map::<i64, T>::empty(),
    {
        AckTable { counter: 0, pending: HashMap::new() }
    }

    /// Gives out the next ack id, one past the last, to `tx`, which then waits for the answer.
    /// The id is one no awaited ack has.
    pub fn register(&mut self, tx: T) -> (id: i64)
        requires
            old(self)@.counter < i64::MAX,
        ensures
            id == old(self)@.counter + 1,
            !old(self)@.pending.contains_key(id),
            final(self)@ == spec_register(old(self)@, tx),
    {
        broadcast use group_hash_axioms;
        proof {
            use_type_invariant(&*self);
        }
        let id = self.counter + 1;
        let mut pending = HashMap::new();
        std::mem::swap(&mut pending, &mut self.pending);
        assert(pending@ == old(self)@.pending);
        pending.insert(id, tx);
        assert(pending@ == old(self)@.pending.insert(id, tx));
        *self = AckTable { counter: id, pending };
        id
    }

    /// Takes out the receiver of the ack id `id`, if that ack is awaited; it is awaited no more.
    pub fn take(&mut self, id: i64) -> (tx: Option<T>)
        ensures
            (final(self)@, tx) == spec_take(old(self)@, id),
    {
        broadcast use group_hash_axioms;
        proof {
            use_type_invariant(&*self);
        }
        let mut pending = HashMap::new();
        std::mem::swap(&mut pending, &mut self.pending);
        assert(pending@ == old(self)@.pending);
        let tx = pending.remove(&id);
        assert(pending@ == old(self)@.pending.remove(id));
        proof {
            if !old(self)@.pending.contains_key(id) {
                assert(old(self)@.pending.remove(id) =~= old(self)@.pending);
            }
        }
        let counter = self.counter;
        *self = AckTable { counter, pending };
        tx
    }

    /// The last ack id given out (0 before the first).
    pub fn last_id(&self) -> (n: i64)
        ensures
            n == self@.counter,
    {
        self.counter
    }

    /// Whether the ack id `id` is awaited.
    pub fn is_pending(&self, id: i64) -> (b: bool)
        ensures
            b == self@.pending.contains_key(id),
    {
        broadcast use group_hash_axioms;
        self.pending.contains_key(&id)
    }
}

/// The answer to an ack id given out is taken out by that id, and by no other: what a
/// registration stores, the answer to its id gets back, and the other awaited acks stay.
pub proof fn lemma_take_after_register<T>(v: AckTableView<T>, tx: T, other: i64)
    requires
        acks_wf(v),
        v.counter < i64::MAX,
    ensures
        ({
            let w = spec_register(v, tx);
            let id = w.counter;
            &&& acks_wf(w)
            &&& spec_take(w, id).1 == Some(tx)
            &&& spec_take(w, id).0.pending == v.pending
            &&& other != id ==> spec_take(w, other).1 == spec_take(v, other).1
        }),
{
    let w = spec_register(v, tx);
    assert(spec_take(w, w.counter).0.pending =~= v.pending);
}

// ---------------------------------------------------------------------------------------------
// Event handlers
// ---------------------------------------------------------------------------------------------

/// The handler registered for the event `name`, if any.
pub open spec fn handler_of<H>(handlers: Seq<(Seq<char>, H)>, name: Seq<char>) -> Option<H> {
    if exists|i: int| 0 <= i < handlers.len() && handlers[i].0 == name {
        Some(handlers[choose|i: int| 0 <= i < handlers.len() && handlers[i].0 == name].1)
    } else {
        None
    }
}

/// Each event name once.
pub open spec fn names_unique<H>(handlers: Seq<(Seq<char>, H)>) -> bool {
    forall|i: int, j: int| 0 <= i < j < handlers.len() ==> handlers[i].0 != handlers[j].0
}

/// In handlers with unique names, the handler at `i` is the handler of its name.
proof fn lemma_handler_at<H>(handlers: Seq<(Seq<char>, H)>, i: int)
    requires
        names_unique(handlers),
        0 <= i < handlers.len(),
    ensures
        handler_of(handlers, handlers[i].0) == Some(handlers[i].1),
{
    let j = choose|j: int| 0 <= j < handlers.len() && handlers[j].0 == handlers[i].0;
    assert(j == i);
}

/// The handlers, as names and handlers.
pub open spec fn handlers_view<H>(v: Seq<(String, H)>) -> Seq<(Seq<char>, H)> {
    v.map_values(|e: (String, H)| (e.0@, e.1))
}

/// Where the handler of `name` is, if there is one.
fn find_handler<H>(handlers: &Vec<(String, H)>, name: &str) -> (res: Option<usize>)
    ensures
        match res {
            Some(i) => i < handlers@.len() && handlers@[i as int].0@ == name@,
            None => forall|i: int| 0 <= i < handlers@.len() ==> #[trigger] handlers@[i].0@ != name@,
        },
{
    let mut i: usize = 0;
    while i < handlers.len()
        invariant
            0 <= i <= handlers@.len(),
            forall|k: int| 0 <= k < i ==> #[trigger] handlers@[k].0@ != name@,
        decreases handlers@.len() - i,
    {
        if str_eq(handlers[i].0.as_str(), name) {
            return Some(i);
        }
        i = i + 1;
    }
    None
}

// ---------------------------------------------------------------------------------------------
// The socket
// ---------------------------------------------------------------------------------------------

/// What a socket does with a packet it receives.
#[derive(Debug)]
pub enum SocketAction<T> {
    /// Call the handler of the event with its data, binary payloads and ack id.
    Event(String, Value, Vec<Vec<u8>>, Option<i64>),
    /// Hand the client's answer to the receiver that awaited it.
    Answer(T, AckResponse<Value>),
    /// Close the socket for this reason.
    Close(DisconnectReason),
    /// Nothing: no handler for the event, or no ack awaited with that id.
    Ignore,
}

/// The state of a socket connected to a namespace: its event handlers (`H`), its disconnect
/// handler (`D`), the acknowledgements it waits for (each received by a `T`), and whether its
/// connection to the namespace is complete.
pub struct SocketState<H, D, T> {
    handlers: Vec<(String, H)>,
    disconnect_handler: Option<D>,
    acks: AckTable<T>,
    connected: bool,
}

/// Model of [`SocketState`].
pub struct SocketStateView<H, D, T> {
    pub handlers: Seq<(Seq<char>, H)>,
    pub disconnect_handler: Option<D>,
    pub acks: AckTableView<T>,
    pub connected: bool,
}

impl<H, D, T> View for SocketState<H, D, T> {
    type V = SocketStateView<H, D, T>;

    closed spec fn view(&self) -> SocketStateView<H, D, T> {
        SocketStateView {
            handlers: handlers_view(self.handlers@),
            disconnect_handler: self.disconnect_handler,
            acks: self.acks@,
            connected: self.connected,
        }
    }
}

impl<H, D, T> SocketState<H, D, T> {
    #[verifier::type_invariant]
    closed spec fn inv(self) -> bool {
        names_unique(handlers_view(self.handlers@))
    }

    /// The state of a socket that just joined: no handler, no ack awaited, not yet connected.
    pub fn new() -> (s: SocketState<H, D, T>)
        ensures
            s@.handlers == Seq::<(Seq<char>, H)>::empty(),
            s@.disconnect_handler is None,
            s@.acks.counter == 0,
            s@.acks.pending == Map::<i64, T>::empty(),
            !s@.connected,
    {
        let s = SocketState { handlers: Vec::new(), disconnect_handler: None, acks: AckTable::new(), connected: false };
        assert(s@.handlers =~= Seq::<(Seq<char>, H)>::empty());
        s
    }

    /// Registers the handler of the event `event`, in place of the one it had.
    pub fn on(&mut self, event: String, handler: H)
        ensures
            handler_of(final(self)@.handlers, event@) == Some(handler),
            forall|n: Seq<char>| n != event@ ==> handler_of(final(self)@.handlers, n) == handler_of(old(self)@.handlers, n),
            final(self)@.disconnect_handler == old(self)@.disconnect_handler,
            final(self)@.acks == old(self)@.acks,
            final(self)@.connected == old(self)@.connected,
    {
        proof {
            use_type_invariant(&*self);
        }
        let ghost old_h = handlers_view(self.handlers@);
        let mut handlers: Vec<(String, H)> = Vec::new();
        std::mem::swap(&mut handlers, &mut self.handlers);
        let ghost name = event@;
        match find_handler(&handlers, event.as_str()) {
            Some(i) => {
                handlers.set(i, (event, handler));
                proof {
                    let w = handlers_view(handlers@);
                    assert(w =~= old_h.update(i as int, (name, handler)));
                    assert(forall|k: int| 0 <= k < w.len() ==> #[trigger] w[k].0 == old_h[k].0);
                    assert(names_unique(w));
                    lemma_handler_at(w, i as int);
                    assert forall|n: Seq<char>| n != name implies handler_of(w, n) == handler_of(old_h, n) by {
                        if exists|k: int| 0 <= k < w.len() && w[k].0 == n {
                            let k = choose|k: int| 0 <= k < w.len() && w[k].0 == n;
                            lemma_handler_at(w, k);
                            lemma_handler_at(old_h, k);
                        } else {
                            assert forall|k: int| 0 <= k < old_h.len() implies old_h[k].0 != n by {
                                assert(w[k].0 == old_h[k].0 || k == i);
                            }
                        }
                    }
                }
            },
            None => {
                handlers.push((event, handler));
                proof {
                    let w = handlers_view(handlers@);
                    assert(w =~= old_h.push((name, handler)));
                    assert forall|k: int| 0 <= k < old_h.len() implies old_h[k].0 != name by {
                        assert(old_h[k].0 == handlers@[k].0@);
                    }
                    lemma_handler_at(w, old_h.len() as int);
                    assert forall|n: Seq<char>| n != name implies handler_of(w, n) == handler_of(old_h, n) by {
                        if exists|k: int| 0 <= k < w.len() && w[k].0 == n {
                            let k = choose|k: int| 0 <= k < w.len() && w[k].0 == n;
                            assert(k < old_h.len());
                            assert(w[k] == old_h[k]);
                            lemma_handler_at(w, k);
                            lemma_handler_at(old_h, k);
                        } else {
                            assert forall|k: int| 0 <= k < old_h.len() implies old_h[k].0 != n by {
                                assert(w[k] == old_h[k]);
                            }
                        }
                    }
                }
            },
        }
        self.handlers = handlers;
    }

    /// The handler of the event `event`, if there is one.
    pub fn handler(&self, event: &str) -> (h: Option<&H>)
        ensures
            match h {
                Some(x) => handler_of(self@.handlers, event@) == Some(*x),
                None => handler_of(self@.handlers, event@) is None,
            },
    {
        proof {
            use_type_invariant(self);
        }
        match find_handler(&self.handlers, event) {
            Some(i) => {
                proof {
                    lemma_handler_at(self@.handlers, i as int);
                }
                Some(&self.handlers[i].1)
            },
            None => {
                proof {
                    assert forall|k: int| 0 <= k < self@.handlers.len() implies self@.handlers[k].0 != event@ by {
                        assert(self@.handlers[k].0 == self.handlers@[k].0@);
                    }
                }
                None
            },
        }
    }

    /// Registers the handler called when the socket is disconnected, in place of the one it had.
    pub fn on_disconnect(&mut self, handler: D)
        ensures
            final(self)@ == (SocketStateView { disconnect_handler: Some(handler), ..old(self)@ }),
    {
        proof {
            use_type_invariant(&*self);
        }
        self.disconnect_handler = Some(handler);
    }

    /// Whether the connection to the namespace is complete.
    pub fn connected(&self) -> (b: bool)
        ensures
            b == self@.connected,
    {
        self.connected
    }

    /// Marks the connection to the namespace as complete, or not.
    pub fn set_connected(&mut self, connected: bool)
        ensures
            final(self)@ == (SocketStateView { connected, ..old(self)@ }),
    {
        proof {
            use_type_invariant(&*self);
        }
        self.connected = connected;
    }

    /// The last ack id given out (0 before the first).
    pub fn last_ack_id(&self) -> (n: i64)
        ensures
            n == self@.acks.counter,
    {
        self.acks.last_id()
    }

    /// Gives out the next ack id to `tx`, which then waits for the client's answer.
    pub fn register_ack(&mut self, tx: T) -> (id: i64)
        requires
            old(self)@.acks.counter < i64::MAX,
        ensures
            id == old(self)@.acks.counter + 1,
            !old(self)@.acks.pending.contains_key(id),
            final(self)@ == (SocketStateView { acks: spec_register(old(self)@.acks, tx), ..old(self)@ }),
    {
        proof {
            use_type_invariant(&*self);
        }
        let mut acks = AckTable::new();
        std::mem::swap(&mut acks, &mut self.acks);
        let id = acks.register(tx);
        self.acks = acks;
        id
    }

    /// Takes out the receiver that awaits the answer to the ack id `id`, if there is one.
    fn take_ack(&mut self, id: i64) -> (tx: Option<T>)
        ensures
            final(self)@ == (SocketStateView { acks: spec_take(old(self)@.acks, id).0, ..old(self)@ }),
            tx == spec_take(old(self)@.acks, id).1,
    {
        proof {
            use_type_invariant(&*self);
        }
        let mut acks = AckTable::new();
        std::mem::swap(&mut acks, &mut self.acks);
        let tx = acks.take(id);
        self.acks = acks;
        tx
    }

    /// Closes the socket: takes out its disconnect handler (so that it is called once at most).
    pub fn close(&mut self) -> (h: Option<D>)
        ensures
            h == old(self)@.disconnect_handler,
            final(self)@ == (SocketStateView { disconnect_handler: None, ..old(self)@ }),
    {
        proof {
            use_type_invariant(&*self);
        }
        let mut h = None;
        std::mem::swap(&mut h, &mut self.disconnect_handler);
        h
    }

    /// What the socket does with a packet it receives: an event goes to the handler of its name
    /// (with its binary payloads), an answer to the receiver that awaited its ack id (which then
    /// awaits no more), and a disconnect packet closes the socket. Connect packets and connect
    /// errors are never handed to a socket.
    pub fn recv(&mut self, packet: PacketData) -> (a: SocketAction<T>)
        requires
            !(packet@ is Connect),
            !(packet@ is ConnectError),
        ensures
            match packet@ {
                PacketDataView::Event(e, d, ack) => {
                    &&& final(self)@ == old(self)@
                    &&& if handler_of(old(self)@.handlers, e) is Some {
                        a matches SocketAction::Event(n, v, bins, x) && n@ == e && v@ == d && bins@.len() == 0 && x == ack
                    } else {
                        a is Ignore
                    }
                },
                PacketDataView::BinaryEvent(e, b, ack) => {
                    &&& final(self)@ == old(self)@
                    &&& if handler_of(old(self)@.handlers, e) is Some {
                        a matches SocketAction::Event(n, v, bins, x) && n@ == e && v@ == b.data && bins_view(bins@) == b.bin
                            && x == ack
                    } else {
                        a is Ignore
                    }
                },
                PacketDataView::EventAck(d, id) => {
                    &&& final(self)@ == (SocketStateView { acks: spec_take(old(self)@.acks, id).0, ..old(self)@ })
                    &&& match spec_take(old(self)@.acks, id).1 {
                        Some(t) => a matches SocketAction::Answer(u, r) && u == t && r.data@ == d && r.binary@.len() == 0,
                        None => a is Ignore,
                    }
                },
                PacketDataView::BinaryAck(b, id) => {
                    &&& final(self)@ == (SocketStateView { acks: spec_take(old(self)@.acks, id).0, ..old(self)@ })
                    &&& match spec_take(old(self)@.acks, id).1 {
                        Some(t) => a matches SocketAction::Answer(u, r) && u == t && r.data@ == b.data
                            && bins_view(r.binary@) == b.bin,
                        None => a is Ignore,
                    }
                },
                _ => final(self)@ == old(self)@ && a == SocketAction::<T>::Close(DisconnectReason::ClientNSDisconnect),
            },
    {
        match packet {
            PacketData::Event(e, data, ack) => {
                if self.handler(e.as_str()).is_some() {
                    SocketAction::Event(e, data, Vec::new(), ack)
                } else {
                    SocketAction::Ignore
                }
            },
            PacketData::BinaryEvent(e, bin, ack) => {
                if self.handler(e.as_str()).is_some() {
                    let BinaryPacket { data, bin, payload_count: _ } = bin;
                    SocketAction::Event(e, data, bin, ack)
                } else {
                    SocketAction::Ignore
                }
            },
            PacketData::EventAck(data, id) => match self.take_ack(id) {
                Some(tx) => SocketAction::Answer(tx, AckResponse { data, binary: Vec::new() }),
                None => SocketAction::Ignore,
            },
            PacketData::BinaryAck(bin, id) => match self.take_ack(id) {
                Some(tx) => {
                    let BinaryPacket { data, bin, payload_count: _ } = bin;
                    SocketAction::Answer(tx, AckResponse { data, binary: bin })
                },
                None => SocketAction::Ignore,
            },
            _ => SocketAction::Close(DisconnectReason::ClientNSDisconnect),
        }
    }
}

} // verus!
