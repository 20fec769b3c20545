//! [`Operators`] are used to select sockets to send a packet to, or to configure the packet that
//! will be emitted. It uses the builder pattern to chain operators.
use crate::adapter::{has_broadcast, texts, BroadcastFlags, BroadcastOptions, BroadcastOptionsView, Sid};
use crate::packet::{bins_view, BinaryPacketView, Packet, PacketDataView, PacketView, Value};
use crate::text::str_eq;
use std::time::Duration;
use vstd::prelude::*;

verus! {

/// A trait for types that can be used as a room parameter: they give the rooms they name.
pub trait RoomParam {
    /// Convert `self` into the rooms it names.
    fn into_room_iter(self) -> Vec<String>;
}

impl RoomParam for String {
    fn into_room_iter(self) -> (r: Vec<String>)
        ensures
            texts(r@) == seq![self@],
    {
        let mut v = Vec::new();
        v.push(self);
        assert(texts(v@) =~= seq![self@]);
        v
    }
}

impl RoomParam for &str {
    fn into_room_iter(self) -> (r: Vec<String>)
        ensures
            texts(r@) == seq![self@],
    {
        let mut v = Vec::new();
        v.push(self.to_owned());
        assert(texts(v@) =~= seq![self@]);
        v
    }
}

impl RoomParam for Vec<String> {
    fn into_room_iter(self) -> (r: Vec<String>)
        ensures
            r@ == self@,
    {
        self
    }
}

/// The rooms of `a`, then each room of `b` that is not there yet (a set extended by `b`).
pub open spec fn spec_extend_rooms(a: Seq<Seq<char>>, b: Seq<Seq<char>>) -> Seq<Seq<char>>
    decreases b.len(),
{
    if b.len() == 0 {
        a
    } else {
        let c = spec_extend_rooms(a, b.drop_last());
        if c.contains(b.last()) {
            c
        } else {
            c.push(b.last())
        }
    }
}

/// What a sequence with one more element holds.
proof fn lemma_push_contains<A>(s: Seq<A>, x: A, y: A)
    ensures
        s.push(x).contains(y) <==> (s.contains(y) || x == y),
{
    if s.push(x).contains(y) && x != y {
        let k = choose|k: int| 0 <= k < s.push(x).len() && s.push(x)[k] == y;
        assert(k < s.len());
        assert(s[k] == y);
    }
    if s.contains(y) {
        let k = choose|k: int| 0 <= k < s.len() && s[k] == y;
        assert(s.push(x)[k] == y);
    }
    if x == y {
        assert(s.push(x)[s.len() as int] == y);
    }
}

/// The rooms gathered by the operators form a set: extending rooms held once each by more rooms
/// gives the rooms of either, each once.
pub proof fn lemma_extend_rooms(a: Seq<Seq<char>>, b: Seq<Seq<char>>)
    requires
        a.no_duplicates(),
    ensures
        spec_extend_rooms(a, b).no_duplicates(),
        forall|r: Seq<char>| #[trigger] spec_extend_rooms(a, b).contains(r) <==> (a.contains(r) || b.contains(r)),
    decreases b.len(),
{
    if b.len() > 0 {
        let pre = b.drop_last();
        lemma_extend_rooms(a, pre);
        let c = spec_extend_rooms(a, pre);
        assert(b =~= pre.push(b.last()));
        assert forall|r: Seq<char>| #[trigger] spec_extend_rooms(a, b).contains(r) <==> (a.contains(r) || b.contains(r)) by {
            lemma_push_contains(pre, b.last(), r);
            lemma_push_contains(c, b.last(), r);
            assert(c.contains(r) <==> (a.contains(r) || pre.contains(r)));
        }
    }
}

/// The flags with `f` added, unless a flag of the same kind (`Local`, `Broadcast`) is there.
pub open spec fn spec_insert_flag(flags: Seq<BroadcastFlags>, f: BroadcastFlags) -> Seq<BroadcastFlags> {
    match f {
        BroadcastFlags::Local => if exists|i: int| 0 <= i < flags.len() && flags[i] is Local {
            flags
        } else {
            flags.push(f)
        },
        BroadcastFlags::Broadcast => if has_broadcast(flags) {
            flags
        } else {
            flags.push(f)
        },
        BroadcastFlags::Timeout(_) => flags.push(f),
    }
}

/// Whether the rooms hold `r`.
fn contains_room(rooms: &Vec<String>, r: &str) -> (b: bool)
    ensures
        b == texts(rooms@).contains(r@),
{
    let mut i: usize = 0;
    while i < rooms.len()
        invariant
            0 <= i <= rooms@.len(),
            forall|j: int| 0 <= j < i ==> rooms@[j]@ != r@,
        decreases rooms@.len() - i,
    {
        if str_eq(rooms[i].as_str(), r) {
            assert(texts(rooms@)[i as int] == r@);
            return true;
        }
        i = i + 1;
    }
    assert forall|j: int| 0 <= j < texts(rooms@).len() implies texts(rooms@)[j] != r@ by {
        assert(texts(rooms@)[j] == rooms@[j]@);
    }
    false
}

/// Adds to the room set each room of `more` that it does not hold.
fn extend_rooms(set: &mut Vec<String>, more: Vec<String>)
    ensures
        texts(final(set)@) == spec_extend_rooms(texts(old(set)@), texts(more@)),
{
    let ghost a = texts(set@);
    let ghost b = texts(more@);
    let mut i: usize = 0;
    while i < more.len()
        invariant
            0 <= i <= more@.len(),
            b == texts(more@),
            texts(set@) == spec_extend_rooms(a, b.subrange(0, i as int)),
        decreases more@.len() - i,
    {
        assert(b.subrange(0, i + 1).drop_last() =~= b.subrange(0, i as int));
        assert(b[i as int] == more@[i as int]@);
        if !contains_room(set, more[i].as_str()) {
            let r = more[i].clone();
            set.push(r);
            proof {
                set@.drop_last().lemma_push_map_commute(|s: String| s@, set@.last());
                assert(set@.drop_last().push(set@.last()) =~= set@);
            }
        }
        i = i + 1;
    }
    assert(b.subrange(0, more@.len() as int) =~= b);
}

/// Whether the flags hold [`BroadcastFlags::Local`].
fn contains_local(flags: &Vec<BroadcastFlags>) -> (b: bool)
    ensures
        b == exists|i: int| 0 <= i < flags@.len() && flags@[i] is Local,
{
    let mut i: usize = 0;
    while i < flags.len()
        invariant
            0 <= i <= flags@.len(),
            forall|j: int| 0 <= j < i ==> !(flags@[j] is Local),
        decreases flags@.len() - i,
    {
        if let BroadcastFlags::Local = flags[i] {
            return true;
        }
        i = i + 1;
    }
    false
}

/// Adds a flag unless a flag of the same kind (`Local`, `Broadcast`) is there.
fn insert_flag(flags: &mut Vec<BroadcastFlags>, f: BroadcastFlags)
    ensures
        final(flags)@ == spec_insert_flag(old(flags)@, f),
{
    match f {
        BroadcastFlags::Local => {
            if !contains_local(flags) {
                flags.push(f);
            }
        },
        BroadcastFlags::Broadcast => {
            if !crate::adapter::contains_broadcast(flags) {
                flags.push(f);
            }
        },
        BroadcastFlags::Timeout(_) => {
            flags.push(f);
        },
    }
}

/// Operators are used to select sockets to send a packet to, or to configure the packet that
/// will be emitted. They gather the broadcast options for the namespace `ns`; the adapter of the
/// namespace then acts on them.
#[derive(Debug)]
pub struct Operators {
    opts: BroadcastOptions,
    ns: String,
    binary: Vec<Vec<u8>>,
}

impl Operators {
    /// The broadcast options gathered so far.
    pub closed spec fn spec_opts(&self) -> BroadcastOptionsView {
        self.opts@
    }

    /// The namespace path.
    pub closed spec fn spec_ns(&self) -> Seq<char> {
        self.ns@
    }

    /// The binary payloads to emit.
    pub closed spec fn spec_binary(&self) -> Seq<Seq<u8>> {
        bins_view(self.binary@)
    }

    /// Operators of the namespace `ns`, on behalf of the socket `sid` if any.
    pub fn new(ns: &str, sid: Option<Sid>) -> (o: Operators)
        ensures
            o.spec_opts() == (BroadcastOptionsView {
                flags: Seq::empty(),
                rooms: Seq::empty(),
                except: Seq::empty(),
                sid,
            }),
            o.spec_ns() == ns@,
            o.spec_binary() == Seq::<Seq<u8>>::empty(),
    {
        let o = Operators { opts: BroadcastOptions::new(sid), ns: ns.to_owned(), binary: Vec::new() };
        assert(bins_view(o.binary@) =~= Seq::<Seq<u8>>::empty());
        o
    }

    /// The broadcast options gathered so far.
    pub fn opts(&self) -> (o: &BroadcastOptions)
        ensures
            o@ == self.spec_opts(),
    {
        &self.opts
    }

    /// Selects all sockets in the given rooms except the current socket.
    pub fn to(self, rooms: Vec<String>) -> (o: Operators)
        ensures
            o.spec_opts() == (BroadcastOptionsView {
                rooms: spec_extend_rooms(self.spec_opts().rooms, texts(rooms@)),
                flags: spec_insert_flag(self.spec_opts().flags, BroadcastFlags::Broadcast),
                ..self.spec_opts()
            }),
            o.spec_ns() == self.spec_ns(),
            o.spec_binary() == self.spec_binary(),
    {
        let mut s = self;
        extend_rooms(&mut s.opts.rooms, rooms);
        insert_flag(&mut s.opts.flags, BroadcastFlags::Broadcast);
        s
    }

    /// Selects all sockets in the given rooms.
    pub fn within(self, rooms: Vec<String>) -> (o: Operators)
        ensures
            o.spec_opts() == (BroadcastOptionsView {
                rooms: spec_extend_rooms(self.spec_opts().rooms, texts(rooms@)),
                ..self.spec_opts()
            }),
            o.spec_ns() == self.spec_ns(),
            o.spec_binary() == self.spec_binary(),
    {
        let mut s = self;
        extend_rooms(&mut s.opts.rooms, rooms);
        s
    }

    /// Filters out all sockets selected with the previous operators which are in the given rooms.
    pub fn except(self, rooms: Vec<String>) -> (o: Operators)
        ensures
            o.spec_opts() == (BroadcastOptionsView {
                except: spec_extend_rooms(self.spec_opts().except, texts(rooms@)),
                flags: spec_insert_flag(self.spec_opts().flags, BroadcastFlags::Broadcast),
                ..self.spec_opts()
            }),
            o.spec_ns() == self.spec_ns(),
            o.spec_binary() == self.spec_binary(),
    {
        let mut s = self;
        extend_rooms(&mut s.opts.except, rooms);
        insert_flag(&mut s.opts.flags, BroadcastFlags::Broadcast);
        s
    }

    /// Broadcasts to all sockets only connected on this node.
    pub fn local(self) -> (o: Operators)
        ensures
            o.spec_opts() == (BroadcastOptionsView {
                flags: spec_insert_flag(self.spec_opts().flags, BroadcastFlags::Local),
                ..self.spec_opts()
            }),
            o.spec_ns() == self.spec_ns(),
            o.spec_binary() == self.spec_binary(),
    {
        let mut s = self;
        insert_flag(&mut s.opts.flags, BroadcastFlags::Local);
        s
    }

    /// Broadcasts to all sockets without any filtering (except the current socket).
    pub fn broadcast(self) -> (o: Operators)
        ensures
            o.spec_opts() == (BroadcastOptionsView {
                flags: spec_insert_flag(self.spec_opts().flags, BroadcastFlags::Broadcast),
                ..self.spec_opts()
            }),
            o.spec_ns() == self.spec_ns(),
            o.spec_binary() == self.spec_binary(),
    {
        let mut s = self;
        insert_flag(&mut s.opts.flags, BroadcastFlags::Broadcast);
        s
    }

    /// Sets a custom timeout when sending a message with an acknowledgement.
    pub fn timeout(self, timeout: Duration) -> (o: Operators)
        ensures
            o.spec_opts() == (BroadcastOptionsView {
                flags: spec_insert_flag(self.spec_opts().flags, BroadcastFlags::Timeout(timeout)),
                ..self.spec_opts()
            }),
            o.spec_ns() == self.spec_ns(),
            o.spec_binary() == self.spec_binary(),
    {
        let mut s = self;
        insert_flag(&mut s.opts.flags, BroadcastFlags::Timeout(timeout));
        s
    }

    /// Adds a binary payload to the message.
    pub fn bin(self, binary: Vec<Vec<u8>>) -> (o: Operators)
        ensures
            o.spec_opts() == self.spec_opts(),
            o.spec_ns() == self.spec_ns(),
            o.spec_binary() == bins_view(binary@),
    {
        let mut s = self;
        s.binary = binary;
        s
    }

    /// Whether the broadcast flag is set.
    pub fn is_broadcast(&self) -> (b: bool)
        ensures
            b == has_broadcast(self.spec_opts().flags),
    {
        crate::adapter::contains_broadcast(&self.opts.flags)
    }

    /// The packet to emit: an event of the namespace, a binary event when binary payloads were
    /// given (which are taken out of the operators).
    pub fn get_packet(&mut self, event: &str, data: Value) -> (p: Packet)
        ensures
            final(self).spec_opts() == old(self).spec_opts(),
            final(self).spec_ns() == old(self).spec_ns(),
            final(self).spec_binary() == Seq::<Seq<u8>>::empty(),
            p@ == (if old(self).spec_binary().len() == 0 {
                PacketView { inner: PacketDataView::Event(event@, data@, None), ns: old(self).spec_ns() }
            } else {
                PacketView {
                    inner: PacketDataView::BinaryEvent(
                        event@,
                        BinaryPacketView {
                            data: data@,
                            bin: old(self).spec_binary(),
                            payload_count: old(self).spec_binary().len() as usize,
                        },
                        None,
                    ),
                    ns: old(self).spec_ns(),
                }
            }),
    {
        if self.binary.len() == 0 {
            Packet::event(self.ns.as_str(), event, data)
        } else {
            let mut binary: Vec<Vec<u8>> = Vec::new();
            std::mem::swap(&mut binary, &mut self.binary);
            assert(bins_view(self.binary@) =~= Seq::<Seq<u8>>::empty());
            Packet::bin_event(self.ns.as_str(), event, data, binary)
        }
    }
}

} // verus!
