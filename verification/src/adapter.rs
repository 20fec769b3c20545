//! Adapters are responsible for managing the state of the server.
//! When a socket joins or leaves a room, the adapter is responsible for updating the state.
//! The [`LocalAdapter`] stores the state in memory: each room with the sockets in it.
use crate::text::str_eq;
use std::time::Duration;
use vstd::pervasive::VecAdditionalExecFns;
use vstd::prelude::*;

verus! {

/// A socket id: the 16 bytes of an engine.io session id, read big-endian as one number.
#[derive(Debug, Clone, Copy, PartialEq, Eq, Hash, Structural)]
pub struct Sid(pub u128);

/// Flags that can be used to modify the behavior of the broadcast methods.
#[derive(Clone, Copy, Debug)]
pub enum BroadcastFlags {
    /// Broadcast only to the current server
    Local,
    /// Broadcast to all servers
    Broadcast,
    /// Add a custom timeout to the ack callback
    Timeout(Duration),
}

/// Options that can be used to modify the behavior of the broadcast methods.
#[derive(Clone, Debug)]
pub struct BroadcastOptions {
    /// The flags to apply to the broadcast.
    pub flags: Vec<BroadcastFlags>,
    /// The rooms to broadcast to (each once).
    pub rooms: Vec<String>,
    /// The rooms to exclude from the broadcast (each once).
    pub except: Vec<String>,
    /// The socket id of the sender.
    pub sid: Option<Sid>,
}

/// The texts of strings.
pub open spec fn texts(v: Seq<String>) -> Seq<Seq<char>> {
    v.map_values(|s: String| s@)
}

/// Model of [`BroadcastOptions`].
pub struct BroadcastOptionsView {
    pub flags: Seq<BroadcastFlags>,
    pub rooms: Seq<Seq<char>>,
    pub except: Seq<Seq<char>>,
    pub sid: Option<Sid>,
}

impl View for BroadcastOptions {
    type V = BroadcastOptionsView;

    open spec fn view(&self) -> BroadcastOptionsView {
        BroadcastOptionsView {
            flags: self.flags@,
            rooms: texts(self.rooms@),
            except: texts(self.except@),
            sid: self.sid,
        }
    }
}

impl BroadcastOptions {
    /// Options with no flags and no rooms, for the given sender.
    pub fn new(sid: Option<Sid>) -> (o: BroadcastOptions)
        ensures
            o@ == (BroadcastOptionsView {
                flags: Seq::empty(),
                rooms: Seq::empty(),
                except: Seq::empty(),
                sid,
            }),
    {
        let o = BroadcastOptions { flags: Vec::new(), rooms: Vec::new(), except: Vec::new(), sid };
        assert(texts(o.rooms@) =~= Seq::<Seq<char>>::empty());
        assert(texts(o.except@) =~= Seq::<Seq<char>>::empty());
        o
    }
}

/// Whether the flags hold [`BroadcastFlags::Broadcast`].
pub open spec fn has_broadcast(flags: Seq<BroadcastFlags>) -> bool {
    exists|i: int| 0 <= i < flags.len() && flags[i] is Broadcast
}

/// Whether the flags hold [`BroadcastFlags::Broadcast`].
pub fn contains_broadcast(flags: &Vec<BroadcastFlags>) -> (b: bool)
    ensures
        b == has_broadcast(flags@),
{
    let mut i: usize = 0;
    while i < flags.len()
        invariant
            0 <= i <= flags@.len(),
            forall|j: int| 0 <= j < i ==> !(flags@[j] is Broadcast),
        decreases flags@.len() - i,
    {
        if let BroadcastFlags::Broadcast = flags[i] {
            return true;
        }
        i = i + 1;
    }
    false
}

/// The index of the first timeout flag, if any.
pub open spec fn first_timeout(flags: Seq<BroadcastFlags>) -> Option<int> {
    if exists|i: int| 0 <= i < flags.len() && flags[i] is Timeout {
        Some(choose|i: int| 0 <= i < flags.len() && flags[i] is Timeout && forall|j: int| 0 <= j < i ==> !(flags[j] is Timeout))
    } else {
        None
    }
}

/// The timeout of an acknowledged broadcast: the duration of the first timeout flag, if any.
pub fn broadcast_timeout(flags: &Vec<BroadcastFlags>) -> (d: Option<Duration>)
    ensures
        match first_timeout(flags@) {
            Some(i) => flags@[i] matches BroadcastFlags::Timeout(t) && d == Some(t),
            None => d is None,
        },
{
    let mut i: usize = 0;
    while i < flags.len()
        invariant
            0 <= i <= flags@.len(),
            forall|j: int| 0 <= j < i ==> !(flags@[j] is Timeout),
        decreases flags@.len() - i,
    {
        if let BroadcastFlags::Timeout(t) = flags[i] {
            proof {
                let k = choose|k: int| 0 <= k < flags@.len() && flags@[k] is Timeout && forall|j: int| 0 <= j < k ==> !(flags@[j] is Timeout);
                if k < i {
                } else if k > i {
                    assert(!(flags@[i as int] is Timeout));
                }
                assert(k == i);
            }
            return Some(t);
        }
        i = i + 1;
    }
    None
}

/// Whether a sequence of socket ids holds `s`.
fn contains_sid(v: &Vec<Sid>, s: Sid) -> (b: bool)
    ensures
        b == v@.contains(s),
{
    let mut i: usize = 0;
    while i < v.len()
        invariant
            0 <= i <= v@.len(),
            forall|j: int| 0 <= j < i ==> v@[j] != s,
        decreases v@.len() - i,
    {
        if v[i] == s {
            return true;
        }
        i = i + 1;
    }
    false
}

// ---------------------------------------------------------------------------------------------
// The rooms
// ---------------------------------------------------------------------------------------------

/// The rooms, in the order they were first joined, each with its sockets in the order they
/// joined.
pub type RoomsView = Seq<(Seq<char>, Seq<Sid>)>;

/// The names of the rooms.
pub open spec fn room_names(v: RoomsView) -> Seq<Seq<char>> {
    v.map_values(|e: (Seq<char>, Seq<Sid>)| e.0)
}

/// Each room once, each socket once in a room.
pub open spec fn rooms_wf(v: RoomsView) -> bool {
    &&& room_names(v).no_duplicates()
    &&& forall|i: int| 0 <= i < v.len() ==> (#[trigger] v[i]).1.no_duplicates()
}

/// Whether the room `r` exists.
pub open spec fn has_room(v: RoomsView, r: Seq<char>) -> bool {
    exists|i: int| 0 <= i < v.len() && v[i].0 == r
}

/// The position of the room `r`.
pub open spec fn room_index(v: RoomsView, r: Seq<char>) -> int {
    choose|i: int| 0 <= i < v.len() && v[i].0 == r
}

/// The sockets in the room `r` (none when the room does not exist).
pub open spec fn members(v: RoomsView, r: Seq<char>) -> Seq<Sid> {
    if has_room(v, r) {
        v[room_index(v, r)].1
    } else {
        Seq::empty()
    }
}

/// Whether a socket id is not `s`.
pub open spec fn not_sid(s: Sid) -> spec_fn(Sid) -> bool {
    |x: Sid| x != s
}

/// The socket ids without `s`.
pub open spec fn without(sids: Seq<Sid>, s: Sid) -> Seq<Sid> {
    sids.filter(not_sid(s))
}

/// The rooms after the socket `s` joins the room `r` (created when missing).
pub open spec fn spec_join(v: RoomsView, r: Seq<char>, s: Sid) -> RoomsView {
    if has_room(v, r) {
        let i = room_index(v, r);
        v.update(i, (r, if v[i].1.contains(s) { v[i].1 } else { v[i].1.push(s) }))
    } else {
        v.push((r, seq![s]))
    }
}

/// The rooms after the socket `s` leaves the room `r` (kept, possibly empty).
pub open spec fn spec_leave(v: RoomsView, r: Seq<char>, s: Sid) -> RoomsView {
    if has_room(v, r) {
        let i = room_index(v, r);
        v.update(i, (r, without(v[i].1, s)))
    } else {
        v
    }
}

/// The rooms after the socket `s` joins each of `rooms` in turn.
pub open spec fn spec_add_all(v: RoomsView, s: Sid, rooms: Seq<Seq<char>>) -> RoomsView
    decreases rooms.len(),
{
    if rooms.len() == 0 {
        v
    } else {
        spec_join(spec_add_all(v, s, rooms.drop_last()), rooms.last(), s)
    }
}

/// The rooms after the socket `s` leaves each of `rooms` in turn.
pub open spec fn spec_del(v: RoomsView, s: Sid, rooms: Seq<Seq<char>>) -> RoomsView
    decreases rooms.len(),
{
    if rooms.len() == 0 {
        v
    } else {
        spec_leave(spec_del(v, s, rooms.drop_last()), rooms.last(), s)
    }
}

/// The rooms after the socket `s` leaves every room.
pub open spec fn spec_del_all(v: RoomsView, s: Sid) -> RoomsView {
    v.map_values(|e: (Seq<char>, Seq<Sid>)| (e.0, without(e.1, s)))
}

/// Whether an entry holds the socket `s`.
pub open spec fn holds_sid(s: Sid) -> spec_fn((Seq<char>, Seq<Sid>)) -> bool {
    |e: (Seq<char>, Seq<Sid>)| e.1.contains(s)
}

/// The rooms that hold the socket `s`, in room order.
pub open spec fn spec_socket_rooms(v: RoomsView, s: Sid) -> Seq<Seq<char>> {
    room_names(v.filter(holds_sid(s)))
}

/// The sockets of the rooms, room after room.
pub open spec fn room_candidates(v: RoomsView, rooms: Seq<Seq<char>>) -> Seq<Sid>
    decreases rooms.len(),
{
    if rooms.len() == 0 {
        Seq::empty()
    } else {
        room_candidates(v, rooms.drop_last()) + members(v, rooms.last())
    }
}

/// Whether the socket `s` is in one of the rooms.
pub open spec fn in_rooms(v: RoomsView, rooms: Seq<Seq<char>>, s: Sid) -> bool {
    exists|j: int| 0 <= j < rooms.len() && members(v, rooms[j]).contains(s)
}

/// Which sockets of the rooms the options keep: not in an excepted room, not the sender when
/// broadcasting, and connected to the namespace.
pub open spec fn room_pick(v: RoomsView, opts: BroadcastOptionsView, ns: Seq<Sid>) -> spec_fn(Sid) -> bool {
    |s: Sid| !in_rooms(v, opts.except, s) && (!has_broadcast(opts.flags) || opts.sid != Some(s)) && ns.contains(s)
}

/// Which sockets of the namespace a broadcast without rooms keeps: not in an excepted room, not
/// the sender.
pub open spec fn ns_pick(v: RoomsView, opts: BroadcastOptionsView) -> spec_fn(Sid) -> bool {
    |s: Sid| !in_rooms(v, opts.except, s) && opts.sid != Some(s)
}

/// The sockets in the order they come, each once: a socket is kept where it first comes.
pub open spec fn spec_dedup(s: Seq<Sid>) -> Seq<Sid>
    decreases s.len(),
{
    if s.len() == 0 {
        s
    } else {
        let d = spec_dedup(s.drop_last());
        if d.contains(s.last()) {
            d
        } else {
            d.push(s.last())
        }
    }
}

/// The sockets that the options select, among the sockets `ns` of the namespace: with rooms,
/// the sockets of those rooms (room after room, each socket once, where it first comes); otherwise,
/// with the broadcast flag, every socket of the namespace; otherwise the sender. Sockets of the
/// excepted rooms are left out, and so is the sender when broadcasting.
pub open spec fn spec_apply_opts(v: RoomsView, opts: BroadcastOptionsView, ns: Seq<Sid>) -> Seq<Sid> {
    if opts.rooms.len() > 0 {
        spec_dedup(room_candidates(v, opts.rooms)).filter(room_pick(v, opts, ns))
    } else if has_broadcast(opts.flags) {
        ns.filter(ns_pick(v, opts))
    } else if opts.sid is Some && ns.contains(opts.sid.unwrap()) {
        seq![opts.sid.unwrap()]
    } else {
        Seq::empty()
    }
}

/// The rooms after each socket of `sids` joins each of `rooms`, socket after socket.
pub open spec fn spec_add_sockets(v: RoomsView, sids: Seq<Sid>, rooms: Seq<Seq<char>>) -> RoomsView
    decreases sids.len(),
{
    if sids.len() == 0 {
        v
    } else {
        spec_add_all(spec_add_sockets(v, sids.drop_last(), rooms), sids.last(), rooms)
    }
}

/// The rooms after each socket of `sids` leaves each of `rooms`, socket after socket.
pub open spec fn spec_del_sockets(v: RoomsView, sids: Seq<Sid>, rooms: Seq<Seq<char>>) -> RoomsView
    decreases sids.len(),
{
    if sids.len() == 0 {
        v
    } else {
        spec_del(spec_del_sockets(v, sids.drop_last(), rooms), sids.last(), rooms)
    }
}

/// The default adapter. Store the state in memory.
#[derive(Debug)]
pub struct LocalAdapter {
    rooms: Vec<(String, Vec<Sid>)>,
}

/// The rooms held in entries of a name and its sockets.
pub open spec fn entries_view(v: Seq<(String, Vec<Sid>)>) -> RoomsView {
    v.map_values(|e: (String, Vec<Sid>)| (e.0@, e.1@))
}

impl View for LocalAdapter {
    type V = RoomsView;

    closed spec fn view(&self) -> RoomsView {
        entries_view(self.rooms@)
    }
}

impl LocalAdapter {
    /// Each room once, each socket once in a room.
    #[verifier::type_invariant]
    closed spec fn inv(self) -> bool {
        rooms_wf(entries_view(self.rooms@))
    }
}

// ---------------------------------------------------------------------------------------------
// Facts about the rooms
// ---------------------------------------------------------------------------------------------

/// In well-formed rooms, a room found at `i` is the room of its name.
pub proof fn lemma_room_at(v: RoomsView, i: int)
    requires
        rooms_wf(v),
        0 <= i < v.len(),
    ensures
        has_room(v, v[i].0),
        room_index(v, v[i].0) == i,
        members(v, v[i].0) == v[i].1,
{
    let j = room_index(v, v[i].0);
    assert(room_names(v)[i] == v[i].0);
    assert(room_names(v)[j] == v[j].0);
}

/// Filtering a sequence with one more element.
pub proof fn lemma_filter_push<A>(a: Seq<A>, x: A, p: spec_fn(A) -> bool)
    ensures
        a.push(x).filter(p) == (if p(x) { a.filter(p).push(x) } else { a.filter(p) }),
{
    reveal(Seq::filter);
    assert(a.push(x).drop_last() =~= a);
}

/// Keeping each socket once where it first comes: no socket twice, and the same sockets.
pub proof fn lemma_dedup(s: Seq<Sid>)
    ensures
        spec_dedup(s).no_duplicates(),
        forall|x: Sid| #[trigger] spec_dedup(s).contains(x) <==> s.contains(x),
    decreases s.len(),
{
    if s.len() > 0 {
        let init = s.drop_last();
        lemma_dedup(init);
        assert(s =~= init.push(s.last()));
        let d = spec_dedup(init);
        assert forall|x: Sid| #[trigger] spec_dedup(s).contains(x) <==> s.contains(x) by {
            if s.contains(x) {
                let k = choose|k: int| 0 <= k < s.len() && s[k] == x;
                if k < init.len() {
                    assert(init[k] == x);
                }
            }
            if init.contains(x) {
                let k = choose|k: int| 0 <= k < init.len() && init[k] == x;
                assert(s[k] == x);
            }
            if !d.contains(s.last()) {
                assert(d.push(s.last())[d.len() as int] == s.last());
                if d.push(s.last()).contains(x) && x != s.last() {
                    let k = choose|k: int| 0 <= k < d.len() + 1 && d.push(s.last())[k] == x;
                    assert(d[k] == x);
                }
                if d.contains(x) {
                    let k = choose|k: int| 0 <= k < d.len() && d[k] == x;
                    assert(d.push(s.last())[k] == x);
                }
            }
        }
    }
}

/// Filtering keeps a sequence free of duplicates.
pub proof fn lemma_filter_no_duplicates(s: Seq<Sid>, p: spec_fn(Sid) -> bool)
    requires
        s.no_duplicates(),
    ensures
        s.filter(p).no_duplicates(),
    decreases s.len(),
{
    reveal(Seq::filter);
    if s.len() > 0 {
        let init = s.drop_last();
        assert(s =~= init.push(s.last()));
        assert(init.no_duplicates());
        lemma_filter_no_duplicates(init, p);
        lemma_filter_push(init, s.last(), p);
        if p(s.last()) {
            if init.filter(p).contains(s.last()) {
                lemma_filter_has(init, p, s.last());
                let k = choose|k: int| 0 <= k < init.len() && init[k] == s.last();
                assert(s[k] == s[s.len() - 1]);
            }
        }
    }
}

/// Taking the next socket: a socket the filter keeps is added exactly when it was not kept yet.
proof fn lemma_dedup_pick_push(s: Seq<Sid>, x: Sid, p: spec_fn(Sid) -> bool)
    ensures
        spec_dedup(s.push(x)).filter(p) == (if p(x) && !spec_dedup(s).filter(p).contains(x) {
            spec_dedup(s).filter(p).push(x)
        } else {
            spec_dedup(s).filter(p)
        }),
{
    let d = spec_dedup(s);
    assert(s.push(x).drop_last() =~= s);
    assert(s.push(x).last() == x);
    if d.contains(x) {
        if p(x) {
            let k = choose|k: int| 0 <= k < d.len() && d[k] == x;
            d.lemma_filter_contains(p, k);
        }
    } else {
        lemma_filter_push(d, x, p);
        if d.filter(p).contains(x) {
            lemma_filter_has(d, p, x);
        }
    }
}

/// The sockets without `s`: each other socket once, as before.
pub proof fn lemma_without(sids: Seq<Sid>, s: Sid)
    requires
        sids.no_duplicates(),
    ensures
        without(sids, s).no_duplicates(),
        forall|x: Sid| #[trigger] without(sids, s).contains(x) <==> (sids.contains(x) && x != s),
    decreases sids.len(),
{
    reveal(Seq::filter);
    if sids.len() > 0 {
        let init = sids.drop_last();
        assert(init.no_duplicates());
        lemma_without(init, s);
        assert(sids =~= init.push(sids.last()));
        lemma_filter_push(init, sids.last(), not_sid(s));
        assert forall|x: Sid| #[trigger] without(sids, s).contains(x) <==> (sids.contains(x) && x != s) by {
            if sids.contains(x) && x != s {
                let k = choose|k: int| 0 <= k < sids.len() && sids[k] == x;
                if k < init.len() {
                    assert(init[k] == x);
                }
            }
            if without(sids, s).contains(x) && x != sids.last() {
                assert(without(init, s).contains(x));
                let k = choose|k: int| 0 <= k < init.len() && init[k] == x;
                assert(sids[k] == x);
            }
        }
        if sids.last() != s {
            assert(!init.contains(sids.last())) by {
                if init.contains(sids.last()) {
                    let k = choose|k: int| 0 <= k < init.len() && init[k] == sids.last();
                    assert(sids[k] == sids[sids.len() - 1]);
                }
            }
            assert(!without(init, s).contains(sids.last()));
        }
    }
}

// ---------------------------------------------------------------------------------------------
// Joining and leaving one room
// ---------------------------------------------------------------------------------------------

/// Joining a room: the socket is in it afterwards, the other sockets of the room stay, the other
/// rooms do not change, and the rooms stay well formed.
pub proof fn lemma_join(v: RoomsView, r: Seq<char>, s: Sid)
    requires
        rooms_wf(v),
    ensures
        rooms_wf(spec_join(v, r, s)),
        forall|x: Sid| #[trigger] members(spec_join(v, r, s), r).contains(x) <==> (members(v, r).contains(x) || x == s),
        forall|r2: Seq<char>| r2 != r ==> #[trigger] members(spec_join(v, r, s), r2) == members(v, r2),
        forall|r2: Seq<char>| #[trigger] has_room(spec_join(v, r, s), r2) <==> (has_room(v, r2) || r2 == r),
{
    let j = spec_join(v, r, s);
    if has_room(v, r) {
        let i = room_index(v, r);
        lemma_room_at(v, i);
        assert(room_names(j) =~= room_names(v).update(i, r));
        assert(room_names(v)[i] == r);
        assert(room_names(j) =~= room_names(v));
        let old_sids = v[i].1;
        if !old_sids.contains(s) {
            assert forall|a: int, b: int| 0 <= a < b < old_sids.push(s).len() implies old_sids.push(s)[a] != old_sids.push(s)[b] by {
                if b == old_sids.len() {
                    assert(old_sids[a] == old_sids.push(s)[a]);
                }
            }
        }
        assert(rooms_wf(j));
        lemma_room_at(j, i);
        assert forall|x: Sid| #[trigger] members(j, r).contains(x) <==> (members(v, r).contains(x) || x == s) by {
            if !old_sids.contains(s) {
                let ns = old_sids.push(s);
                assert(ns[old_sids.len() as int] == s);
                if old_sids.contains(x) {
                    let k = choose|k: int| 0 <= k < old_sids.len() && old_sids[k] == x;
                    assert(ns[k] == x);
                }
                if ns.contains(x) && x != s {
                    let k = choose|k: int| 0 <= k < ns.len() && ns[k] == x;
                    assert(old_sids[k] == x);
                }
            }
        }
        assert forall|r2: Seq<char>| r2 != r implies #[trigger] members(j, r2) == members(v, r2) by {
            if has_room(v, r2) {
                let k = room_index(v, r2);
                lemma_room_at(v, k);
                lemma_room_at(j, k);
            } else {
                if has_room(j, r2) {
                    let k = room_index(j, r2);
                    assert(v[k].0 == r2);
                }
            }
        }
        assert forall|r2: Seq<char>| #[trigger] has_room(j, r2) <==> (has_room(v, r2) || r2 == r) by {
            if has_room(v, r2) {
                let k = room_index(v, r2);
                assert(j[k].0 == r2);
            }
            if has_room(j, r2) {
                let k = room_index(j, r2);
                assert(v[k].0 == r2);
            }
        }
    } else {
        let n = v.len() as int;
        assert(room_names(j) =~= room_names(v).push(r));
        assert(!room_names(v).contains(r)) by {
            if room_names(v).contains(r) {
                let k = choose|k: int| 0 <= k < room_names(v).len() && room_names(v)[k] == r;
                assert(v[k].0 == r);
            }
        }
        assert forall|a: int, b: int| 0 <= a < b < room_names(j).len() implies room_names(j)[a] != room_names(j)[b] by {
            if b == n {
                assert(room_names(v)[a] == room_names(j)[a]);
            } else {
                assert(room_names(v)[a] == room_names(j)[a]);
                assert(room_names(v)[b] == room_names(j)[b]);
            }
        }
        assert(rooms_wf(j));
        lemma_room_at(j, n);
        assert forall|x: Sid| #[trigger] members(j, r).contains(x) <==> (members(v, r).contains(x) || x == s) by {
            assert(members(j, r) == seq![s]);
            assert(seq![s][0] == s);
        }
        assert forall|r2: Seq<char>| r2 != r implies #[trigger] members(j, r2) == members(v, r2) by {
            if has_room(v, r2) {
                let k = room_index(v, r2);
                lemma_room_at(v, k);
                lemma_room_at(j, k);
            } else {
                if has_room(j, r2) {
                    let k = room_index(j, r2);
                    assert(v[k].0 == r2);
                }
            }
        }
        assert forall|r2: Seq<char>| #[trigger] has_room(j, r2) <==> (has_room(v, r2) || r2 == r) by {
            if has_room(v, r2) {
                let k = room_index(v, r2);
                assert(j[k].0 == r2);
            }
            if has_room(j, r2) {
                let k = room_index(j, r2);
                if k < n {
                    assert(v[k].0 == r2);
                }
            }
        }
    }
}

/// Leaving a room: the socket is no longer in it, the other sockets of the room stay, the other
/// rooms do not change, no room disappears, and the rooms stay well formed.
pub proof fn lemma_leave(v: RoomsView, r: Seq<char>, s: Sid)
    requires
        rooms_wf(v),
    ensures
        rooms_wf(spec_leave(v, r, s)),
        forall|x: Sid| #[trigger] members(spec_leave(v, r, s), r).contains(x) <==> (members(v, r).contains(x) && x != s),
        forall|r2: Seq<char>| r2 != r ==> #[trigger] members(spec_leave(v, r, s), r2) == members(v, r2),
        forall|r2: Seq<char>| #[trigger] has_room(spec_leave(v, r, s), r2) <==> has_room(v, r2),
{
    let j = spec_leave(v, r, s);
    if has_room(v, r) {
        let i = room_index(v, r);
        lemma_room_at(v, i);
        assert(room_names(v)[i] == r);
        assert(room_names(j) =~= room_names(v));
        lemma_without(v[i].1, s);
        assert(rooms_wf(j));
        lemma_room_at(j, i);
        assert forall|r2: Seq<char>| r2 != r implies #[trigger] members(j, r2) == members(v, r2) by {
            if has_room(v, r2) {
                let k = room_index(v, r2);
                lemma_room_at(v, k);
                lemma_room_at(j, k);
            } else {
                if has_room(j, r2) {
                    let k = room_index(j, r2);
                    assert(v[k].0 == r2);
                }
            }
        }
        assert forall|r2: Seq<char>| #[trigger] has_room(j, r2) <==> has_room(v, r2) by {
            if has_room(v, r2) {
                let k = room_index(v, r2);
                assert(j[k].0 == r2);
            }
            if has_room(j, r2) {
                let k = room_index(j, r2);
                assert(v[k].0 == r2);
            }
        }
    }
}

// ---------------------------------------------------------------------------------------------
// Operations on the entries
// ---------------------------------------------------------------------------------------------

/// The position of the room `r` among the entries, if it exists.
fn find_room(rooms: &Vec<(String, Vec<Sid>)>, r: &str) -> (res: Option<usize>)
    ensures
        match res {
            Some(i) => i < rooms@.len() && entries_view(rooms@)[i as int].0 == r@,
            None => !has_room(entries_view(rooms@), r@),
        },
{
    let ghost v = entries_view(rooms@);
    let mut i: usize = 0;
    while i < rooms.len()
        invariant
            0 <= i <= rooms@.len(),
            v == entries_view(rooms@),
            forall|j: int| 0 <= j < i ==> v[j].0 != r@,
        decreases rooms@.len() - i,
    {
        if str_eq(rooms[i].0.as_str(), r) {
            return Some(i);
        }
        i = i + 1;
    }
    None
}

/// The socket ids of `v` without `s`.
fn remove_sid(v: &Vec<Sid>, s: Sid) -> (r: Vec<Sid>)
    ensures
        r@ == without(v@, s),
{
    let mut out: Vec<Sid> = Vec::new();
    let mut i: usize = 0;
    while i < v.len()
        invariant
            0 <= i <= v@.len(),
            out@ == without(v@.subrange(0, i as int), s),
        decreases v@.len() - i,
    {
        proof {
            lemma_filter_push(v@.subrange(0, i as int), v@[i as int], not_sid(s));
            assert(v@.subrange(0, i + 1) =~= v@.subrange(0, i as int).push(v@[i as int]));
        }
        if v[i] != s {
            out.push(v[i]);
        }
        i = i + 1;
    }
    assert(v@.subrange(0, v@.len() as int) =~= v@);
    out
}

/// The socket `s` joins the room `r`.
fn join_room(rooms: &mut Vec<(String, Vec<Sid>)>, r: &str, s: Sid)
    requires
        rooms_wf(entries_view(old(rooms)@)),
    ensures
        entries_view(final(rooms)@) == spec_join(entries_view(old(rooms)@), r@, s),
        rooms_wf(entries_view(final(rooms)@)),
{
    proof {
        lemma_join(entries_view(rooms@), r@, s);
    }
    let ghost v = entries_view(rooms@);
    match find_room(rooms, r) {
        Some(i) => {
            proof {
                lemma_room_at(v, i as int);
            }
            let mut entry: (String, Vec<Sid>) = (String::new(), Vec::new());
            rooms.set_and_swap(i, &mut entry);
            if !contains_sid(&entry.1, s) {
                entry.1.push(s);
            }
            rooms.set(i, entry);
            assert(entries_view(rooms@) =~= spec_join(v, r@, s));
        },
        None => {
            let mut sids: Vec<Sid> = Vec::new();
            sids.push(s);
            rooms.push((r.to_owned(), sids));
            assert(entries_view(rooms@) =~= spec_join(v, r@, s));
        },
    }
}

/// The socket `s` leaves the room `r`.
fn leave_room(rooms: &mut Vec<(String, Vec<Sid>)>, r: &str, s: Sid)
    requires
        rooms_wf(entries_view(old(rooms)@)),
    ensures
        entries_view(final(rooms)@) == spec_leave(entries_view(old(rooms)@), r@, s),
        rooms_wf(entries_view(final(rooms)@)),
{
    proof {
        lemma_leave(entries_view(rooms@), r@, s);
    }
    let ghost v = entries_view(rooms@);
    match find_room(rooms, r) {
        Some(i) => {
            proof {
                lemma_room_at(v, i as int);
            }
            let mut entry: (String, Vec<Sid>) = (String::new(), Vec::new());
            rooms.set_and_swap(i, &mut entry);
            let kept = remove_sid(&entry.1, s);
            rooms.set(i, (entry.0, kept));
            assert(entries_view(rooms@) =~= spec_leave(v, r@, s));
        },
        None => {},
    }
}

// ---------------------------------------------------------------------------------------------
// The local adapter
// ---------------------------------------------------------------------------------------------

/// An entry without the socket `s`.
pub open spec fn entry_without(s: Sid) -> spec_fn((Seq<char>, Seq<Sid>)) -> (Seq<char>, Seq<Sid>) {
    |e: (Seq<char>, Seq<Sid>)| (e.0, without(e.1, s))
}

/// The socket `s` joins each of `rooms` in turn.
fn add_rooms(entries: &mut Vec<(String, Vec<Sid>)>, s: Sid, rooms: &Vec<String>)
    requires
        rooms_wf(entries_view(old(entries)@)),
    ensures
        entries_view(final(entries)@) == spec_add_all(entries_view(old(entries)@), s, texts(rooms@)),
        rooms_wf(entries_view(final(entries)@)),
{
    let ghost v0 = entries_view(entries@);
    let mut i: usize = 0;
    while i < rooms.len()
        invariant
            0 <= i <= rooms@.len(),
            rooms_wf(entries_view(entries@)),
            entries_view(entries@) == spec_add_all(v0, s, texts(rooms@).subrange(0, i as int)),
        decreases rooms@.len() - i,
    {
        join_room(entries, rooms[i].as_str(), s);
        assert(texts(rooms@).subrange(0, i + 1).drop_last() =~= texts(rooms@).subrange(0, i as int));
        i = i + 1;
    }
    assert(texts(rooms@).subrange(0, rooms@.len() as int) =~= texts(rooms@));
}

/// The socket `s` leaves each of `rooms` in turn.
fn del_rooms(entries: &mut Vec<(String, Vec<Sid>)>, s: Sid, rooms: &Vec<String>)
    requires
        rooms_wf(entries_view(old(entries)@)),
    ensures
        entries_view(final(entries)@) == spec_del(entries_view(old(entries)@), s, texts(rooms@)),
        rooms_wf(entries_view(final(entries)@)),
{
    let ghost v0 = entries_view(entries@);
    let mut i: usize = 0;
    while i < rooms.len()
        invariant
            0 <= i <= rooms@.len(),
            rooms_wf(entries_view(entries@)),
            entries_view(entries@) == spec_del(v0, s, texts(rooms@).subrange(0, i as int)),
        decreases rooms@.len() - i,
    {
        leave_room(entries, rooms[i].as_str(), s);
        assert(texts(rooms@).subrange(0, i + 1).drop_last() =~= texts(rooms@).subrange(0, i as int));
        i = i + 1;
    }
    assert(texts(rooms@).subrange(0, rooms@.len() as int) =~= texts(rooms@));
}

/// Appends to `out` the socket ids of `add` that it does not hold yet.
fn extend_unique(out: &mut Vec<Sid>, add: &Vec<Sid>)
    requires
        old(out)@.no_duplicates(),
    ensures
        final(out)@.no_duplicates(),
        forall|x: Sid| #[trigger] final(out)@.contains(x) <==> (old(out)@.contains(x) || add@.contains(x)),
{
    let mut i: usize = 0;
    while i < add.len()
        invariant
            0 <= i <= add@.len(),
            out@.no_duplicates(),
            forall|x: Sid| #[trigger] out@.contains(x) <==> (old(out)@.contains(x) || add@.subrange(0, i as int).contains(x)),
        decreases add@.len() - i,
    {
        let x = add[i];
        let ghost before = out@;
        if !contains_sid(out, x) {
            out.push(x);
            assert forall|a: int, b: int| 0 <= a < b < out@.len() implies out@[a] != out@[b] by {
                if b == before.len() {
                    assert(before[a] == out@[a]);
                }
            }
        }
        assert forall|y: Sid| #[trigger] out@.contains(y) <==> (old(out)@.contains(y) || add@.subrange(0, i + 1).contains(y)) by {
            let pre = add@.subrange(0, i as int);
            let nxt = add@.subrange(0, i + 1);
            if pre.contains(y) {
                let k = choose|k: int| 0 <= k < pre.len() && pre[k] == y;
                assert(nxt[k] == y);
            }
            if nxt.contains(y) && y != x {
                let k = choose|k: int| 0 <= k < nxt.len() && nxt[k] == y;
                assert(pre[k] == y);
            }
            assert(nxt[i as int] == x);
            if out@.contains(y) && !before.contains(y) {
                let k = choose|k: int| 0 <= k < out@.len() && out@[k] == y;
                assert(k == before.len());
            }
            if before.contains(y) {
                let k = choose|k: int| 0 <= k < before.len() && before[k] == y;
                assert(out@[k] == y);
            }
            if y == x {
                if before.contains(x) {
                    let k = choose|k: int| 0 <= k < before.len() && before[k] == x;
                    assert(out@[k] == x);
                } else {
                    assert(out@[before.len() as int] == x);
                }
            }
        }
        i = i + 1;
    }
    assert(add@.subrange(0, add@.len() as int) =~= add@);
}

impl LocalAdapter {
    /// A local adapter with no room.
    pub fn new() -> (a: LocalAdapter)
        ensures
            a@ == Seq::<(Seq<char>, Seq<Sid>)>::empty(),
            rooms_wf(a@),
    {
        let a = LocalAdapter { rooms: Vec::new() };
        assert(a@ =~= Seq::<(Seq<char>, Seq<Sid>)>::empty());
        a
    }

    /// Returns the number of servers: one, this one.
    pub fn server_count(&self) -> (n: u16)
        ensures
            n == 1,
    {
        1
    }

    /// Closes the adapter: every room is dropped.
    pub fn close(&mut self)
        ensures
            final(self)@ == Seq::<(Seq<char>, Seq<Sid>)>::empty(),
            rooms_wf(final(self)@),
    {
        self.rooms = Vec::new();
        assert(self@ =~= Seq::<(Seq<char>, Seq<Sid>)>::empty());
        proof {
            use_type_invariant(&*self);
        }
    }

    /// Adds the socket to all the rooms.
    pub fn add_all(&mut self, sid: Sid, rooms: Vec<String>)
        ensures
            final(self)@ == spec_add_all(old(self)@, sid, texts(rooms@)),
            rooms_wf(final(self)@),
    {
        proof {
            use_type_invariant(&*self);
        }
        let mut entries: Vec<(String, Vec<Sid>)> = Vec::new();
        std::mem::swap(&mut entries, &mut self.rooms);
        add_rooms(&mut entries, sid, &rooms);
        self.rooms = entries;
        proof {
            use_type_invariant(&*self);
        }
    }

    /// Removes the socket from the rooms.
    pub fn del(&mut self, sid: Sid, rooms: Vec<String>)
        ensures
            final(self)@ == spec_del(old(self)@, sid, texts(rooms@)),
            rooms_wf(final(self)@),
    {
        proof {
            use_type_invariant(&*self);
        }
        let mut entries: Vec<(String, Vec<Sid>)> = Vec::new();
        std::mem::swap(&mut entries, &mut self.rooms);
        del_rooms(&mut entries, sid, &rooms);
        self.rooms = entries;
        proof {
            use_type_invariant(&*self);
        }
    }

    /// Removes the socket from all the rooms (the rooms stay, possibly empty).
    pub fn del_all(&mut self, sid: Sid)
        ensures
            final(self)@ == spec_del_all(old(self)@, sid),
            rooms_wf(final(self)@),
    {
        proof {
            use_type_invariant(&*self);
        }
        let ghost v = self@;
        let mut out: Vec<(String, Vec<Sid>)> = Vec::new();
        let mut i: usize = 0;
        while i < self.rooms.len()
            invariant
                0 <= i <= v.len(),
                v == entries_view(self.rooms@),
                rooms_wf(v),
                entries_view(out@) == spec_del_all(v.subrange(0, i as int), sid),
            decreases v.len() - i,
        {
            let name = self.rooms[i].0.clone();
            let kept = remove_sid(&self.rooms[i].1, sid);
            out.push((name, kept));
            proof {
                assert(v.subrange(0, i + 1) =~= v.subrange(0, i as int).push(v[i as int]));
                v.subrange(0, i as int).lemma_push_map_commute(entry_without(sid), v[i as int]);
                out@.drop_last().lemma_push_map_commute(|e: (String, Vec<Sid>)| (e.0@, e.1@), out@.last());
                assert(out@.drop_last().push(out@.last()) =~= out@);
            }
            assert(entries_view(out@) =~= spec_del_all(v.subrange(0, i + 1), sid));
            i = i + 1;
        }
        assert(v.subrange(0, v.len() as int) =~= v);
        proof {
            let w = entries_view(out@);
            assert(room_names(w) =~= room_names(v));
            assert forall|k: int| 0 <= k < w.len() implies (#[trigger] w[k]).1.no_duplicates() by {
                assert(v[k].1.no_duplicates());
                lemma_without(v[k].1, sid);
            }
        }
        self.rooms = out;
        proof {
            use_type_invariant(&*self);
        }
    }

    /// Returns the rooms of the socket, in room order.
    pub fn socket_rooms(&self, sid: Sid) -> (res: Vec<String>)
        ensures
            texts(res@) == spec_socket_rooms(self@, sid),
    {
        let ghost v = self@;
        let mut out: Vec<String> = Vec::new();
        let mut i: usize = 0;
        while i < self.rooms.len()
            invariant
                0 <= i <= v.len(),
                v == entries_view(self.rooms@),
                texts(out@) == spec_socket_rooms(v.subrange(0, i as int), sid),
            decreases v.len() - i,
        {
            let ghost pre = v.subrange(0, i as int);
            proof {
                assert(v.subrange(0, i + 1) =~= pre.push(v[i as int]));
                lemma_filter_push(pre, v[i as int], holds_sid(sid));
            }
            if contains_sid(&self.rooms[i].1, sid) {
                let name = self.rooms[i].0.clone();
                out.push(name);
                proof {
                    let f = pre.filter(holds_sid(sid));
                    f.lemma_push_map_commute(|e: (Seq<char>, Seq<Sid>)| e.0, v[i as int]);
                    out@.drop_last().lemma_push_map_commute(|s: String| s@, out@.last());
                    assert(out@.drop_last().push(out@.last()) =~= out@);
                }
            }
            assert(texts(out@) =~= spec_socket_rooms(v.subrange(0, i + 1), sid));
            i = i + 1;
        }
        assert(v.subrange(0, v.len() as int) =~= v);
        out
    }

    /// Returns all the rooms, in the order they were created.
    pub fn rooms(&self) -> (res: Vec<String>)
        ensures
            texts(res@) == room_names(self@),
    {
        let ghost v = self@;
        let mut out: Vec<String> = Vec::new();
        let mut i: usize = 0;
        while i < self.rooms.len()
            invariant
                0 <= i <= v.len(),
                v == entries_view(self.rooms@),
                texts(out@) == room_names(v.subrange(0, i as int)),
            decreases v.len() - i,
        {
            let name = self.rooms[i].0.clone();
            out.push(name);
            proof {
                assert(v.subrange(0, i + 1) =~= v.subrange(0, i as int).push(v[i as int]));
                v.subrange(0, i as int).lemma_push_map_commute(|e: (Seq<char>, Seq<Sid>)| e.0, v[i as int]);
                out@.drop_last().lemma_push_map_commute(|s: String| s@, out@.last());
                assert(out@.drop_last().push(out@.last()) =~= out@);
            }
            assert(texts(out@) =~= room_names(v.subrange(0, i + 1)));
            i = i + 1;
        }
        assert(v.subrange(0, v.len() as int) =~= v);
        out
    }

    /// Returns the sockets in the room, in the order they joined, or `None` when there is no
    /// such room.
    pub fn room_sockets(&self, room: &str) -> (res: Option<Vec<Sid>>)
        ensures
            res is Some <==> has_room(self@, room@),
            res is Some ==> res->0@ == members(self@, room@),
    {
        proof {
            use_type_invariant(self);
        }
        match find_room(&self.rooms, room) {
            Some(k) => {
                proof {
                    lemma_room_at(self@, k as int);
                }
                Some(self.rooms[k].1.clone())
            },
            None => None,
        }
    }

    /// The sockets of the excepted rooms, each once.
    fn get_except_sids(&self, except: &Vec<String>) -> (res: Vec<Sid>)
        ensures
            res@.no_duplicates(),
            forall|x: Sid| #[trigger] res@.contains(x) <==> in_rooms(self@, texts(except@), x),
    {
        proof {
            use_type_invariant(self);
        }
        let ghost v = self@;
        let ghost ex = texts(except@);
        let mut out: Vec<Sid> = Vec::new();
        let mut i: usize = 0;
        while i < except.len()
            invariant
                0 <= i <= except@.len(),
                v == entries_view(self.rooms@),
                rooms_wf(v),
                ex == texts(except@),
                out@.no_duplicates(),
                forall|x: Sid| #[trigger] out@.contains(x) <==> in_rooms(v, ex.subrange(0, i as int), x),
            decreases except@.len() - i,
        {
            let ghost before = out@;
            match find_room(&self.rooms, except[i].as_str()) {
                Some(k) => {
                    proof {
                        lemma_room_at(v, k as int);
                    }
                    extend_unique(&mut out, &self.rooms[k].1);
                },
                None => {},
            }
            assert forall|x: Sid| #[trigger] out@.contains(x) <==> in_rooms(v, ex.subrange(0, i + 1), x) by {
                let pre = ex.subrange(0, i as int);
                let nxt = ex.subrange(0, i + 1);
                assert(nxt[i as int] == ex[i as int]);
                if in_rooms(v, pre, x) {
                    let j = choose|j: int| 0 <= j < pre.len() && members(v, pre[j]).contains(x);
                    assert(nxt[j] == pre[j]);
                }
                if in_rooms(v, nxt, x) {
                    let j = choose|j: int| 0 <= j < nxt.len() && members(v, nxt[j]).contains(x);
                    if j < i {
                        assert(pre[j] == nxt[j]);
                    }
                }
            }
            i = i + 1;
        }
        assert(ex.subrange(0, except@.len() as int) =~= ex);
        out
    }
}

impl LocalAdapter {
    /// Adds to `out`, the sockets of `cand` that the options keep (each once), those of `sids`
    /// that the options keep and that it does not hold yet.
    fn pick_room_sids(
        &self,
        out: &mut Vec<Sid>,
        sids: &Vec<Sid>,
        opts: &BroadcastOptions,
        except: &Vec<Sid>,
        bcast: bool,
        ns: &Vec<Sid>,
        Ghost(cand): Ghost<Seq<Sid>>,
    )
        requires
            bcast == has_broadcast(opts@.flags),
            forall|x: Sid| #[trigger] except@.contains(x) <==> in_rooms(self@, opts@.except, x),
            old(out)@ == spec_dedup(cand).filter(room_pick(self@, opts@, ns@)),
        ensures
            final(out)@ == spec_dedup(cand + sids@).filter(room_pick(self@, opts@, ns@)),
    {
        let ghost p = room_pick(self@, opts@, ns@);
        let mut i: usize = 0;
        assert(cand + sids@.subrange(0, 0) =~= cand);
        while i < sids.len()
            invariant
                0 <= i <= sids@.len(),
                p == room_pick(self@, opts@, ns@),
                bcast == has_broadcast(opts@.flags),
                forall|x: Sid| #[trigger] except@.contains(x) <==> in_rooms(self@, opts@.except, x),
                out@ == spec_dedup(cand + sids@.subrange(0, i as int)).filter(p),
            decreases sids@.len() - i,
        {
            let x = sids[i];
            proof {
                assert(cand + sids@.subrange(0, i + 1) =~= (cand + sids@.subrange(0, i as int)).push(x));
                lemma_dedup_pick_push(cand + sids@.subrange(0, i as int), x, p);
            }
            let not_sender = match opts.sid {
                Some(y) => y != x,
                None => true,
            };
            if !contains_sid(except, x) && (!bcast || not_sender) && contains_sid(ns, x) && !contains_sid(out, x) {
                out.push(x);
            }
            i = i + 1;
        }
        assert(sids@.subrange(0, sids@.len() as int) =~= sids@);
    }

    /// Applies the given `opts` and returns the ids of the sockets that match, among the sockets
    /// `ns` of the namespace.
    pub fn apply_opts(&self, opts: &BroadcastOptions, ns: &Vec<Sid>) -> (res: Vec<Sid>)
        ensures
            res@ == spec_apply_opts(self@, opts@, ns@),
            opts@.rooms.len() > 0 || ns@.no_duplicates() ==> res@.no_duplicates(),
    {
        proof {
            use_type_invariant(self);
        }
        let ghost v = self@;
        let except = self.get_except_sids(&opts.except);
        let bcast = contains_broadcast(&opts.flags);
        let mut out: Vec<Sid> = Vec::new();
        if opts.rooms.len() > 0 {
            let ghost p = room_pick(v, opts@, ns@);
            let ghost rs = opts@.rooms;
            proof {
                assert(rs.subrange(0, 0) =~= Seq::<Seq<char>>::empty());
                assert(spec_dedup(Seq::<Sid>::empty()).filter(p) =~= Seq::<Sid>::empty()) by {
                    reveal(Seq::filter);
                }
            }
            let mut i: usize = 0;
            while i < opts.rooms.len()
                invariant
                    0 <= i <= opts.rooms@.len(),
                    v == self@,
                    v == entries_view(self.rooms@),
                    rooms_wf(v),
                    rs == opts@.rooms,
                    p == room_pick(v, opts@, ns@),
                    bcast == has_broadcast(opts@.flags),
                    forall|x: Sid| #[trigger] except@.contains(x) <==> in_rooms(v, opts@.except, x),
                    out@ == spec_dedup(room_candidates(v, rs.subrange(0, i as int))).filter(p),
                decreases opts.rooms@.len() - i,
            {
                let ghost cand = room_candidates(v, rs.subrange(0, i as int));
                assert(rs.subrange(0, i + 1).drop_last() =~= rs.subrange(0, i as int));
                assert(rs[i as int] == opts.rooms@[i as int]@);
                assert(room_candidates(v, rs.subrange(0, i + 1)) == cand + members(v, rs[i as int]));
                match find_room(&self.rooms, opts.rooms[i].as_str()) {
                    Some(k) => {
                        proof {
                            lemma_room_at(v, k as int);
                        }
                        self.pick_room_sids(&mut out, &self.rooms[k].1, opts, &except, bcast, ns, Ghost(cand));
                    },
                    None => {
                        assert(members(v, rs[i as int]) =~= Seq::<Sid>::empty());
                        assert(cand + members(v, rs[i as int]) =~= cand);
                    },
                }
                i = i + 1;
            }
            assert(rs.subrange(0, rs.len() as int) =~= rs);
        } else if bcast {
            let ghost p = ns_pick(v, opts@);
            let mut i: usize = 0;
            while i < ns.len()
                invariant
                    0 <= i <= ns@.len(),
                    p == ns_pick(v, opts@),
                    forall|x: Sid| #[trigger] except@.contains(x) <==> in_rooms(v, opts@.except, x),
                    out@ == ns@.subrange(0, i as int).filter(p),
                decreases ns@.len() - i,
            {
                let x = ns[i];
                proof {
                    assert(ns@.subrange(0, i + 1) =~= ns@.subrange(0, i as int).push(x));
                    lemma_filter_push(ns@.subrange(0, i as int), x, p);
                }
                let not_sender = match opts.sid {
                    Some(y) => y != x,
                    None => true,
                };
                if !contains_sid(&except, x) && not_sender {
                    out.push(x);
                }
                i = i + 1;
            }
            assert(ns@.subrange(0, ns@.len() as int) =~= ns@);
        } else {
            match opts.sid {
                Some(s) => {
                    if contains_sid(ns, s) {
                        out.push(s);
                    }
                },
                None => {},
            }
            assert(out@ =~= spec_apply_opts(v, opts@, ns@));
        }
        proof {
            if opts@.rooms.len() > 0 || ns@.no_duplicates() {
                lemma_apply_opts_once(v, opts@, ns@);
            }
        }
        out
    }

    /// Returns the ids of the sockets in the rooms (room after room, each once), among the sockets `ns` of
    /// the namespace.
    pub fn sockets(&self, rooms: Vec<String>, ns: &Vec<Sid>) -> (res: Vec<Sid>)
        ensures
            res@ == spec_apply_opts(
                self@,
                BroadcastOptionsView { flags: Seq::empty(), rooms: texts(rooms@), except: Seq::empty(), sid: None },
                ns@,
            ),
    {
        let mut opts = BroadcastOptions::new(None);
        opts.rooms = rooms;
        self.apply_opts(&opts, ns)
    }

    /// Adds the sockets that match the options to the rooms, socket after socket.
    pub fn add_sockets(&mut self, opts: &BroadcastOptions, rooms: Vec<String>, ns: &Vec<Sid>)
        ensures
            final(self)@ == spec_add_sockets(old(self)@, spec_apply_opts(old(self)@, opts@, ns@), texts(rooms@)),
            rooms_wf(final(self)@),
    {
        proof {
            use_type_invariant(&*self);
        }
        let sids = self.apply_opts(opts, ns);
        let ghost v0 = self@;
        let mut entries: Vec<(String, Vec<Sid>)> = Vec::new();
        std::mem::swap(&mut entries, &mut self.rooms);
        let mut i: usize = 0;
        while i < sids.len()
            invariant
                0 <= i <= sids@.len(),
                rooms_wf(entries_view(entries@)),
                entries_view(entries@) == spec_add_sockets(v0, sids@.subrange(0, i as int), texts(rooms@)),
            decreases sids@.len() - i,
        {
            add_rooms(&mut entries, sids[i], &rooms);
            assert(sids@.subrange(0, i + 1).drop_last() =~= sids@.subrange(0, i as int));
            i = i + 1;
        }
        assert(sids@.subrange(0, sids@.len() as int) =~= sids@);
        self.rooms = entries;
        proof {
            use_type_invariant(&*self);
        }
    }

    /// Removes the sockets that match the options from the rooms, socket after socket.
    pub fn del_sockets(&mut self, opts: &BroadcastOptions, rooms: Vec<String>, ns: &Vec<Sid>)
        ensures
            final(self)@ == spec_del_sockets(old(self)@, spec_apply_opts(old(self)@, opts@, ns@), texts(rooms@)),
            rooms_wf(final(self)@),
    {
        proof {
            use_type_invariant(&*self);
        }
        let sids = self.apply_opts(opts, ns);
        let ghost v0 = self@;
        let mut entries: Vec<(String, Vec<Sid>)> = Vec::new();
        std::mem::swap(&mut entries, &mut self.rooms);
        let mut i: usize = 0;
        while i < sids.len()
            invariant
                0 <= i <= sids@.len(),
                rooms_wf(entries_view(entries@)),
                entries_view(entries@) == spec_del_sockets(v0, sids@.subrange(0, i as int), texts(rooms@)),
            decreases sids@.len() - i,
        {
            del_rooms(&mut entries, sids[i], &rooms);
            assert(sids@.subrange(0, i + 1).drop_last() =~= sids@.subrange(0, i as int));
            i = i + 1;
        }
        assert(sids@.subrange(0, sids@.len() as int) =~= sids@);
        self.rooms = entries;
        proof {
            use_type_invariant(&*self);
        }
    }
}

// ---------------------------------------------------------------------------------------------
// Laws of the rooms
// ---------------------------------------------------------------------------------------------

/// Joining rooms: afterwards the socket is in each of them, the rooms it did not join are
/// unchanged, no other socket joins or leaves any room, and the rooms stay well formed.
pub proof fn lemma_add_all_joins(v: RoomsView, s: Sid, rooms: Seq<Seq<char>>)
    requires
        rooms_wf(v),
    ensures
        rooms_wf(spec_add_all(v, s, rooms)),
        forall|j: int| 0 <= j < rooms.len() ==> #[trigger] members(spec_add_all(v, s, rooms), rooms[j]).contains(s),
        forall|r: Seq<char>| !rooms.contains(r) ==> #[trigger] members(spec_add_all(v, s, rooms), r) == members(v, r),
        forall|r: Seq<char>, x: Sid|
            x != s ==> (#[trigger] members(spec_add_all(v, s, rooms), r).contains(x) <==> members(v, r).contains(x)),
    decreases rooms.len(),
{
    if rooms.len() > 0 {
        let init = rooms.drop_last();
        let r = rooms.last();
        lemma_add_all_joins(v, s, init);
        let w = spec_add_all(v, s, init);
        lemma_join(w, r, s);
        assert forall|j: int| 0 <= j < rooms.len() implies #[trigger] members(spec_add_all(v, s, rooms), rooms[j]).contains(s) by {
            if rooms[j] != r {
                assert(init[j] == rooms[j]);
            }
        }
        assert forall|r2: Seq<char>| !rooms.contains(r2) implies #[trigger] members(spec_add_all(v, s, rooms), r2) == members(v, r2) by {
            assert(rooms[rooms.len() - 1] == r);
            if init.contains(r2) {
                let k = choose|k: int| 0 <= k < init.len() && init[k] == r2;
                assert(rooms[k] == r2);
            }
        }
        assert forall|r2: Seq<char>, x: Sid| x != s implies (#[trigger] members(spec_add_all(v, s, rooms), r2).contains(x) <==> members(v, r2).contains(x)) by {
            if r2 == r {
            } else {
            }
        }
    }
}

/// Leaving rooms: afterwards the socket is in none of them, the rooms it did not leave are
/// unchanged, no other socket joins or leaves any room, no room disappears, and the rooms stay
/// well formed.
pub proof fn lemma_del_leaves(v: RoomsView, s: Sid, rooms: Seq<Seq<char>>)
    requires
        rooms_wf(v),
    ensures
        rooms_wf(spec_del(v, s, rooms)),
        forall|j: int| 0 <= j < rooms.len() ==> !(#[trigger] members(spec_del(v, s, rooms), rooms[j])).contains(s),
        forall|r: Seq<char>| !rooms.contains(r) ==> #[trigger] members(spec_del(v, s, rooms), r) == members(v, r),
        forall|r: Seq<char>, x: Sid|
            x != s ==> (#[trigger] members(spec_del(v, s, rooms), r).contains(x) <==> members(v, r).contains(x)),
        forall|r: Seq<char>| #[trigger] has_room(spec_del(v, s, rooms), r) <==> has_room(v, r),
    decreases rooms.len(),
{
    if rooms.len() > 0 {
        let init = rooms.drop_last();
        let r = rooms.last();
        lemma_del_leaves(v, s, init);
        let w = spec_del(v, s, init);
        lemma_leave(w, r, s);
        assert forall|j: int| 0 <= j < rooms.len() implies !(#[trigger] members(spec_del(v, s, rooms), rooms[j])).contains(s) by {
            if rooms[j] != r {
                assert(init[j] == rooms[j]);
            }
        }
        assert forall|r2: Seq<char>| !rooms.contains(r2) implies #[trigger] members(spec_del(v, s, rooms), r2) == members(v, r2) by {
            assert(rooms[rooms.len() - 1] == r);
            if init.contains(r2) {
                let k = choose|k: int| 0 <= k < init.len() && init[k] == r2;
                assert(rooms[k] == r2);
            }
        }
        assert forall|r2: Seq<char>, x: Sid| x != s implies (#[trigger] members(spec_del(v, s, rooms), r2).contains(x) <==> members(v, r2).contains(x)) by {
            if r2 == r {
            } else {
            }
        }
    }
}

/// Leaving every room: afterwards the socket is in no room, no other socket joins or leaves any
/// room, no room disappears, and the rooms stay well formed.
pub proof fn lemma_del_all_leaves(v: RoomsView, s: Sid)
    requires
        rooms_wf(v),
    ensures
        rooms_wf(spec_del_all(v, s)),
        forall|r: Seq<char>| !(#[trigger] members(spec_del_all(v, s), r)).contains(s),
        forall|r: Seq<char>, x: Sid|
            x != s ==> (#[trigger] members(spec_del_all(v, s), r).contains(x) <==> members(v, r).contains(x)),
        forall|r: Seq<char>| #[trigger] has_room(spec_del_all(v, s), r) <==> has_room(v, r),
{
    let w = spec_del_all(v, s);
    assert(room_names(w) =~= room_names(v));
    assert forall|k: int| 0 <= k < w.len() implies (#[trigger] w[k]).1.no_duplicates() by {
        assert(v[k].1.no_duplicates());
        lemma_without(v[k].1, s);
    }
    assert forall|r: Seq<char>| #[trigger] has_room(w, r) <==> has_room(v, r) by {
        if has_room(v, r) {
            let k = room_index(v, r);
            assert(w[k].0 == r);
        }
        if has_room(w, r) {
            let k = room_index(w, r);
            assert(v[k].0 == r);
        }
    }
    assert forall|r: Seq<char>| !(#[trigger] members(w, r)).contains(s) && (forall|x: Sid| x != s ==> (members(w, r).contains(x) <==> members(v, r).contains(x))) by {
        if has_room(v, r) {
            let k = room_index(v, r);
            lemma_room_at(v, k);
            lemma_room_at(w, k);
            lemma_without(v[k].1, s);
        }
    }
}

/// What a filter keeps was in the sequence and passes the filter.
pub proof fn lemma_filter_has<A>(s: Seq<A>, p: spec_fn(A) -> bool, x: A)
    requires
        s.filter(p).contains(x),
    ensures
        s.contains(x),
        p(x),
{
    s.filter_lemma(p);
    s.lemma_filter_contains_rev(p, x);
    let k = choose|k: int| 0 <= k < s.filter(p).len() && s.filter(p)[k] == x;
    assert(p(s.filter(p)[k]));
}

/// The rooms of a socket are the rooms that hold it, each once.
pub proof fn lemma_socket_rooms(v: RoomsView, s: Sid)
    requires
        rooms_wf(v),
    ensures
        forall|r: Seq<char>| #[trigger] spec_socket_rooms(v, s).contains(r) <==> (has_room(v, r) && members(v, r).contains(s)),
{
    let f = v.filter(holds_sid(s));
    v.filter_lemma(holds_sid(s));
    assert forall|r: Seq<char>| #[trigger] spec_socket_rooms(v, s).contains(r) <==> (has_room(v, r) && members(v, r).contains(s)) by {
        if spec_socket_rooms(v, s).contains(r) {
            let k = choose|k: int| 0 <= k < room_names(f).len() && room_names(f)[k] == r;
            assert(f[k].0 == r);
            assert(f.contains(f[k]));
            lemma_filter_has(v, holds_sid(s), f[k]);
            let i = choose|i: int| 0 <= i < v.len() && v[i] == f[k];
            lemma_room_at(v, i);
        }
        if has_room(v, r) && members(v, r).contains(s) {
            let i = room_index(v, r);
            lemma_room_at(v, i);
            assert(holds_sid(s)(v[i]));
            assert(f.contains(v[i]));
            let k = choose|k: int| 0 <= k < f.len() && f[k] == v[i];
            assert(room_names(f)[k] == r);
        }
    }
}

/// The options select each socket once: always when they name rooms, and otherwise when the
/// namespace holds each socket once.
pub proof fn lemma_apply_opts_once(v: RoomsView, opts: BroadcastOptionsView, ns: Seq<Sid>)
    requires
        opts.rooms.len() > 0 || ns.no_duplicates(),
    ensures
        spec_apply_opts(v, opts, ns).no_duplicates(),
{
    if opts.rooms.len() > 0 {
        lemma_dedup(room_candidates(v, opts.rooms));
        lemma_filter_no_duplicates(spec_dedup(room_candidates(v, opts.rooms)), room_pick(v, opts, ns));
    } else if has_broadcast(opts.flags) {
        lemma_filter_no_duplicates(ns, ns_pick(v, opts));
    }
}

/// Every socket that options select is connected to the namespace and in no excepted room; when
/// broadcasting, it is not the sender.
pub proof fn lemma_apply_opts_sound(v: RoomsView, opts: BroadcastOptionsView, ns: Seq<Sid>)
    ensures
        forall|x: Sid| #[trigger] spec_apply_opts(v, opts, ns).contains(x) ==> ns.contains(x) && !in_rooms(v, opts.except, x)
            || (opts.rooms.len() == 0 && !has_broadcast(opts.flags)),
        forall|x: Sid| #[trigger] spec_apply_opts(v, opts, ns).contains(x) ==> ns.contains(x),
        forall|x: Sid|
            #[trigger] spec_apply_opts(v, opts, ns).contains(x) && has_broadcast(opts.flags) ==> opts.sid != Some(x),
{
    assert forall|x: Sid| #[trigger] spec_apply_opts(v, opts, ns).contains(x) implies ns.contains(x)
        && (!in_rooms(v, opts.except, x) || (opts.rooms.len() == 0 && !has_broadcast(opts.flags)))
        && (has_broadcast(opts.flags) ==> opts.sid != Some(x)) by {
        if opts.rooms.len() > 0 {
            lemma_filter_has(spec_dedup(room_candidates(v, opts.rooms)), room_pick(v, opts, ns), x);
        } else if has_broadcast(opts.flags) {
            lemma_filter_has(ns, ns_pick(v, opts), x);
        } else {
            assert(spec_apply_opts(v, opts, ns)[0] == x);
        }
    }
}

/// The sockets of the rooms, room after room, are the sockets in one of them.
proof fn lemma_room_candidates_has(v: RoomsView, rooms: Seq<Seq<char>>)
    ensures
        forall|x: Sid| #[trigger] room_candidates(v, rooms).contains(x) <==> in_rooms(v, rooms, x),
    decreases rooms.len(),
{
    if rooms.len() > 0 {
        let init = rooms.drop_last();
        lemma_room_candidates_has(v, init);
        let c = room_candidates(v, init);
        let m = members(v, rooms.last());
        assert(room_candidates(v, rooms) == c + m);
        assert forall|x: Sid| #[trigger] room_candidates(v, rooms).contains(x) <==> in_rooms(v, rooms, x) by {
            if (c + m).contains(x) {
                let k = choose|k: int| 0 <= k < (c + m).len() && (c + m)[k] == x;
                if k < c.len() {
                    assert(c[k] == x);
                    assert(c.contains(x));
                    assert(in_rooms(v, init, x));
                    let j = choose|j: int| 0 <= j < init.len() && members(v, init[j]).contains(x);
                    assert(init[j] == rooms[j]);
                    assert(members(v, rooms[j]).contains(x));
                } else {
                    assert(m[k - c.len()] == x);
                    assert(rooms[rooms.len() - 1] == rooms.last());
                    assert(members(v, rooms[rooms.len() - 1]).contains(x));
                }
            }
            if in_rooms(v, rooms, x) {
                let j = choose|j: int| 0 <= j < rooms.len() && members(v, rooms[j]).contains(x);
                if j < init.len() {
                    assert(init[j] == rooms[j]);
                    assert(in_rooms(v, init, x));
                    assert(c.contains(x));
                    let k = choose|k: int| 0 <= k < c.len() && c[k] == x;
                    assert((c + m)[k] == c[k]);
                    assert((c + m).contains(x));
                } else {
                    assert(rooms[j] == rooms.last());
                    let k = choose|k: int| 0 <= k < m.len() && m[k] == x;
                    assert((c + m)[c.len() + k] == m[k]);
                    assert((c + m).contains(x));
                }
            }
        }
    }
}

/// Which sockets a broadcast reaches. With rooms named: every socket of the namespace that is in
/// one of those rooms, in none of the excepted rooms, and not the sender when broadcasting; each
/// of them once. Without rooms, with the broadcast flag: every socket of the namespace but those
/// of the excepted rooms and the sender. Otherwise the sender alone, if it is in the namespace.
pub proof fn lemma_apply_opts_reaches(v: RoomsView, opts: BroadcastOptionsView, ns: Seq<Sid>)
    ensures
        opts.rooms.len() > 0 ==> forall|x: Sid| #[trigger] spec_apply_opts(v, opts, ns).contains(x) <==> (
            in_rooms(v, opts.rooms, x) && ns.contains(x) && !in_rooms(v, opts.except, x)
                && !(has_broadcast(opts.flags) && opts.sid == Some(x))),
        opts.rooms.len() > 0 ==> spec_apply_opts(v, opts, ns).no_duplicates(),
        opts.rooms.len() == 0 && has_broadcast(opts.flags) ==> forall|x: Sid| #[trigger] spec_apply_opts(v, opts, ns).contains(x)
            <==> (ns.contains(x) && !in_rooms(v, opts.except, x) && opts.sid != Some(x)),
        opts.rooms.len() == 0 && !has_broadcast(opts.flags) ==> spec_apply_opts(v, opts, ns) == (match opts.sid {
            Some(s) => if ns.contains(s) { seq![s] } else { Seq::<Sid>::empty() },
            None => Seq::<Sid>::empty(),
        }),
{
    if opts.rooms.len() > 0 {
        let c = room_candidates(v, opts.rooms);
        let p = room_pick(v, opts, ns);
        lemma_room_candidates_has(v, opts.rooms);
        lemma_dedup(c);
        lemma_apply_opts_once(v, opts, ns);
        assert forall|x: Sid| #[trigger] spec_apply_opts(v, opts, ns).contains(x) <==> (
            in_rooms(v, opts.rooms, x) && ns.contains(x) && !in_rooms(v, opts.except, x)
                && !(has_broadcast(opts.flags) && opts.sid == Some(x))) by {
            if spec_dedup(c).filter(p).contains(x) {
                lemma_filter_has(spec_dedup(c), p, x);
            }
            if in_rooms(v, opts.rooms, x) && p(x) {
                assert(spec_dedup(c).contains(x));
                let k = choose|k: int| 0 <= k < spec_dedup(c).len() && spec_dedup(c)[k] == x;
                spec_dedup(c).lemma_filter_contains(p, k);
            }
        }
    } else if has_broadcast(opts.flags) {
        let p = ns_pick(v, opts);
        assert forall|x: Sid| #[trigger] spec_apply_opts(v, opts, ns).contains(x)
            <==> (ns.contains(x) && !in_rooms(v, opts.except, x) && opts.sid != Some(x)) by {
            if ns.filter(p).contains(x) {
                lemma_filter_has(ns, p, x);
            }
            if ns.contains(x) && p(x) {
                let k = choose|k: int| 0 <= k < ns.len() && ns[k] == x;
                ns.lemma_filter_contains(p, k);
            }
        }
    }
}

/// Making sockets join rooms: afterwards a socket is in a room exactly when it was before, or it
/// is one of the sockets and the room one of the rooms; and the rooms stay well formed.
pub proof fn lemma_add_sockets_join(v: RoomsView, sids: Seq<Sid>, rooms: Seq<Seq<char>>)
    requires
        rooms_wf(v),
    ensures
        rooms_wf(spec_add_sockets(v, sids, rooms)),
        forall|r: Seq<char>, x: Sid| #[trigger] members(spec_add_sockets(v, sids, rooms), r).contains(x)
            <==> (members(v, r).contains(x) || (sids.contains(x) && rooms.contains(r))),
    decreases sids.len(),
{
    if sids.len() > 0 {
        let init = sids.drop_last();
        let s = sids.last();
        lemma_add_sockets_join(v, init, rooms);
        let w = spec_add_sockets(v, init, rooms);
        lemma_add_all_joins(w, s, rooms);
        assert forall|r: Seq<char>, x: Sid| #[trigger] members(spec_add_sockets(v, sids, rooms), r).contains(x)
            <==> (members(v, r).contains(x) || (sids.contains(x) && rooms.contains(r))) by {
            assert(sids.contains(x) <==> (init.contains(x) || x == s)) by {
                if sids.contains(x) {
                    let k = choose|k: int| 0 <= k < sids.len() && sids[k] == x;
                    if k < init.len() {
                        assert(init[k] == x);
                    }
                }
                if init.contains(x) {
                    let k = choose|k: int| 0 <= k < init.len() && init[k] == x;
                    assert(sids[k] == x);
                }
                assert(sids[sids.len() - 1] == s);
            }
            if x == s && rooms.contains(r) {
                let j = choose|j: int| 0 <= j < rooms.len() && rooms[j] == r;
                assert(members(spec_add_all(w, s, rooms), rooms[j]).contains(s));
            }
        }
    }
}

/// Making sockets leave rooms: afterwards a socket is in a room exactly when it was before and
/// it is not one of the sockets leaving one of the rooms; and the rooms stay well formed.
pub proof fn lemma_del_sockets_leave(v: RoomsView, sids: Seq<Sid>, rooms: Seq<Seq<char>>)
    requires
        rooms_wf(v),
    ensures
        rooms_wf(spec_del_sockets(v, sids, rooms)),
        forall|r: Seq<char>, x: Sid| #[trigger] members(spec_del_sockets(v, sids, rooms), r).contains(x)
            <==> (members(v, r).contains(x) && !(sids.contains(x) && rooms.contains(r))),
    decreases sids.len(),
{
    if sids.len() > 0 {
        let init = sids.drop_last();
        let s = sids.last();
        lemma_del_sockets_leave(v, init, rooms);
        let w = spec_del_sockets(v, init, rooms);
        lemma_del_leaves(w, s, rooms);
        assert forall|r: Seq<char>, x: Sid| #[trigger] members(spec_del_sockets(v, sids, rooms), r).contains(x)
            <==> (members(v, r).contains(x) && !(sids.contains(x) && rooms.contains(r))) by {
            assert(sids.contains(x) <==> (init.contains(x) || x == s)) by {
                if sids.contains(x) {
                    let k = choose|k: int| 0 <= k < sids.len() && sids[k] == x;
                    if k < init.len() {
                        assert(init[k] == x);
                    }
                }
                if init.contains(x) {
                    let k = choose|k: int| 0 <= k < init.len() && init[k] == x;
                    assert(sids[k] == x);
                }
                assert(sids[sids.len() - 1] == s);
            }
            if x == s && rooms.contains(r) {
                let j = choose|j: int| 0 <= j < rooms.len() && rooms[j] == r;
                assert(!members(spec_del(w, s, rooms), rooms[j]).contains(s));
            }
        }
    }
}

/// The sockets a broadcast selects join the rooms: afterwards a socket is in a room exactly when
/// it was before, or the options select it and the room is one of the rooms.
pub proof fn lemma_selected_sockets_join(v: RoomsView, opts: BroadcastOptionsView, ns: Seq<Sid>, rooms: Seq<Seq<char>>)
    requires
        rooms_wf(v),
    ensures
        forall|r: Seq<char>, x: Sid|
            #[trigger] members(spec_add_sockets(v, spec_apply_opts(v, opts, ns), rooms), r).contains(x)
                <==> (members(v, r).contains(x) || (spec_apply_opts(v, opts, ns).contains(x) && rooms.contains(r))),
{
    lemma_add_sockets_join(v, spec_apply_opts(v, opts, ns), rooms);
}

/// The sockets a broadcast selects leave the rooms: afterwards a socket is in a room exactly
/// when it was before and it is not selected by the options or the room is not one of the rooms.
pub proof fn lemma_selected_sockets_leave(v: RoomsView, opts: BroadcastOptionsView, ns: Seq<Sid>, rooms: Seq<Seq<char>>)
    requires
        rooms_wf(v),
    ensures
        forall|r: Seq<char>, x: Sid|
            #[trigger] members(spec_del_sockets(v, spec_apply_opts(v, opts, ns), rooms), r).contains(x)
                <==> (members(v, r).contains(x) && !(spec_apply_opts(v, opts, ns).contains(x) && rooms.contains(r))),
{
    lemma_del_sockets_leave(v, spec_apply_opts(v, opts, ns), rooms);
}

} // verus!
