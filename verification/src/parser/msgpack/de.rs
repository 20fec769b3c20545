//! Deserialization of packets from MessagePack maps, read field by field; the data is kept as
//! the MessagePack bytes of its element.
use super::codec::{
    array_header, be_value, read_array_len, read_int_i64, read_int_usize, read_map_len, read_str_len,
    spec_read_array_len, spec_read_int, spec_read_map_len, spec_read_str_len, utf8_text, write_array_len,
};
use super::ser::{key_attachments, key_data, key_id, key_message, key_nsp, key_type};
use crate::packet::{
    bins_view, BinaryPacket, BinaryPacketView, MsgPackValue, Packet, PacketData, PacketDataView, PacketView, Value,
    ValueView,
};
use crate::parser::{DecodeFailure, ParserError};
use crate::text::str_eq;
use vstd::prelude::*;
use vstd::utf8::{decode_utf8, valid_utf8};

verus! {

/// The outcome of a decoding step.
pub enum Step<T> {
    /// Decoded, with what was read.
    Done(T),
    /// The bytes are not a valid encoding: the decoder reports an error.
    Fail,
    /// Input the decoder is not defined on: a length that runs past the end of the input, or a
    /// packet type above 6. The decoding functions that return a plain result require it absent.
    Halt,
}

// ---------------------------------------------------------------------------------------------
// Moving past one element
// ---------------------------------------------------------------------------------------------

/// Moving `n` bytes on from `p`.
pub open spec fn advance(b: Seq<u8>, p: int, n: int) -> Step<int> {
    if p + n <= b.len() {
        Step::Done(p + n)
    } else {
        Step::Halt
    }
}

/// Moving past a payload whose length is the `k`-byte big-endian integer after the marker at `p`,
/// with `e` more bytes between the length and the payload (the type byte of an extension).
pub open spec fn skip_sized(b: Seq<u8>, p: int, k: int, e: int) -> Step<int> {
    if p + 1 + k <= b.len() {
        advance(b, p + 1 + k, be_value(b.subrange(p + 1, p + 1 + k)) + e)
    } else {
        Step::Fail
    }
}

/// Moving past the element at `p`: the position after it. Markers are read whole; the payload of
/// a string, binary or extension is skipped by its length (for ext8/16/32 also the type byte
/// between the length and the payload); arrays and maps are walked element by element.
pub open spec fn skip_element(b: Seq<u8>, p: int) -> Step<int>
    decreases b.len() - p, 0int, 0int,
{
    if p < 0 || p >= b.len() {
        Step::Fail
    } else {
        let c = b[p];
        if c <= 0x7f || c >= 0xe0 || (0xc0 <= c <= 0xc3) {
            Step::Done(p + 1)
        } else if c <= 0x8f {
            skip_elements(b, p + 1, 2 * (c - 0x80))
        } else if c <= 0x9f {
            skip_elements(b, p + 1, c - 0x90)
        } else if c <= 0xbf {
            advance(b, p + 1, c - 0xa0)
        } else if c == 0xc4 || c == 0xc7 || c == 0xd9 {
            skip_sized(b, p, 1, if c == 0xc7 { 1 } else { 0 })
        } else if c == 0xc5 || c == 0xc8 || c == 0xda {
            skip_sized(b, p, 2, if c == 0xc8 { 1 } else { 0 })
        } else if c == 0xc6 || c == 0xc9 || c == 0xdb {
            skip_sized(b, p, 4, if c == 0xc9 { 1 } else { 0 })
        } else if c == 0xcc || c == 0xd0 {
            advance(b, p + 1, 1)
        } else if c == 0xcd || c == 0xd1 || c == 0xd4 {
            advance(b, p + 1, 2)
        } else if c == 0xd5 {
            advance(b, p + 1, 3)
        } else if c == 0xca || c == 0xce || c == 0xd2 {
            advance(b, p + 1, 4)
        } else if c == 0xd6 {
            advance(b, p + 1, 5)
        } else if c == 0xcb || c == 0xcf || c == 0xd3 {
            advance(b, p + 1, 8)
        } else if c == 0xd7 {
            advance(b, p + 1, 9)
        } else if c == 0xd8 {
            advance(b, p + 1, 17)
        } else if c == 0xdc || c == 0xde {
            if p + 3 <= b.len() {
                let n = be_value(b.subrange(p + 1, p + 3));
                skip_elements(b, p + 3, if c == 0xdc { n } else { 2 * n })
            } else {
                Step::Fail
            }
        } else {
            if p + 5 <= b.len() {
                let n = be_value(b.subrange(p + 1, p + 5));
                skip_elements(b, p + 5, if c == 0xdd { n } else { 2 * n })
            } else {
                Step::Fail
            }
        }
    }
}

/// Moving past `n` consecutive elements from `p`.
pub open spec fn skip_elements(b: Seq<u8>, p: int, n: int) -> Step<int>
    decreases b.len() - p, 1int, n,
{
    if n <= 0 {
        Step::Done(p)
    } else {
        match skip_element(b, p) {
            Step::Done(q) => if p < q <= b.len() {
                skip_elements(b, q, n - 1)
            } else {
                Step::Fail
            },
            Step::Fail => Step::Fail,
            Step::Halt => Step::Halt,
        }
    }
}

/// Big-endian bytes are worth at least 0.
pub proof fn lemma_be_value_nonneg(s: Seq<u8>)
    ensures
        be_value(s) >= 0,
    decreases s.len(),
{
    if s.len() > 0 {
        lemma_be_value_nonneg(s.drop_last());
    }
}

/// Moving past an element goes forward and stays within the input.
pub proof fn lemma_skip_bounds(b: Seq<u8>, p: int)
    ensures
        skip_element(b, p) matches Step::Done(q) ==> p < q <= b.len(),
    decreases b.len() - p, 0int, 0int,
{
    if 0 <= p < b.len() {
        let c = b[p];
        if c <= 0x7f || c >= 0xe0 || (0xc0 <= c <= 0xc3) {
        } else if c <= 0x8f {
            lemma_skips_bounds(b, p + 1, 2 * (c - 0x80));
        } else if c <= 0x9f {
            lemma_skips_bounds(b, p + 1, c - 0x90);
        } else if c <= 0xbf {
        } else if c == 0xc4 || c == 0xc7 || c == 0xd9 {
            lemma_be_value_nonneg(b.subrange(p + 1, p + 2));
        } else if c == 0xc5 || c == 0xc8 || c == 0xda {
            lemma_be_value_nonneg(b.subrange(p + 1, p + 3));
        } else if c == 0xc6 || c == 0xc9 || c == 0xdb {
            lemma_be_value_nonneg(b.subrange(p + 1, p + 5));
        } else if c == 0xdc || c == 0xde {
            if p + 3 <= b.len() {
                let n = be_value(b.subrange(p + 1, p + 3));
                lemma_skips_bounds(b, p + 3, if c == 0xdc { n } else { 2 * n });
            }
        } else if c == 0xdd || c == 0xdf {
            if p + 5 <= b.len() {
                let n = be_value(b.subrange(p + 1, p + 5));
                lemma_skips_bounds(b, p + 5, if c == 0xdd { n } else { 2 * n });
            }
        }
    }
}

/// Moving past consecutive elements does not go back and stays within the input.
pub proof fn lemma_skips_bounds(b: Seq<u8>, p: int, n: int)
    requires
        0 <= p <= b.len(),
    ensures
        skip_elements(b, p, n) matches Step::Done(q) ==> p <= q <= b.len(),
    decreases b.len() - p, 1int, n,
{
    if n > 0 {
        lemma_skip_bounds(b, p);
        if let Step::Done(q) = skip_element(b, p) {
            if p < q <= b.len() {
                lemma_skips_bounds(b, q, n - 1);
            }
        }
    }
}

/// The positions of a step.
pub open spec fn step_pos(r: Step<usize>) -> Step<int> {
    match r {
        Step::Done(q) => Step::Done(q as int),
        Step::Fail => Step::Fail,
        Step::Halt => Step::Halt,
    }
}

/// The big-endian u16 at `q`.
fn be_u16(b: &[u8], q: usize) -> (v: u32)
    requires
        q + 2 <= b@.len(),
    ensures
        v == be_value(b@.subrange(q as int, q + 2)),
{
    let ghost s = b@.subrange(q as int, q + 2);
    assert(s.drop_last().drop_last() =~= Seq::<u8>::empty());
    assert(s.drop_last().last() == b@[q as int]);
    reveal_with_fuel(be_value, 3);
    (b[q] as u32) * 256 + (b[q + 1] as u32)
}

/// The big-endian u32 at `q`.
fn be_u32(b: &[u8], q: usize) -> (v: u32)
    requires
        q + 4 <= b@.len(),
    ensures
        v == be_value(b@.subrange(q as int, q + 4)),
{
    let ghost s = b@.subrange(q as int, q + 4);
    assert(s.drop_last().drop_last().drop_last().drop_last() =~= Seq::<u8>::empty());
    assert(s.drop_last().drop_last().drop_last().last() == b@[q as int]);
    assert(s.drop_last().drop_last().last() == b@[q + 1]);
    assert(s.drop_last().last() == b@[q + 2]);
    reveal_with_fuel(be_value, 5);
    let hi = (b[q] as u32) * 256 + (b[q + 1] as u32);
    let mid = hi * 256 + (b[q + 2] as u32);
    mid * 256 + (b[q + 3] as u32)
}

/// Moving `n` bytes on from `p`.
fn advance_by(b: &[u8], p: usize, n: usize) -> (r: Step<usize>)
    requires
        p <= b@.len(),
    ensures
        step_pos(r) == advance(b@, p as int, n as int),
{
    if n <= b.len() - p {
        Step::Done(p + n)
    } else {
        Step::Halt
    }
}

/// Moving past a payload whose length is the `k`-byte big-endian integer after the marker at `p`,
/// with `e` more bytes between the length and the payload.
fn skip_sized_by(b: &[u8], p: usize, k: usize, e: usize) -> (r: Step<usize>)
    requires
        p < b@.len(),
        k == 1 || k == 2 || k == 4,
        e <= 1,
    ensures
        step_pos(r) == skip_sized(b@, p as int, k as int, e as int),
{
    if k > b.len() - p - 1 {
        return Step::Fail;
    }
    let n: usize = if k == 1 {
        let ghost s = b@.subrange(p + 1, p + 2);
        assert(s.drop_last() =~= Seq::<u8>::empty());
        reveal_with_fuel(be_value, 2);
        b[p + 1] as usize
    } else if k == 2 {
        be_u16(b, p + 1) as usize
    } else {
        be_u32(b, p + 1) as usize
    };
    match advance_by(b, p + 1 + k, n) {
        Step::Done(q) => advance_by(b, q, e),
        other => other,
    }
}

/// Iterate over the next element: the position after the element at `p`.
pub(crate) fn walk_element(b: &[u8], p: usize) -> (r: Step<usize>)
    requires
        p <= b@.len(),
    ensures
        step_pos(r) == skip_element(b@, p as int),
    decreases b@.len() - p, 0int, 0int,
{
    if p >= b.len() {
        return Step::Fail;
    }
    let c = b[p];
    if c <= 0x7f || c >= 0xe0 || (0xc0 <= c && c <= 0xc3) {
        Step::Done(p + 1)
    } else if c <= 0x8f {
        walk_elements(b, p + 1, 2 * ((c - 0x80) as u64))
    } else if c <= 0x9f {
        walk_elements(b, p + 1, (c - 0x90) as u64)
    } else if c <= 0xbf {
        advance_by(b, p + 1, (c - 0xa0) as usize)
    } else if c == 0xc4 || c == 0xc7 || c == 0xd9 {
        skip_sized_by(b, p, 1, if c == 0xc7 { 1 } else { 0 })
    } else if c == 0xc5 || c == 0xc8 || c == 0xda {
        skip_sized_by(b, p, 2, if c == 0xc8 { 1 } else { 0 })
    } else if c == 0xc6 || c == 0xc9 || c == 0xdb {
        skip_sized_by(b, p, 4, if c == 0xc9 { 1 } else { 0 })
    } else if c == 0xcc || c == 0xd0 {
        advance_by(b, p + 1, 1)
    } else if c == 0xcd || c == 0xd1 || c == 0xd4 {
        advance_by(b, p + 1, 2)
    } else if c == 0xd5 {
        advance_by(b, p + 1, 3)
    } else if c == 0xca || c == 0xce || c == 0xd2 {
        advance_by(b, p + 1, 4)
    } else if c == 0xd6 {
        advance_by(b, p + 1, 5)
    } else if c == 0xcb || c == 0xcf || c == 0xd3 {
        advance_by(b, p + 1, 8)
    } else if c == 0xd7 {
        advance_by(b, p + 1, 9)
    } else if c == 0xd8 {
        advance_by(b, p + 1, 17)
    } else if c == 0xdc || c == 0xde {
        if b.len() - p < 3 {
            return Step::Fail;
        }
        let n = be_u16(b, p + 1) as u64;
        walk_elements(b, p + 3, if c == 0xdc { n } else { 2 * n })
    } else {
        if b.len() - p < 5 {
            return Step::Fail;
        }
        let n = be_u32(b, p + 1) as u64;
        walk_elements(b, p + 5, if c == 0xdd { n } else { 2 * n })
    }
}

/// Iterate over `n` consecutive elements from `p`.
fn walk_elements(b: &[u8], p: usize, n: u64) -> (r: Step<usize>)
    requires
        p <= b@.len(),
    ensures
        step_pos(r) == skip_elements(b@, p as int, n as int),
    decreases b@.len() - p, 1int, n,
{
    let mut cur = p;
    let mut i: u64 = 0;
    while i < n
        invariant
            p <= cur <= b@.len(),
            i <= n,
            skip_elements(b@, p as int, n as int) == skip_elements(b@, cur as int, n - i),
        decreases n - i,
    {
        let r = walk_element(b, cur);
        proof {
            lemma_skip_bounds(b@, cur as int);
        }
        match r {
            Step::Done(q) => {
                cur = q;
                i = i + 1;
            },
            Step::Fail => {
                return Step::Fail;
            },
            Step::Halt => {
                return Step::Halt;
            },
        }
    }
    Step::Done(cur)
}

/// Iterate over the next element: the position after the element at `pos`, or an error when the
/// input ends before a marker or a length.
pub fn move_to_next_element(b: &[u8], pos: usize) -> (res: Result<usize, ParserError>)
    requires
        pos <= b@.len(),
        !(skip_element(b@, pos as int) is Halt),
    ensures
        skip_element(b@, pos as int) matches Step::Done(q) ==> res == Ok::<usize, ParserError>(q as usize),
        skip_element(b@, pos as int) is Fail ==> res matches Err(ParserError::MsgPackDecode(DecodeFailure::Malformed)),
{
    match walk_element(b, pos) {
        Step::Done(q) => Ok(q),
        _ => Err(ParserError::MsgPackDecode(DecodeFailure::Malformed)),
    }
}

// ---------------------------------------------------------------------------------------------
// The entries of a packet map
// ---------------------------------------------------------------------------------------------

/// A string at `p`: its text and the position after it. A length past the end of the input
/// halts; bytes that are not UTF-8 fail.
pub open spec fn spec_read_str(b: Seq<u8>, p: int) -> Step<(Seq<char>, int)> {
    match spec_read_str_len(b, p) {
        None => Step::Fail,
        Some((n, h)) => if h + n > b.len() {
            Step::Halt
        } else if valid_utf8(b.subrange(h, h + n)) {
            Step::Done((decode_utf8(b.subrange(h, h + n)), h + n))
        } else {
            Step::Fail
        },
    }
}

/// What the decoder has gathered from the entries read so far.
pub struct Fields {
    /// The packet type (`0xff` until a `type` entry is read).
    pub index: usize,
    /// The namespace.
    pub nsp: Seq<char>,
    /// Where the data element starts and ends (empty until a `data` entry is read).
    pub data: (int, int),
    /// The ack id.
    pub id: Option<i64>,
    /// The number of binary attachments of the data.
    pub attachments: usize,
}

/// The fields before any entry is read.
pub open spec fn init_fields() -> Fields {
    Fields { index: 0xff, nsp: Seq::<char>::empty(), data: (0, 0), id: None, attachments: 0 }
}

/// One entry at `p`: a string key, then for `type`, `nsp`, `data`, `id` and `attachments` its
/// value. A key the decoder does not know is read alone, its value is not skipped.
pub open spec fn spec_key_value(b: Seq<u8>, p: int, f: Fields) -> Step<(Fields, int)> {
    match spec_read_str(b, p) {
        Step::Fail => Step::Fail,
        Step::Halt => Step::Halt,
        Step::Done((key, q)) => if key == key_type() {
            match spec_read_int(b, q) {
                Some((v, r)) => if 0 <= v <= usize::MAX {
                    Step::Done((Fields { index: v as usize, ..f }, r))
                } else {
                    Step::Fail
                },
                None => Step::Fail,
            }
        } else if key == key_nsp() {
            match spec_read_str(b, q) {
                Step::Done((ns, r)) => Step::Done((Fields { nsp: ns, ..f }, r)),
                Step::Fail => Step::Fail,
                Step::Halt => Step::Halt,
            }
        } else if key == key_data() {
            match skip_element(b, q) {
                Step::Done(r) => Step::Done((Fields { data: (q, r), ..f }, r)),
                Step::Fail => Step::Fail,
                Step::Halt => Step::Halt,
            }
        } else if key == key_id() {
            match spec_read_int(b, q) {
                Some((v, r)) => if i64::MIN <= v <= i64::MAX {
                    Step::Done((Fields { id: Some(v as i64), ..f }, r))
                } else {
                    Step::Fail
                },
                None => Step::Fail,
            }
        } else if key == key_attachments() {
            match spec_read_int(b, q) {
                Some((v, r)) => if 0 <= v <= usize::MAX {
                    Step::Done((Fields { attachments: v as usize, ..f }, r))
                } else {
                    Step::Fail
                },
                None => Step::Fail,
            }
        } else {
            Step::Done((f, q))
        },
    }
}

/// `n` consecutive entries from `p`.
pub open spec fn spec_key_values(b: Seq<u8>, p: int, n: int, f: Fields) -> Step<(Fields, int)>
    decreases n,
{
    if n <= 0 {
        Step::Done((f, p))
    } else {
        match spec_key_value(b, p, f) {
            Step::Done((g, q)) => spec_key_values(b, q, n - 1, g),
            Step::Fail => Step::Fail,
            Step::Halt => Step::Halt,
        }
    }
}

/// The event data `[event, ...data]` of an event packet: the event name, and the rest of the
/// array under a new header.
pub open spec fn spec_read_data_event(d: Seq<u8>) -> Step<(Seq<char>, Seq<u8>)> {
    match spec_read_array_len(d, 0) {
        None => Step::Fail,
        Some((n, h)) => if n == 0 {
            Step::Fail
        } else {
            match spec_read_str_len(d, h) {
                None => Step::Fail,
                Some((l, s)) => if s + l > d.len() {
                    Step::Halt
                } else if !valid_utf8(d.subrange(s, s + l)) {
                    Step::Fail
                } else {
                    Step::Done((decode_utf8(d.subrange(s, s + l)), array_header(n - 1) + d.subrange(s + l, d.len() as int)))
                },
            }
        },
    }
}

/// One entry of a connect error map at `p`: a string key; for `message` a string value (given
/// once), for another key a value skipped. What was found so far, and the position after it.
pub open spec fn spec_message_entry(d: Seq<u8>, p: int, found: Option<Seq<char>>) -> Option<(Option<Seq<char>>, int)> {
    match spec_read_str(d, p) {
        Step::Done((key, q)) => if key == key_message() {
            if found is Some {
                None
            } else {
                match spec_read_str(d, q) {
                    Step::Done((m, r)) => Some((Some(m), r)),
                    _ => None,
                }
            }
        } else {
            match skip_element(d, q) {
                Step::Done(r) => Some((found, r)),
                _ => None,
            }
        },
        _ => None,
    }
}

/// The `message` of `n` entries of a connect error map from `p`.
pub open spec fn spec_message_entries(d: Seq<u8>, p: int, n: int, found: Option<Seq<char>>) -> Option<Seq<char>>
    decreases n,
{
    if n <= 0 {
        found
    } else {
        match spec_message_entry(d, p, found) {
            Some((g, r)) => spec_message_entries(d, r, n - 1, g),
            None => None,
        }
    }
}

/// The message of a connect error: the map `{message: <string>}`.
pub open spec fn spec_error_message(d: Seq<u8>) -> Option<Seq<char>> {
    match spec_read_map_len(d, 0) {
        Some((n, h)) => spec_message_entries(d, h, n, None),
        None => None,
    }
}

/// A binary packet that expects no attachments.
pub open spec fn no_bins(data: ValueView) -> BinaryPacketView {
    BinaryPacketView { data, bin: Seq::<Seq<u8>>::empty(), payload_count: 0 }
}

/// The packet that the fields read from `b` describe.
pub open spec fn spec_packet_of(b: Seq<u8>, f: Fields) -> Step<PacketView> {
    let d = b.subrange(f.data.0, f.data.1);
    let v = ValueView::MsgPack(d, f.attachments);
    let inner: Step<PacketDataView> = if f.index == 0 {
        Step::Done(PacketDataView::Connect(if f.data.0 >= f.data.1 { None } else { Some(v) }))
    } else if f.index == 1 {
        Step::Done(PacketDataView::Disconnect)
    } else if f.index == 2 {
        match spec_read_data_event(d) {
            Step::Done((e, dd)) => Step::Done(PacketDataView::Event(e, ValueView::MsgPack(dd, f.attachments), f.id)),
            Step::Fail => Step::Fail,
            Step::Halt => Step::Halt,
        }
    } else if f.index == 3 {
        match f.id {
            Some(i) => Step::Done(PacketDataView::EventAck(v, i)),
            None => Step::Fail,
        }
    } else if f.index == 4 {
        match spec_error_message(d) {
            Some(m) => Step::Done(PacketDataView::ConnectError(m)),
            None => Step::Fail,
        }
    } else if f.index == 5 {
        match spec_read_data_event(d) {
            Step::Done((e, dd)) => Step::Done(
                PacketDataView::BinaryEvent(e, no_bins(ValueView::MsgPack(dd, f.attachments)), f.id),
            ),
            Step::Fail => Step::Fail,
            Step::Halt => Step::Halt,
        }
    } else if f.index == 6 {
        match f.id {
            Some(i) => Step::Done(PacketDataView::BinaryAck(no_bins(v), i)),
            None => Step::Fail,
        }
    } else {
        Step::Halt
    };
    match inner {
        Step::Done(i) => Step::Done(PacketView { inner: i, ns: f.nsp }),
        Step::Fail => Step::Fail,
        Step::Halt => Step::Halt,
    }
}

/// A packet read from a MessagePack map of 1 to 20 entries.
pub open spec fn spec_decode(b: Seq<u8>) -> Step<PacketView> {
    match spec_read_map_len(b, 0) {
        None => Step::Fail,
        Some((n, h)) => if n == 0 || n > 20 {
            Step::Fail
        } else {
            match spec_key_values(b, h, n, init_fields()) {
                Step::Done((f, _)) => spec_packet_of(b, f),
                Step::Fail => Step::Fail,
                Step::Halt => Step::Halt,
            }
        },
    }
}

/// Why [`spec_decode`] fails on bytes where it fails: a map of no entry or of more than 20 (with
/// that number), an ack or binary ack without id, and otherwise bytes that are not what is read.
pub open spec fn spec_decode_failure(b: Seq<u8>) -> DecodeFailure {
    match spec_read_map_len(b, 0) {
        None => DecodeFailure::Malformed,
        Some((n, h)) => if n == 0 || n > 20 {
            DecodeFailure::PacketLength(n as u32)
        } else {
            match spec_key_values(b, h, n, init_fields()) {
                Step::Done((f, _)) => if (f.index == 3 || f.index == 6) && f.id is None {
                    DecodeFailure::AckIdMissing
                } else {
                    DecodeFailure::Malformed
                },
                _ => DecodeFailure::Malformed,
            }
        },
    }
}

// ---------------------------------------------------------------------------------------------
// Reading the entries
// ---------------------------------------------------------------------------------------------

/// The text and position of a string step.
pub open spec fn step_str(r: Step<(&str, usize)>) -> Step<(Seq<char>, int)> {
    match r {
        Step::Done((s, q)) => Step::Done((s@, q as int)),
        Step::Fail => Step::Fail,
        Step::Halt => Step::Halt,
    }
}

/// Read a str slice at `p` and the position after it.
fn read_str(b: &[u8], p: usize) -> (r: Step<(&str, usize)>)
    requires
        p <= b@.len(),
    ensures
        step_str(r) == spec_read_str(b@, p as int),
        r matches Step::Done((_, q)) ==> q <= b@.len(),
{
    match read_str_len(b, p) {
        None => Step::Fail,
        Some((n, left)) => {
            let h = b.len() - left;
            if (n as usize) > left {
                Step::Halt
            } else {
                let end = h + n as usize;
                match utf8_text(b, h, end) {
                    Some(s) => Step::Done((s, end)),
                    None => Step::Fail,
                }
            }
        },
    }
}

/// The fields gathered while reading the entries of a packet map.
struct RawFields {
    index: usize,
    nsp: String,
    data_start: usize,
    data_end: usize,
    id: Option<i64>,
    attachments: usize,
}

impl View for RawFields {
    type V = Fields;

    closed spec fn view(&self) -> Fields {
        Fields {
            index: self.index,
            nsp: self.nsp@,
            data: (self.data_start as int, self.data_end as int),
            id: self.id,
            attachments: self.attachments,
        }
    }
}

/// The fields and position of an entry step.
spec fn step_kv(r: Step<usize>, f: Fields) -> Step<(Fields, int)> {
    match r {
        Step::Done(q) => Step::Done((f, q as int)),
        Step::Fail => Step::Fail,
        Step::Halt => Step::Halt,
    }
}

/// Reads the entry at `p` into the fields.
fn parse_key_value(b: &[u8], p: usize, f: &mut RawFields) -> (r: Step<usize>)
    requires
        p <= b@.len(),
        old(f).data_start <= old(f).data_end <= b@.len(),
    ensures
        step_kv(r, final(f)@) == spec_key_value(b@, p as int, old(f)@),
        r matches Step::Done(q) ==> q <= b@.len(),
        final(f).data_start <= final(f).data_end <= b@.len(),
{
    proof {
        reveal_strlit("type");
        reveal_strlit("nsp");
        reveal_strlit("data");
        reveal_strlit("id");
        reveal_strlit("attachments");
    }
    assert("type"@ =~= key_type());
    assert("nsp"@ =~= key_nsp());
    assert("data"@ =~= key_data());
    assert("id"@ =~= key_id());
    assert("attachments"@ =~= key_attachments());
    let ghost f0 = f@;
    match read_str(b, p) {
        Step::Fail => Step::Fail,
        Step::Halt => Step::Halt,
        Step::Done((key, q)) => {
            if str_eq(key, "type") {
                match read_int_usize(b, q) {
                    Some((v, left)) => {
                        f.index = v;
                        Step::Done(b.len() - left)
                    },
                    None => Step::Fail,
                }
            } else if str_eq(key, "nsp") {
                match read_str(b, q) {
                    Step::Done((ns, r)) => {
                        f.nsp = ns.to_owned();
                        Step::Done(r)
                    },
                    Step::Fail => Step::Fail,
                    Step::Halt => Step::Halt,
                }
            } else if str_eq(key, "data") {
                let r = walk_element(b, q);
                proof {
                    lemma_skip_bounds(b@, q as int);
                }
                match r {
                    Step::Done(e) => {
                        f.data_start = q;
                        f.data_end = e;
                        Step::Done(e)
                    },
                    Step::Fail => Step::Fail,
                    Step::Halt => Step::Halt,
                }
            } else if str_eq(key, "id") {
                match read_int_i64(b, q) {
                    Some((v, left)) => {
                        f.id = Some(v);
                        Step::Done(b.len() - left)
                    },
                    None => Step::Fail,
                }
            } else if str_eq(key, "attachments") {
                match read_int_usize(b, q) {
                    Some((v, left)) => {
                        f.attachments = v;
                        Step::Done(b.len() - left)
                    },
                    None => Step::Fail,
                }
            } else {
                Step::Done(q)
            }
        },
    }
}

/// The event name and data of an event step.
pub open spec fn step_event(r: Step<(String, Vec<u8>)>) -> Step<(Seq<char>, Seq<u8>)> {
    match r {
        Step::Done((e, d)) => Step::Done((e@, d@)),
        Step::Fail => Step::Fail,
        Step::Halt => Step::Halt,
    }
}

/// Parse the data field for event types: `[event, ...data]`: the event name, and the rest of the
/// array under a new header.
fn read_data_event(d: &[u8]) -> (r: Step<(String, Vec<u8>)>)
    ensures
        step_event(r) == spec_read_data_event(d@),
{
    match read_array_len(d, 0) {
        None => Step::Fail,
        Some((n, left)) => {
            if n == 0 {
                return Step::Fail;
            }
            let h = d.len() - left;
            match read_str_len(d, h) {
                None => Step::Fail,
                Some((l, left2)) => {
                    let s = d.len() - left2;
                    if (l as usize) > left2 {
                        return Step::Halt;
                    }
                    let end = s + l as usize;
                    match utf8_text(d, s, end) {
                        None => Step::Fail,
                        Some(t) => {
                            let mut data: Vec<u8> = Vec::new();
                            write_array_len(&mut data, n - 1);
                            super::ser::push_bytes(&mut data, d, end, d.len());
                            Step::Done((t.to_owned(), data))
                        },
                    }
                },
            }
        },
    }
}

/// The optional text of an optional string.
spec fn opt_text(m: Option<String>) -> Option<Seq<char>> {
    match m {
        Some(s) => Some(s@),
        None => None,
    }
}

/// Reads one entry of a connect error map at `p`.
fn message_entry(d: &[u8], p: usize, found: Option<String>) -> (r: Option<(Option<String>, usize)>)
    requires
        p <= d@.len(),
    ensures
        match r {
            Some((g, q)) => spec_message_entry(d@, p as int, opt_text(found)) == Some((opt_text(g), q as int))
                && q <= d@.len(),
            None => spec_message_entry(d@, p as int, opt_text(found)) is None,
        },
{
    proof {
        reveal_strlit("message");
    }
    assert("message"@ =~= key_message());
    match read_str(d, p) {
        Step::Done((key, q)) => {
            if str_eq(key, "message") {
                if found.is_some() {
                    return None;
                }
                match read_str(d, q) {
                    Step::Done((m, r)) => Some((Some(m.to_owned()), r)),
                    _ => None,
                }
            } else {
                let w = walk_element(d, q);
                proof {
                    lemma_skip_bounds(d@, q as int);
                }
                match w {
                    Step::Done(r) => Some((found, r)),
                    _ => None,
                }
            }
        },
        _ => None,
    }
}

/// The message of a connect error: the map `{message: <string>}`.
fn error_message(d: &[u8]) -> (r: Option<String>)
    ensures
        opt_text(r) == spec_error_message(d@),
{
    match read_map_len(d, 0) {
        None => None,
        Some((n, left)) => {
            let ghost h = d@.len() - left;
            let mut pos = d.len() - left;
            let mut found: Option<String> = None;
            let mut i: u32 = 0;
            while i < n
                invariant
                    pos <= d@.len(),
                    i <= n,
                    spec_read_map_len(d@, 0) == Some((n as int, h)),
                    spec_message_entries(d@, h, n as int, None) == spec_message_entries(
                        d@,
                        pos as int,
                        n - i,
                        opt_text(found),
                    ),
                decreases n - i,
            {
                match message_entry(d, pos, found) {
                    Some((g, q)) => {
                        found = g;
                        pos = q;
                    },
                    None => {
                        return None;
                    },
                }
                i = i + 1;
            }
            found
        },
    }
}

/// The packet of a packet step.
pub open spec fn step_packet(r: Step<Packet>) -> Step<PacketView> {
    match r {
        Step::Done(p) => Step::Done(p@),
        Step::Fail => Step::Fail,
        Step::Halt => Step::Halt,
    }
}

/// A binary packet of a value, expecting no attachments.
fn no_bins_packet(data: Value) -> (p: BinaryPacket)
    ensures
        p@ == no_bins(data@),
{
    let p = BinaryPacket { data, bin: Vec::new(), payload_count: 0 };
    assert(bins_view(p.bin@) =~= Seq::<Seq<u8>>::empty());
    p
}

/// The packet that the fields read from `b` describe.
fn packet_of(b: &[u8], f: RawFields) -> (r: Step<Packet>)
    requires
        f.data_start <= f.data_end <= b@.len(),
    ensures
        step_packet(r) == spec_packet_of(b@, f@),
{
    let ghost fv = f@;
    let d = vstd::slice::slice_subrange(b, f.data_start, f.data_end);
    let RawFields { index, nsp, data_start, data_end, id, attachments } = f;
    if index == 0 {
        let v = if data_start >= data_end {
            None
        } else {
            Some(Value::MsgPack(MsgPackValue { data: vstd::slice::slice_to_vec(d), attachments }))
        };
        Step::Done(Packet { inner: PacketData::Connect(v), ns: nsp })
    } else if index == 1 {
        Step::Done(Packet { inner: PacketData::Disconnect, ns: nsp })
    } else if index == 2 || index == 5 {
        match read_data_event(d) {
            Step::Done((e, dd)) => {
                let v = Value::MsgPack(MsgPackValue { data: dd, attachments });
                if index == 2 {
                    Step::Done(Packet { inner: PacketData::Event(e, v, id), ns: nsp })
                } else {
                    Step::Done(Packet { inner: PacketData::BinaryEvent(e, no_bins_packet(v), id), ns: nsp })
                }
            },
            Step::Fail => Step::Fail,
            Step::Halt => Step::Halt,
        }
    } else if index == 3 || index == 6 {
        match id {
            Some(i) => {
                let v = Value::MsgPack(MsgPackValue { data: vstd::slice::slice_to_vec(d), attachments });
                if index == 3 {
                    Step::Done(Packet { inner: PacketData::EventAck(v, i), ns: nsp })
                } else {
                    Step::Done(Packet { inner: PacketData::BinaryAck(no_bins_packet(v), i), ns: nsp })
                }
            },
            None => Step::Fail,
        }
    } else if index == 4 {
        match error_message(d) {
            Some(m) => Step::Done(Packet { inner: PacketData::ConnectError(m), ns: nsp }),
            None => Step::Fail,
        }
    } else {
        Step::Halt
    }
}

/// Decodes a packet: a MessagePack map of 1 to 20 entries.
fn decode_packet(b: &[u8], why: &mut DecodeFailure) -> (r: Step<Packet>)
    ensures
        step_packet(r) == spec_decode(b@),
        r is Fail ==> *final(why) == spec_decode_failure(b@),
{
    match read_map_len(b, 0) {
        None => {
            *why = DecodeFailure::Malformed;
            Step::Fail
        },
        Some((n, left)) => {
            if n == 0 || n > 20 {
                *why = DecodeFailure::PacketLength(n);
                return Step::Fail;
            }
            let ghost h = b@.len() - left;
            let mut f = RawFields {
                index: 0xff,
                nsp: String::new(),
                data_start: 0,
                data_end: 0,
                id: None,
                attachments: 0,
            };
            assert(f@ == init_fields());
            let mut pos = b.len() - left;
            let mut i: u32 = 0;
            while i < n
                invariant
                    pos <= b@.len(),
                    f.data_start <= f.data_end <= b@.len(),
                    i <= n,
                    0 < n <= 20,
                    spec_read_map_len(b@, 0) == Some((n as int, h)),
                    spec_key_values(b@, h, n as int, init_fields()) == spec_key_values(
                        b@,
                        pos as int,
                        n - i,
                        f@,
                    ),
                decreases n - i,
            {
                match parse_key_value(b, pos, &mut f) {
                    Step::Done(q) => {
                        pos = q;
                    },
                    Step::Fail => {
                        *why = DecodeFailure::Malformed;
                        return Step::Fail;
                    },
                    Step::Halt => {
                        return Step::Halt;
                    },
                }
                i = i + 1;
            }
            if (f.index == 3 || f.index == 6) && f.id.is_none() {
                *why = DecodeFailure::AckIdMissing;
            } else {
                *why = DecodeFailure::Malformed;
            }
            packet_of(b, f)
        },
    }
}

/// Decodes a packet from a MessagePack map of 1 to 20 entries, as [`spec_decode`] reads it:
/// the packet, or an error, with its reason, where the bytes are not such a packet.
pub fn deserialize_packet(buff: &[u8]) -> (res: Result<Packet, ParserError>)
    requires
        !(spec_decode(buff@) is Halt),
    ensures
        spec_decode(buff@) matches Step::Done(p) ==> res matches Ok(q) && q@ == p,
        spec_decode(buff@) is Fail ==> (res matches Err(ParserError::MsgPackDecode(w)) && w == spec_decode_failure(buff@)),
{
    let mut why = DecodeFailure::Malformed;
    match decode_packet(buff, &mut why) {
        Step::Done(p) => Ok(p),
        _ => Err(ParserError::MsgPackDecode(why)),
    }
}

/// Decodes a packet from a MessagePack map, or `None` on the input that [`deserialize_packet`]
/// requires absent (a length past the end of the input, or a packet type above 6).
pub fn try_deserialize_packet(buff: &[u8]) -> (res: Option<Result<Packet, ParserError>>)
    ensures
        res is None <==> spec_decode(buff@) is Halt,
        spec_decode(buff@) matches Step::Done(p) ==> res matches Some(Ok(q)) && q@ == p,
        spec_decode(buff@) is Fail ==> (res matches Some(Err(ParserError::MsgPackDecode(w))) && w == spec_decode_failure(buff@)),
{
    let mut why = DecodeFailure::Malformed;
    match decode_packet(buff, &mut why) {
        Step::Done(p) => Some(Ok(p)),
        Step::Fail => Some(Err(ParserError::MsgPackDecode(why))),
        Step::Halt => None,
    }
}

} // verus!
