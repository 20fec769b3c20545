//! Parse and serialize from and into the socket.io common packet format.
//!
//! The resulting string is in the format of:
//! ```text
//! <packet type>[<# of binary attachments>-][<namespace>,][<acknowledgment id>][JSON-stringified payload without binary]
//! + binary attachments extracted
//! ```
use super::text_laws::{canonical_ns, lemma_event_reads_back};
use super::{ErrorKind, ParserError, TransportPayload};
use crate::json::{json_parse, json_quote, spec_json_parse, spec_json_quote, JsonShape, JsonShapeView, JsonView};
use crate::packet::{
    bins_view, spec_index, spec_is_binary, spec_is_complete, BinaryPacket, BinaryPacketView, Packet,
    PacketData, PacketDataView, PacketView, Value, ValueView,
};
use crate::text::{
    is_digit_byte, lemma_ascii_is_boundary, lemma_boundary_after_ascii, str_slice,
    digit_char, format_int, lemma_decimal_bytes, lemma_encode_ascii, lemma_encode_concat, lemma_log10_bound,
    spec_decimal, spec_log10, spec_pow10, starts_with_char, str_drop_first_ascii, str_drop_last_ascii,
    str_eq,
};
use vstd::prelude::*;
use vstd::string::StringSliceAdditionalSpecFns;
use vstd::utf8::{decode_utf8, encode_utf8, is_char_boundary, valid_utf8};

verus! {

// ---------------------------------------------------------------------------------------------
// Serialization: the text of a packet
// ---------------------------------------------------------------------------------------------

/// The namespace part of a packet text: empty for the root namespace (`/` or empty), otherwise
/// the namespace with a leading `/` added when missing, followed by `,`.
pub open spec fn ns_part(ns: Seq<char>) -> Seq<char> {
    if ns.len() > 0 && ns != seq!['/'] {
        (if ns[0] != '/' { seq!['/'] } else { Seq::<char>::empty() }) + ns + seq![',']
    } else {
        Seq::<char>::empty()
    }
}

/// Whether a canonical JSON text is an array.
pub open spec fn is_json_array(d: Seq<char>) -> bool {
    d.len() > 0 && d[0] == '['
}

/// The canonical text of the empty array.
pub open spec fn empty_array() -> Seq<char> {
    seq!['[', ']']
}

/// The canonical text of `null`.
pub open spec fn null_text() -> Seq<char> {
    seq!['n', 'u', 'l', 'l']
}

/// A JSON text that, when it starts an array, also closes it: what every canonical JSON text is.
pub open spec fn json_text_wf(d: Seq<char>) -> bool {
    is_json_array(d) ==> d.len() >= 2 && d.last() == ']'
}

/// The array text `["<event>", ...data]` of an event: the elements of `data` when it is an array,
/// `data` itself otherwise.
pub open spec fn spec_event_payload(e: Seq<char>, d: Seq<char>) -> Seq<char> {
    let head = seq!['['] + spec_json_quote(e) + seq![','];
    if is_json_array(d) && d != empty_array() {
        head + d.drop_first()
    } else if is_json_array(d) {
        head + seq!['[', ']', ']']
    } else {
        head + d + seq![']']
    }
}

/// The array text of an acknowledgement: `data` when it is an array, `[]` for `null`, `[data]`
/// otherwise.
pub open spec fn spec_ack_payload(d: Seq<char>) -> Seq<char> {
    if is_json_array(d) {
        d
    } else if d == null_text() {
        empty_array()
    } else {
        seq!['['] + d + seq![']']
    }
}

/// The placeholder object `{"_placeholder":true,"num":<i>}` that stands for the i-th binary
/// attachment in the JSON text.
pub open spec fn spec_placeholder(i: nat) -> Seq<char> {
    seq!['{', '"', '_', 'p', 'l', 'a', 'c', 'e', 'h', 'o', 'l', 'd', 'e', 'r', '"', ':', 't', 'r', 'u', 'e', ',', '"', 'n', 'u', 'm', '"', ':']
        + spec_decimal(i as int) + seq!['}']
}

/// An array text with one more element at its end.
pub open spec fn spec_array_push(arr: Seq<char>, item: Seq<char>) -> Seq<char> {
    if arr == empty_array() {
        seq!['['] + item + seq![']']
    } else {
        arr.drop_last() + seq![','] + item + seq![']']
    }
}

/// An array text with the placeholders of attachments `0..n` appended.
pub open spec fn spec_with_placeholders(base: Seq<char>, n: nat) -> Seq<char>
    decreases n,
{
    if n == 0 {
        base
    } else {
        spec_array_push(spec_with_placeholders(base, (n - 1) as nat), spec_placeholder((n - 1) as nat))
    }
}

/// The JSON data of an outgoing binary packet: an array (a non-array value is wrapped in one)
/// followed by one placeholder per attachment.
pub open spec fn spec_outgoing(d: Seq<char>, n: nat) -> Seq<char> {
    spec_with_placeholders(
        if is_json_array(d) { d } else { seq!['['] + d + seq![']'] },
        n,
    )
}

/// The JSON text of a value (empty for a MessagePack value, which this format cannot carry).
pub open spec fn json_of(v: ValueView) -> Seq<char> {
    match v {
        ValueView::Json(t) => t,
        ValueView::MsgPack(..) => Seq::<char>::empty(),
    }
}

/// The decimal text of an optional ack id.
pub open spec fn opt_ack_text(a: Option<i64>) -> Seq<char> {
    match a {
        Some(x) => spec_decimal(x as int),
        None => Seq::<char>::empty(),
    }
}

/// The text of a packet in the common format.
pub open spec fn spec_serialize_text(p: PacketView) -> Seq<char> {
    let head = seq![digit_char(spec_index(p.inner) as int)];
    let nsp = ns_part(p.ns);
    match p.inner {
        PacketDataView::Connect(Some(v)) => head + nsp + json_of(v),
        PacketDataView::Connect(None) => head + nsp,
        PacketDataView::Disconnect => head + nsp,
        PacketDataView::Event(e, v, ack) => head + nsp + opt_ack_text(ack) + spec_event_payload(e, json_of(v)),
        PacketDataView::EventAck(v, ack) => head + nsp + spec_decimal(ack as int) + spec_ack_payload(json_of(v)),
        PacketDataView::ConnectError(s) => head + nsp + s,
        PacketDataView::BinaryEvent(e, b, ack) => head + spec_decimal(b.payload_count as int) + seq!['-'] + nsp
            + opt_ack_text(ack) + spec_event_payload(e, spec_outgoing(json_of(b.data), b.payload_count as nat)),
        PacketDataView::BinaryAck(b, ack) => head + spec_decimal(b.payload_count as int) + seq!['-'] + nsp
            + spec_decimal(ack as int) + spec_ack_payload(spec_outgoing(json_of(b.data), b.payload_count as nat)),
    }
}

/// The binary attachments sent after the text of a packet.
pub open spec fn spec_serialize_bins(p: PacketView) -> Seq<Seq<u8>> {
    match p.inner {
        PacketDataView::BinaryEvent(_, b, _) => b.bin,
        PacketDataView::BinaryAck(b, _) => b.bin,
        _ => Seq::<Seq<u8>>::empty(),
    }
}

/// The packets this format can carry: every payload is JSON (and well formed).
pub open spec fn spec_serializable(p: PacketView) -> bool {
    match p.inner {
        PacketDataView::Connect(Some(v)) => v is Json,
        PacketDataView::Event(_, v, _) => v is Json,
        PacketDataView::EventAck(v, _) => v is Json,
        PacketDataView::BinaryEvent(_, b, _) => b.data is Json && json_text_wf(json_of(b.data)),
        PacketDataView::BinaryAck(b, _) => b.data is Json && json_text_wf(json_of(b.data)),
        _ => true,
    }
}

fn push_index(res: &mut String, idx: usize)
    requires
        idx <= 6,
    ensures
        final(res)@ == old(res)@ + seq![digit_char(idx as int)],
{
    proof {
        reveal_strlit("0");
        reveal_strlit("1");
        reveal_strlit("2");
        reveal_strlit("3");
        reveal_strlit("4");
        reveal_strlit("5");
        reveal_strlit("6");
    }
    if idx == 0 {
        res.append("0");
    } else if idx == 1 {
        res.append("1");
    } else if idx == 2 {
        res.append("2");
    } else if idx == 3 {
        res.append("3");
    } else if idx == 4 {
        res.append("4");
    } else if idx == 5 {
        res.append("5");
    } else {
        res.append("6");
    }
}

fn push_ns_part(res: &mut String, ns: &str)
    ensures
        final(res)@ == old(res)@ + ns_part(ns@),
{
    proof {
        reveal_strlit("/");
        reveal_strlit(",");
    }
    assert("/"@ =~= seq!['/']);
    assert(","@ =~= seq![',']);
    if !ns.is_empty() && !str_eq(ns, "/") {
        if !starts_with_char(ns, '/') {
            res.append("/");
        }
        res.append(ns);
        res.append(",");
        assert(res@ =~= old(res)@ + ns_part(ns@));
    } else {
        assert(res@ =~= old(res)@ + ns_part(ns@));
    }
}

fn push_decimal(res: &mut String, n: i128)
    ensures
        final(res)@ == old(res)@ + spec_decimal(n as int),
{
    let t = format_int(n);
    res.append(t.as_str());
}

fn is_array_text(d: &str) -> (b: bool)
    ensures
        b == is_json_array(d@),
{
    starts_with_char(d, '[')
}

/// The elements of the array a JSON text reads as (none when it reads as something else).
pub open spec fn json_items(d: Seq<char>) -> Seq<Seq<char>> {
    match spec_json_parse(d) {
        Some(j) => match j.shape {
            JsonShapeView::Array(items) => items,
            _ => Seq::empty(),
        },
        None => Seq::empty(),
    }
}

/// Whether a text is the canonical JSON text of an array with at least one element: it opens
/// with `[`, is longer than `[]`, and reads back as itself, an array of elements.
pub open spec fn nonempty_json_array(d: Seq<char>) -> bool {
    &&& d.len() > 2
    &&& d[0] == '['
    &&& spec_json_parse(d) == Some(JsonView { text: d, shape: JsonShapeView::Array(json_items(d)) })
    &&& json_items(d).len() > 0
}

/// The array text of an event with its payload. The event name's literal reads back as the name,
/// and the text of an event whose data is a non-empty canonical array reads back as the array of
/// that literal followed by the data's elements.
fn event_payload(e: &str, d: &str) -> (r: String)
    ensures
        r@ == spec_event_payload(e@, d@),
        spec_json_parse(spec_json_quote(e@)) == Some(JsonView { text: spec_json_quote(e@), shape: JsonShapeView::Str(e@) }),
        nonempty_json_array(d@) ==> spec_json_parse(r@) == Some(
            JsonView { text: r@, shape: JsonShapeView::Array(seq![spec_json_quote(e@)] + json_items(d@)) },
        ),
        nonempty_json_array(d@) ==> r@ == spec_array_text(seq![spec_json_quote(e@)] + json_items(d@)),
{
    proof {
        reveal_strlit("[");
        reveal_strlit(",");
        reveal_strlit("]");
        reveal_strlit("[]");
        reveal_strlit("[]]");
    }
    assert("["@ =~= seq!['[']);
    assert(","@ =~= seq![',']);
    assert("]"@ =~= seq![']']);
    assert("[]"@ =~= empty_array());
    assert("[]]"@ =~= seq!['[', ']', ']']);
    let q = json_quote(e);
    let mut r = String::new();
    r.append("[");
    r.append(q.as_str());
    r.append(",");
    let arr = is_array_text(d);
    if arr && !str_eq(d, "[]") {
        r.append(str_drop_first_ascii(d));
    } else if arr {
        r.append("[]]");
    } else {
        r.append(d);
        r.append("]");
    }
    assert(r@ =~= spec_event_payload(e@, d@));
    proof {
        if nonempty_json_array(d@) {
            let items = json_items(d@);
            assert(spec_json_parse(d@) == Some(JsonView { text: d@, shape: JsonShapeView::Array(items) }));
            assert(spec_array_text(seq![q@] + items) == spec_array_text(seq![q@] + items));
            assert(d@ != empty_array());
            assert(r@ =~= seq!['['] + q@ + seq![','] + d@.drop_first());
        }
    }
    r
}

/// The array text of an acknowledgement with its payload.
fn ack_payload(d: &str) -> (r: String)
    ensures
        r@ == spec_ack_payload(d@),
{
    proof {
        reveal_strlit("[");
        reveal_strlit("]");
        reveal_strlit("[]");
        reveal_strlit("null");
    }
    assert("["@ =~= seq!['[']);
    assert("]"@ =~= seq![']']);
    assert("[]"@ =~= empty_array());
    assert("null"@ =~= null_text());
    let mut r = String::new();
    if is_array_text(d) {
        r.append(d);
    } else if str_eq(d, "null") {
        r.append("[]");
    } else {
        r.append("[");
        r.append(d);
        r.append("]");
    }
    assert(r@ =~= spec_ack_payload(d@));
    r
}

pub(crate) fn placeholder(i: usize) -> (r: String)
    ensures
        r@ == spec_placeholder(i as nat),
{
    proof {
        reveal_strlit("{\"_placeholder\":true,\"num\":");
        reveal_strlit("}");
    }
    let mut r = String::new();
    r.append("{\"_placeholder\":true,\"num\":");
    push_decimal(&mut r, i as i128);
    r.append("}");
    assert(r@ =~= spec_placeholder(i as nat));
    r
}

/// Whether a text opens with `[` and closes with `]`.
pub open spec fn closed_array(t: Seq<char>) -> bool {
    t.len() >= 2 && t[0] == '[' && t.last() == ']'
}

fn array_push(arr: &str, item: &str) -> (r: String)
    requires
        closed_array(arr@),
    ensures
        r@ == spec_array_push(arr@, item@),
        closed_array(r@),
{
    proof {
        reveal_strlit("[");
        reveal_strlit(",");
        reveal_strlit("]");
        reveal_strlit("[]");
    }
    assert("["@ =~= seq!['[']);
    assert(","@ =~= seq![',']);
    assert("]"@ =~= seq![']']);
    assert("[]"@ =~= empty_array());
    let mut r = String::new();
    if str_eq(arr, "[]") {
        r.append("[");
        r.append(item);
        r.append("]");
    } else {
        r.append(str_drop_last_ascii(arr));
        r.append(",");
        r.append(item);
        r.append("]");
    }
    assert(r@ =~= spec_array_push(arr@, item@));
    r
}

/// The JSON data of an outgoing binary packet with `n` attachments.
fn outgoing(d: &str, n: usize) -> (r: String)
    requires
        json_text_wf(d@),
    ensures
        r@ == spec_outgoing(d@, n as nat),
{
    proof {
        reveal_strlit("[");
        reveal_strlit("]");
    }
    let mut base = String::new();
    if is_array_text(d) {
        base.append(d);
    } else {
        base.append("[");
        base.append(d);
        base.append("]");
    }
    let ghost start = base@;
    assert(start =~= (if is_json_array(d@) { d@ } else { seq!['['] + d@ + seq![']'] }));
    let mut i: usize = 0;
    while i < n
        invariant
            i <= n,
            base@ == spec_with_placeholders(start, i as nat),
            closed_array(base@),
        decreases n - i,
    {
        let p = placeholder(i);
        base = array_push(base.as_str(), p.as_str());
        i = i + 1;
    }
    base
}


// ---------------------------------------------------------------------------------------------
// Parsing: a packet from its text
// ---------------------------------------------------------------------------------------------

/// The first index at or after `from` that holds the byte `x` (the length when there is none).
pub open spec fn find_byte(b: Seq<u8>, from: int, x: u8) -> int
    decreases b.len() - from,
{
    if from < 0 || from >= b.len() {
        b.len() as int
    } else if b[from] == x {
        from
    } else {
        find_byte(b, from + 1, x)
    }
}

/// The first index at or after `from` that does not hold an ASCII digit (the length when there
/// is none).
pub open spec fn skip_digits(b: Seq<u8>, from: int) -> int
    decreases b.len() - from,
{
    if from < 0 || from >= b.len() {
        b.len() as int
    } else if is_digit_byte(b[from]) {
        skip_digits(b, from + 1)
    } else {
        from
    }
}

/// The value of a sequence of ASCII digits.
pub open spec fn spec_digits_value(d: Seq<u8>) -> int
    decreases d.len(),
{
    if d.len() == 0 {
        0
    } else {
        spec_digits_value(d.drop_last()) * 10 + (d.last() - 48)
    }
}

/// The elements of an array joined with commas.
pub open spec fn spec_join(items: Seq<Seq<char>>) -> Seq<char>
    decreases items.len(),
{
    if items.len() == 0 {
        Seq::<char>::empty()
    } else if items.len() == 1 {
        items[0]
    } else {
        spec_join(items.drop_last()) + seq![','] + items.last()
    }
}

/// The canonical text of an array with the given canonical element texts.
pub open spec fn spec_array_text(items: Seq<Seq<char>>) -> Seq<char> {
    seq!['['] + spec_join(items) + seq![']']
}

/// The key of a placeholder object.
pub open spec fn placeholder_key() -> Seq<char> {
    seq!['_', 'p', 'l', 'a', 'c', 'e', 'h', 'o', 'l', 'd', 'e', 'r']
}

/// Whether a JSON text is an object with a `_placeholder` key.
pub open spec fn spec_is_placeholder(t: Seq<char>) -> bool {
    match spec_json_parse(t) {
        Some(j) => match j.shape {
            JsonShapeView::Object(keys) => keys.contains(placeholder_key()),
            _ => false,
        },
        None => false,
    }
}

/// The elements that are not placeholders, in order.
pub open spec fn spec_keep(items: Seq<Seq<char>>) -> Seq<Seq<char>>
    decreases items.len(),
{
    if items.len() == 0 {
        Seq::<Seq<char>>::empty()
    } else if spec_is_placeholder(items.last()) {
        spec_keep(items.drop_last())
    } else {
        spec_keep(items.drop_last()).push(items.last())
    }
}

/// The JSON data of an incoming binary packet and the number of attachments it announces: the
/// top-level placeholders are counted and taken out of an array; a lone placeholder becomes `[]`.
pub open spec fn spec_incoming(d: Seq<char>) -> (Seq<char>, nat) {
    match spec_json_parse(d) {
        Some(j) => match j.shape {
            JsonShapeView::Array(items) => (
                spec_array_text(spec_keep(items)),
                (items.len() - spec_keep(items).len()) as nat,
            ),
            _ => if spec_is_placeholder(d) { (empty_array(), 1nat) } else { (d, 0nat) },
        },
        None => (d, 0nat),
    }
}

/// The event name and the payload (the other elements) of the array text of an event.
pub open spec fn spec_deserialize_event(data: Seq<char>) -> Result<(Seq<char>, Seq<char>), ErrorKind> {
    match spec_json_parse(data) {
        None => Err(ErrorKind::Serialize),
        Some(j) => match j.shape {
            JsonShapeView::Array(items) => if items.len() == 0 {
                Err(ErrorKind::InvalidEventName)
            } else {
                match spec_json_parse(items[0]) {
                    Some(f) => match f.shape {
                        JsonShapeView::Str(name) => Ok((name, spec_array_text(items.drop_first()))),
                        _ => Err(ErrorKind::InvalidEventName),
                    },
                    None => Err(ErrorKind::InvalidEventName),
                }
            },
            _ => Err(ErrorKind::InvalidEventName),
        },
    }
}

/// The JSON value of a payload text, absent when the text is empty.
pub open spec fn spec_deserialize_packet(data: Seq<char>) -> Result<Option<Seq<char>>, ErrorKind> {
    if data.len() == 0 {
        Ok(None)
    } else {
        match spec_json_parse(data) {
            None => Err(ErrorKind::Serialize),
            Some(j) => Ok(Some(j.text)),
        }
    }
}

/// A binary packet received with the given JSON data: no attachment yet, as many expected as the
/// data announces.
pub open spec fn spec_incoming_packet(d: Seq<char>) -> BinaryPacketView {
    BinaryPacketView {
        data: ValueView::Json(spec_incoming(d).0),
        bin: Seq::<Seq<u8>>::empty(),
        payload_count: spec_incoming(d).1 as usize,
    }
}

/// The packet data of a text, given its type byte, its payload text and its ack id.
pub open spec fn spec_parse_inner(c0: u8, data: Seq<char>, ack: Option<i64>) -> Result<PacketDataView, ErrorKind> {
    if c0 == 48 {
        if data.len() == 0 {
            Ok(PacketDataView::Connect(None))
        } else {
            match spec_json_parse(data) {
                None => Err(ErrorKind::Serialize),
                Some(j) => Ok(PacketDataView::Connect(Some(ValueView::Json(j.text)))),
            }
        }
    } else if c0 == 49 {
        Ok(PacketDataView::Disconnect)
    } else if c0 == 50 {
        match spec_deserialize_event(data) {
            Ok((e, p)) => Ok(PacketDataView::Event(e, ValueView::Json(p), ack)),
            Err(k) => Err(k),
        }
    } else if c0 == 51 {
        match spec_deserialize_packet(data) {
            Err(k) => Err(k),
            Ok(None) => Err(ErrorKind::InvalidPacketType),
            Ok(Some(v)) => match ack {
                None => Err(ErrorKind::InvalidPacketType),
                Some(a) => Ok(PacketDataView::EventAck(ValueView::Json(v), a)),
            },
        }
    } else if c0 == 53 {
        match spec_deserialize_event(data) {
            Ok((e, p)) => Ok(PacketDataView::BinaryEvent(e, spec_incoming_packet(p), ack)),
            Err(k) => Err(k),
        }
    } else if c0 == 54 {
        match spec_deserialize_packet(data) {
            Err(k) => Err(k),
            Ok(None) => Err(ErrorKind::InvalidPacketType),
            Ok(Some(v)) => match ack {
                None => Err(ErrorKind::InvalidPacketType),
                Some(a) => Ok(PacketDataView::BinaryAck(spec_incoming_packet(v), a)),
            },
        }
    } else {
        Err(ErrorKind::InvalidPacketType)
    }
}

/// Where the namespace starts: after the attachment count of a binary packet, else after the
/// type byte.
pub open spec fn spec_ns_start(b: Seq<u8>) -> int {
    if b[0] == 53 || b[0] == 54 {
        find_byte(b, 1, 45) + 1
    } else {
        1
    }
}

/// Where the namespace ends (exclusive) and where what follows it starts.
pub open spec fn spec_ns_end(b: Seq<u8>) -> (int, int) {
    let i1 = spec_ns_start(b);
    if i1 < b.len() && b[i1] == 47 {
        let j = find_byte(b, i1, 44);
        if j < b.len() { (j, j + 1) } else { (j, j) }
    } else {
        (i1, i1)
    }
}

/// The namespace of a packet text.
pub open spec fn spec_parse_ns(b: Seq<u8>) -> Seq<char> {
    let i1 = spec_ns_start(b);
    if i1 < b.len() && b[i1] == 47 {
        decode_utf8(b.subrange(i1, spec_ns_end(b).0))
    } else {
        seq!['/']
    }
}

/// The ack id of a packet text: digits followed by `[` or `{`, when they fit in an `i64`.
pub open spec fn spec_parse_ack(b: Seq<u8>) -> Option<i64> {
    let i2 = spec_ns_end(b).1;
    let j = skip_digits(b, i2);
    if j > i2 && j < b.len() && (b[j] == 91 || b[j] == 123) && spec_digits_value(b.subrange(i2, j)) <= i64::MAX {
        Some(spec_digits_value(b.subrange(i2, j)) as i64)
    } else {
        None
    }
}

/// The payload text of a packet text.
pub open spec fn spec_parse_data(b: Seq<u8>) -> Seq<char> {
    decode_utf8(b.subrange(skip_digits(b, spec_ns_end(b).1), b.len() as int))
}

/// The texts the parser accepts without looping forever or indexing out of bounds: nonempty, and
/// with a `-` after the type byte of a binary packet.
pub open spec fn spec_parse_terminates(b: Seq<u8>) -> bool {
    b.len() > 0 && ((b[0] == 53 || b[0] == 54) ==> find_byte(b, 1, 45) < b.len())
}

/// The packet a text holds, in the common format (of the UTF-8 bytes of the text).
pub open spec fn spec_parse_str(b: Seq<u8>) -> Result<PacketView, ErrorKind> {
    if !(48 <= b[0] <= 54) {
        Err(ErrorKind::InvalidPacketType)
    } else {
        match spec_parse_inner(b[0], spec_parse_data(b), spec_parse_ack(b)) {
            Ok(inner) => Ok(PacketView { inner, ns: spec_parse_ns(b) }),
            Err(k) => Err(k),
        }
    }
}

/// `skip_digits` stops after a run of digits.
pub proof fn lemma_skip_digits(b: Seq<u8>, from: int)
    requires
        0 <= from <= b.len(),
    ensures
        from <= skip_digits(b, from) <= b.len(),
        forall|k: int| from <= k < skip_digits(b, from) ==> is_digit_byte(#[trigger] b[k]),
        skip_digits(b, from) < b.len() ==> !is_digit_byte(b[skip_digits(b, from)]),
    decreases b.len() - from,
{
    if from < b.len() && is_digit_byte(b[from]) {
        lemma_skip_digits(b, from + 1);
    }
}

/// `find_byte` finds the first occurrence.
pub proof fn lemma_find_byte(b: Seq<u8>, from: int, x: u8)
    requires
        0 <= from <= b.len(),
    ensures
        from <= find_byte(b, from, x) <= b.len(),
        find_byte(b, from, x) < b.len() ==> b[find_byte(b, from, x)] == x,
        forall|k: int| from <= k < find_byte(b, from, x) ==> #[trigger] b[k] != x,
    decreases b.len() - from,
{
    if from < b.len() && b[from] != x {
        lemma_find_byte(b, from + 1, x);
    }
}

/// A longer run of digits is worth at least as much as its prefix.
pub proof fn lemma_digits_value_monotonic(d: Seq<u8>, m: int)
    requires
        0 <= m <= d.len(),
        forall|k: int| 0 <= k < d.len() ==> is_digit_byte(#[trigger] d[k]),
    ensures
        spec_digits_value(d) >= spec_digits_value(d.subrange(0, m)) >= 0,
    decreases d.len(),
{
    if d.len() == 0 {
        assert(d.subrange(0, m) =~= d);
    } else if m == d.len() {
        assert(d.subrange(0, m) =~= d);
        lemma_digits_value_monotonic(d.drop_last(), m - 1);
    } else {
        lemma_digits_value_monotonic(d.drop_last(), m);
        assert(d.drop_last().subrange(0, m) =~= d.subrange(0, m));
        let v = spec_digits_value(d.drop_last());
        assert(v * 10 >= v) by (nonlinear_arith)
            requires v >= 0;
    }
}

/// The value of the digits `b[start..end]`, when it fits in an `i64`.
fn parse_digits(chars: &[u8], start: usize, end: usize) -> (res: Option<i64>)
    requires
        start <= end <= chars@.len(),
        forall|k: int| start <= k < end ==> is_digit_byte(#[trigger] chars@[k]),
    ensures
        res == (if spec_digits_value(chars@.subrange(start as int, end as int)) <= i64::MAX {
            Some(spec_digits_value(chars@.subrange(start as int, end as int)) as i64)
        } else {
            None::<i64>
        }),
{
    let ghost b = chars@;
    let mut v: i64 = 0;
    let mut k = start;
    assert(b.subrange(start as int, start as int) =~= Seq::<u8>::empty());
    while k < end
        invariant
            start <= k <= end <= b.len(),
            b == chars@,
            forall|x: int| start <= x < end ==> is_digit_byte(#[trigger] b[x]),
            v as int == spec_digits_value(b.subrange(start as int, k as int)),
            v >= 0,
        decreases end - k,
    {
        let d = (chars[k] - 48) as i64;
        let ghost next = b.subrange(start as int, k + 1);
        assert(next.drop_last() =~= b.subrange(start as int, k as int));
        assert(spec_digits_value(next) == v * 10 + d);
        if v > (i64::MAX - d) / 10 {
            proof {
                assert(v * 10 + d > i64::MAX) by (nonlinear_arith)
                    requires v > (i64::MAX - d) / 10, 0 <= d <= 9;
                let whole = b.subrange(start as int, end as int);
                assert(whole.subrange(0, k + 1 - start) =~= next);
                lemma_digits_value_monotonic(whole, k + 1 - start);
            }
            return None;
        }
        assert(v * 10 + d <= i64::MAX) by (nonlinear_arith)
            requires v <= (i64::MAX - d) / 10, 0 <= d <= 9;
        v = v * 10 + d;
        k = k + 1;
    }
    Some(v)
}

/// The canonical text of the array made of `items[from..]`.
fn array_text_from(items: &Vec<String>, from: usize) -> (r: String)
    requires
        from <= items.len(),
    ensures
        r@ == spec_array_text(items.deep_view().subrange(from as int, items.len() as int)),
{
    proof {
        reveal_strlit("[");
        reveal_strlit(",");
        reveal_strlit("]");
    }
    assert("["@ =~= seq!['[']);
    assert(","@ =~= seq![',']);
    assert("]"@ =~= seq![']']);
    let ghost dv = items.deep_view();
    let mut r = String::new();
    r.append("[");
    let mut k = from;
    assert(dv.subrange(from as int, from as int) =~= Seq::<Seq<char>>::empty());
    while k < items.len()
        invariant
            from <= k <= items.len(),
            dv == items.deep_view(),
            r@ == seq!['['] + spec_join(dv.subrange(from as int, k as int)),
            ","@ == seq![','],
        decreases items.len() - k,
    {
        let ghost sub = dv.subrange(from as int, k + 1);
        assert(sub.drop_last() =~= dv.subrange(from as int, k as int));
        assert(sub.last() == items[k as int]@);
        if k == from {
            assert(sub.len() == 1);
            assert(spec_join(sub) == sub[0]);
            let ghost before = r@;
            r.append(items[k].as_str());
            assert(r@ == before + items[k as int]@);
            assert(r@ =~= seq!['['] + spec_join(sub));
        } else {
            assert(sub.len() > 1);
            assert(spec_join(sub) == spec_join(sub.drop_last()) + seq![','] + sub.last());
            let ghost before = r@;
            r.append(",");
            r.append(items[k].as_str());
            assert(r@ == before + seq![','] + items[k as int]@);
            assert(r@ =~= seq!['['] + spec_join(sub));
        }
        k = k + 1;
    }
    r.append("]");
    assert(r@ =~= spec_array_text(dv.subrange(from as int, items.len() as int)));
    r
}

/// Whether a list of strings holds the given one.
fn contains_str(keys: &Vec<String>, key: &str) -> (b: bool)
    ensures
        b == keys.deep_view().contains(key@),
{
    let ghost dv = keys.deep_view();
    let mut k: usize = 0;
    while k < keys.len()
        invariant
            k <= keys.len(),
            dv == keys.deep_view(),
            forall|x: int| 0 <= x < k ==> dv[x] != key@,
        decreases keys.len() - k,
    {
        if str_eq(keys[k].as_str(), key) {
            assert(dv[k as int] == key@);
            return true;
        }
        k = k + 1;
    }
    false
}

/// Whether a JSON text is an object with a `_placeholder` key.
fn is_placeholder(t: &str) -> (b: bool)
    ensures
        b == spec_is_placeholder(t@),
{
    proof {
        reveal_strlit("_placeholder");
    }
    assert("_placeholder"@ =~= placeholder_key());
    match json_parse(t) {
        Ok(p) => match p.shape {
            JsonShape::Object(keys) => contains_str(&keys, "_placeholder"),
            _ => false,
        },
        Err(_) => false,
    }
}

/// The data and attachment count of an incoming binary packet.
fn incoming(d: String) -> (r: (String, usize))
    ensures
        r.0@ == spec_incoming(d@).0,
        r.1 as nat == spec_incoming(d@).1,
{
    proof {
        reveal_strlit("[]");
    }
    assert("[]"@ =~= empty_array());
    match json_parse(d.as_str()) {
        Ok(p) => match p.shape {
            JsonShape::Array(items) => {
                let ghost dv = items.deep_view();
                let mut keep: Vec<String> = Vec::new();
                let mut k: usize = 0;
                assert(dv.take(0) =~= Seq::<Seq<char>>::empty());
                while k < items.len()
                    invariant
                        k <= items.len(),
                        dv == items.deep_view(),
                        keep.deep_view() == spec_keep(dv.take(k as int)),
                        keep.len() <= k,
                    decreases items.len() - k,
                {
                    let ghost t = dv.take(k + 1);
                    assert(t.drop_last() =~= dv.take(k as int));
                    assert(t.last() == items[k as int]@);
                    if !is_placeholder(items[k].as_str()) {
                        keep.push(items[k].clone());
                        assert(keep.deep_view() =~= spec_keep(t));
                    }
                    k = k + 1;
                }
                assert(dv.take(items.len() as int) =~= dv);
                let text = array_text_from(&keep, 0);
                assert(keep.deep_view().subrange(0, keep.len() as int) =~= keep.deep_view());
                (text, items.len() - keep.len())
            },
            _ => {
                if is_placeholder(d.as_str()) {
                    let mut e = String::new();
                    e.append("[]");
                    (e, 1)
                } else {
                    (d, 0)
                }
            },
        },
        Err(_) => (d, 0),
    }
}

/// The event name and payload of the array text of an event.
fn deserialize_event_packet(data: &str) -> (res: Result<(String, String), ParserError>)
    ensures
        match spec_deserialize_event(data@) {
            Ok((e, p)) => res matches Ok(r) && r.0@ == e && r.1@ == p,
            Err(k) => res matches Err(x) && x.kind() == k,
        },
{
    match json_parse(data) {
        Err(e) => Err(ParserError::Serialize(e)),
        Ok(p) => match p.shape {
            JsonShape::Array(items) => {
                if items.len() == 0 {
                    return Err(ParserError::InvalidEventName);
                }
                match json_parse(items[0].as_str()) {
                    Ok(f) => match f.shape {
                        JsonShape::Str(name) => {
                            let payload = array_text_from(&items, 1);
                            assert(items.deep_view().subrange(1, items.len() as int) =~= items.deep_view().drop_first());
                            Ok((name, payload))
                        },
                        _ => Err(ParserError::InvalidEventName),
                    },
                    Err(_) => Err(ParserError::InvalidEventName),
                }
            },
            _ => Err(ParserError::InvalidEventName),
        },
    }
}

/// The JSON value of a payload text, absent when the text is empty.
fn deserialize_packet(data: &str) -> (res: Result<Option<String>, ParserError>)
    ensures
        match spec_deserialize_packet(data@) {
            Ok(None) => res matches Ok(None),
            Ok(Some(v)) => res matches Ok(Some(t)) && t@ == v,
            Err(k) => res matches Err(x) && x.kind() == k,
        },
{
    if data.is_empty() {
        Ok(None)
    } else {
        match json_parse(data) {
            Ok(p) => Ok(Some(p.text)),
            Err(e) => Err(ParserError::Serialize(e)),
        }
    }
}

fn incoming_packet(d: String) -> (b: BinaryPacket)
    ensures
        b@ == spec_incoming_packet(d@),
{
    let (data, payload_count) = incoming(d);
    let b = BinaryPacket { data: Value::Json(data), bin: Vec::new(), payload_count };
    assert(bins_view(b.bin@) =~= Seq::<Seq<u8>>::empty());
    b
}

fn parse_inner(c0: u8, data: &str, ack: Option<i64>) -> (res: Result<PacketData, ParserError>)
    requires
        48 <= c0 <= 54,
    ensures
        match spec_parse_inner(c0, data@, ack) {
            Ok(d) => res matches Ok(r) && r@ == d,
            Err(k) => res matches Err(x) && x.kind() == k,
        },
{
    if c0 == 48 {
        if data.is_empty() {
            Ok(PacketData::Connect(None))
        } else {
            match json_parse(data) {
                Ok(p) => Ok(PacketData::Connect(Some(Value::Json(p.text)))),
                Err(e) => Err(ParserError::Serialize(e)),
            }
        }
    } else if c0 == 49 {
        Ok(PacketData::Disconnect)
    } else if c0 == 50 {
        match deserialize_event_packet(data) {
            Ok((e, p)) => Ok(PacketData::Event(e, Value::Json(p), ack)),
            Err(x) => Err(x),
        }
    } else if c0 == 51 {
        match deserialize_packet(data) {
            Err(x) => Err(x),
            Ok(None) => Err(ParserError::InvalidPacketType),
            Ok(Some(v)) => match ack {
                None => Err(ParserError::InvalidPacketType),
                Some(a) => Ok(PacketData::EventAck(Value::Json(v), a)),
            },
        }
    } else if c0 == 53 {
        match deserialize_event_packet(data) {
            Ok((e, p)) => Ok(PacketData::BinaryEvent(e, incoming_packet(p), ack)),
            Err(x) => Err(x),
        }
    } else if c0 == 54 {
        match deserialize_packet(data) {
            Err(x) => Err(x),
            Ok(None) => Err(ParserError::InvalidPacketType),
            Ok(Some(v)) => match ack {
                None => Err(ParserError::InvalidPacketType),
                Some(a) => Ok(PacketData::BinaryAck(incoming_packet(v), a)),
            },
        }
    } else {
        Err(ParserError::InvalidPacketType)
    }
}


/// What parsing the text `b` does, with the partial packet `before` and `after` the call:
/// the packet, or the error; a binary packet that still expects attachments becomes the partial
/// packet and `NeedsMoreBinaryData` is reported.
pub open spec fn parse_str_outcome(b: Seq<u8>, before: Option<Packet>, res: Result<Packet, ParserError>, after: Option<Packet>) -> bool {
    match spec_parse_str(b) {
        Err(k) => res matches Err(x) && x.kind() == k
            && after == before,
        Ok(p) => if spec_is_binary(p.inner) && !spec_is_complete(p.inner) {
            &&& (res matches Err(x) && x.kind() == ErrorKind::NeedsMoreBinaryData)
            &&& (after matches Some(q) && q@ == p)
        } else {
            res matches Ok(q) && q@ == p
                && after == before
        },
    }
}

/// What adding the attachment `data` does, with the partial packet `before` and `after` the
/// call: the attachment is added to the partial binary packet, which is returned (and no longer
/// kept) once complete; without a partial binary packet, `UnexpectedBinaryPacket` is reported.
pub open spec fn parse_bin_outcome(before: Option<Packet>, data: Seq<u8>, res: Result<Packet, ParserError>, after: Option<Packet>) -> bool {
    match before {
        Some(q) => match q@.inner {
            PacketDataView::BinaryEvent(e, b, a) => {
                let nb = BinaryPacketView { bin: b.bin.push(data), ..b };
                let np = PacketView { inner: PacketDataView::BinaryEvent(e, nb, a), ns: q@.ns };
                if nb.payload_count == nb.bin.len() {
                    res matches Ok(r) && r@ == np && after is None
                } else {
                    &&& (res matches Err(x) && x.kind() == ErrorKind::NeedsMoreBinaryData)
                    &&& (after matches Some(r) && r@ == np)
                }
            },
            PacketDataView::BinaryAck(b, a) => {
                let nb = BinaryPacketView { bin: b.bin.push(data), ..b };
                let np = PacketView { inner: PacketDataView::BinaryAck(nb, a), ns: q@.ns };
                if nb.payload_count == nb.bin.len() {
                    res matches Ok(r) && r@ == np && after is None
                } else {
                    &&& (res matches Err(x) && x.kind() == ErrorKind::NeedsMoreBinaryData)
                    &&& (after matches Some(r) && r@ == np)
                }
            },
            _ => res matches Err(x) && x.kind() == ErrorKind::UnexpectedBinaryPacket
                && after == before,
        },
        None => res matches Err(x) && x.kind() == ErrorKind::UnexpectedBinaryPacket
            && after is None,
    }
}

impl CommonParser {
    /// A parser with no partial binary packet.
    pub fn new() -> (p: CommonParser)
        ensures
            p.partial_bin_packet is None,
    {
        CommonParser { partial_bin_packet: None }
    }

    /// Parse a packet from its text.
    ///
    /// A binary packet that still expects attachments is kept as the partial packet and
    /// [`ParserError::NeedsMoreBinaryData`] is returned; feed its attachments to
    /// [`CommonParser::parse_bin`].
    pub fn parse_str(&mut self, value: &str) -> (res: Result<Packet, ParserError>)
        requires
            spec_parse_terminates(value.spec_bytes()),
        ensures
            parse_str_outcome(value.spec_bytes(), old(self).partial_bin_packet, res, final(self).partial_bin_packet),
    {
        let chars = value.as_bytes();
        let ghost b = chars@;
        proof {
            vstd::utf8::encode_utf8_valid_utf8(value@);
            vstd::utf8::is_char_boundary_start_end_of_seq(b);
        }
        let len = chars.len();
        let c0 = chars[0];
        if !(48 <= c0 && c0 <= 54) {
            return Err(ParserError::InvalidPacketType);
        }
        // Skip the attachment count of a binary packet.
        let mut i: usize = 1;
        proof {
            lemma_boundary_after_ascii(b, 0);
        }
        if c0 == 53 || c0 == 54 {
            proof {
                lemma_find_byte(b, 1, 45);
            }
            while chars[i] != 45
                invariant
                    1 <= i <= find_byte(b, 1, 45) < b.len(),
                    b == chars@,
                    len == b.len(),
                    find_byte(b, i as int, 45) == find_byte(b, 1, 45),
                decreases b.len() - i,
            {
                proof {
                    lemma_find_byte(b, i + 1, 45);
                }
                i = i + 1;
            }
            proof {
                lemma_boundary_after_ascii(b, i as int);
            }
            i = i + 1;
        }
        assert(i == spec_ns_start(b));
        assert(is_char_boundary(b, i as int));
        // Custom namespaces start with a slash.
        let start = i;
        let ns: String = if i < len && chars[i] == 47 {
            proof {
                lemma_find_byte(b, start as int, 44);
            }
            while i < len && chars[i] != 44
                invariant
                    start <= i <= len,
                    b == chars@,
                    len == b.len(),
                    find_byte(b, i as int, 44) == find_byte(b, start as int, 44),
                decreases len - i,
            {
                i = i + 1;
            }
            proof {
                if i < len {
                    lemma_ascii_is_boundary(b, i as int);
                }
            }
            let ns_text = str_slice(value, start, i).to_owned();
            if i < len {
                proof {
                    lemma_boundary_after_ascii(b, i as int);
                }
                i = i + 1;
            }
            ns_text
        } else {
            proof {
                reveal_strlit("/");
            }
            assert("/"@ =~= seq!['/']);
            "/".to_owned()
        };
        assert(i == spec_ns_end(b).1);
        assert(ns@ == spec_parse_ns(b));
        assert(is_char_boundary(b, i as int));
        // The ack id: digits followed by the payload.
        let ack_start = i;
        proof {
            lemma_skip_digits(b, ack_start as int);
        }
        while i < len && 48 <= chars[i] && chars[i] <= 57
            invariant
                ack_start <= i <= len,
                b == chars@,
                len == b.len(),
                skip_digits(b, i as int) == skip_digits(b, ack_start as int),
            decreases len - i,
        {
            i = i + 1;
        }
        assert(i == skip_digits(b, ack_start as int));
        let ack: Option<i64> = if i > ack_start && i < len && (chars[i] == 91 || chars[i] == 123) {
            parse_digits(chars, ack_start, i)
        } else {
            None
        };
        assert(ack == spec_parse_ack(b));
        proof {
            if i > ack_start {
                lemma_boundary_after_ascii(b, i - 1);
            }
        }
        let data = str_slice(value, i, len);
        assert(data@ == spec_parse_data(b));
        match parse_inner(c0, data, ack) {
            Err(x) => Err(x),
            Ok(inner) => {
                if inner.is_binary() && !inner.is_complete() {
                    self.partial_bin_packet = Some(Packet { inner, ns });
                    Err(ParserError::NeedsMoreBinaryData)
                } else {
                    Ok(Packet { inner, ns })
                }
            },
        }
    }

    /// Add a binary attachment to the partial binary packet. When it was the last one expected,
    /// the complete packet is returned and no partial packet is kept.
    pub fn parse_bin(&mut self, data: Vec<u8>) -> (res: Result<Packet, ParserError>)
        ensures
            parse_bin_outcome(old(self).partial_bin_packet, data@, res, final(self).partial_bin_packet),
    {
        match self.partial_bin_packet.take() {
            Some(Packet { inner: PacketData::BinaryEvent(e, mut bin, a), ns }) => {
                bin.add_payload(data);
                if bin.is_complete() {
                    Ok(Packet { inner: PacketData::BinaryEvent(e, bin, a), ns })
                } else {
                    self.partial_bin_packet = Some(Packet { inner: PacketData::BinaryEvent(e, bin, a), ns });
                    Err(ParserError::NeedsMoreBinaryData)
                }
            },
            Some(Packet { inner: PacketData::BinaryAck(mut bin, a), ns }) => {
                bin.add_payload(data);
                if bin.is_complete() {
                    Ok(Packet { inner: PacketData::BinaryAck(bin, a), ns })
                } else {
                    self.partial_bin_packet = Some(Packet { inner: PacketData::BinaryAck(bin, a), ns });
                    Err(ParserError::NeedsMoreBinaryData)
                }
            },
            Some(other) => {
                self.partial_bin_packet = Some(other);
                Err(ParserError::UnexpectedBinaryPacket)
            },
            None => Err(ParserError::UnexpectedBinaryPacket),
        }
    }
}

impl CommonParser {
    /// Serialize a packet into its text and the binary attachments sent after it.
    pub fn serialize(&self, packet: Packet) -> (res: (TransportPayload, Vec<Vec<u8>>))
        requires
            spec_serializable(packet@),
        ensures
            res.0 == TransportPayload::Str(res.0->Str_0),
            res.0->Str_0@ == spec_serialize_text(packet@),
            bins_view(res.1@) == spec_serialize_bins(packet@),
            (packet@.inner matches PacketDataView::Event(_, ValueView::Json(d), _) && nonempty_json_array(d))
                && !packet@.ns.contains(',') && acks_not_negative(packet@.inner) ==> spec_parse_str(
                encode_utf8(res.0->Str_0@),
            ) == Ok::<PacketView, ErrorKind>(PacketView { inner: packet@.inner, ns: canonical_ns(packet@.ns) }),
    {
        proof {
            reveal_strlit("-");
        }
        let ghost p = packet@;
        let idx = packet.inner.index();
        let mut res = String::new();
        push_index(&mut res, idx);
        let Packet { inner, ns } = packet;
        let bins: Vec<Vec<u8>> = match inner {
            PacketData::Connect(Some(v)) => {
                push_ns_part(&mut res, ns.as_str());
                match v {
                    Value::Json(t) => res.append(t.as_str()),
                    Value::MsgPack(_) => {},
                }
                Vec::new()
            },
            PacketData::Connect(None) | PacketData::Disconnect => {
                push_ns_part(&mut res, ns.as_str());
                Vec::new()
            },
            PacketData::Event(e, v, ack) => {
                push_ns_part(&mut res, ns.as_str());
                if let Some(a) = ack {
                    push_decimal(&mut res, a as i128);
                }
                match v {
                    Value::Json(t) => {
                        let payload = event_payload(e.as_str(), t.as_str());
                        res.append(payload.as_str());
                        proof {
                            if nonempty_json_array(t@) && !p.ns.contains(',') && acks_not_negative(p.inner) {
                                lemma_event_reads_back(p);
                            }
                        }
                    },
                    Value::MsgPack(_) => {},
                }
                Vec::new()
            },
            PacketData::EventAck(v, ack) => {
                push_ns_part(&mut res, ns.as_str());
                push_decimal(&mut res, ack as i128);
                match v {
                    Value::Json(t) => {
                        let payload = ack_payload(t.as_str());
                        res.append(payload.as_str());
                    },
                    Value::MsgPack(_) => {},
                }
                Vec::new()
            },
            PacketData::ConnectError(s) => {
                push_ns_part(&mut res, ns.as_str());
                res.append(s.as_str());
                Vec::new()
            },
            PacketData::BinaryEvent(e, bin, ack) => {
                push_decimal(&mut res, bin.payload_count as i128);
                res.append("-");
                push_ns_part(&mut res, ns.as_str());
                if let Some(a) = ack {
                    push_decimal(&mut res, a as i128);
                }
                let BinaryPacket { data, bin, payload_count } = bin;
                match data {
                    Value::Json(t) => {
                        let out = outgoing(t.as_str(), payload_count);
                        let payload = event_payload(e.as_str(), out.as_str());
                        res.append(payload.as_str());
                    },
                    Value::MsgPack(_) => {},
                }
                bin
            },
            PacketData::BinaryAck(bin, ack) => {
                push_decimal(&mut res, bin.payload_count as i128);
                res.append("-");
                push_ns_part(&mut res, ns.as_str());
                push_decimal(&mut res, ack as i128);
                let BinaryPacket { data, bin, payload_count } = bin;
                match data {
                    Value::Json(t) => {
                        let out = outgoing(t.as_str(), payload_count);
                        let payload = ack_payload(out.as_str());
                        res.append(payload.as_str());
                    },
                    Value::MsgPack(_) => {},
                }
                bin
            },
        };
        assert(res@ =~= spec_serialize_text(p));
        (TransportPayload::Str(res), bins)
    }
}

/// Parse and serialize from and into the socket.io common packet format.
///
/// A binary packet whose attachments have not all arrived yet is kept here until they have.
#[derive(Debug)]
pub struct CommonParser {
    /// Partial binary packet that is being received
    pub partial_bin_packet: Option<Packet>,
}

} // verus!

verus! {

// ---------------------------------------------------------------------------------------------
// Size hint: the bytes a packet's text takes besides its JSON payload
// ---------------------------------------------------------------------------------------------

/// `checked_ilog10` of an integer, with 0 where it has none (zero or a negative number).
pub open spec fn hint_log(x: int) -> nat {
    if x <= 0 {
        0
    } else {
        spec_log10(x as nat)
    }
}

/// The bytes that the type-specific part of a packet text takes, its JSON payload aside:
/// the ack id, the attachment count with its `-`, or the connect error text.
pub open spec fn spec_data_size_hint(d: PacketDataView) -> nat {
    match d {
        PacketDataView::Connect(_) => 0,
        PacketDataView::Disconnect => 0,
        PacketDataView::Event(_, _, Some(ack)) => hint_log(ack as int) + 1,
        PacketDataView::Event(_, _, None) => 0,
        PacketDataView::BinaryEvent(_, b, None) => hint_log(b.payload_count as int) + 2,
        PacketDataView::BinaryEvent(_, b, Some(ack)) => hint_log(ack as int) + hint_log(b.payload_count as int) + 3,
        PacketDataView::EventAck(_, ack) => hint_log(ack as int) + 1,
        PacketDataView::BinaryAck(b, ack) => hint_log(ack as int) + hint_log(b.payload_count as int) + 3,
        PacketDataView::ConnectError(s) => encode_utf8(s).len(),
    }
}

/// The bytes that the namespace part of a packet text takes at most.
pub open spec fn spec_ns_size_hint(ns: Seq<char>) -> nat {
    if ns == seq!['/'] {
        0
    } else if ns.len() > 0 && ns[0] == '/' {
        encode_utf8(ns).len() + 1
    } else {
        encode_utf8(ns).len() + 2
    }
}

/// The size hint of a packet: the type digit, the namespace part and the type-specific part.
pub open spec fn spec_size_hint(p: PacketView) -> nat {
    spec_data_size_hint(p.inner) + spec_ns_size_hint(p.ns) + 1
}

/// The JSON payload that ends the text of a packet (empty for the packets that carry none).
pub open spec fn spec_payload_text(p: PacketView) -> Seq<char> {
    match p.inner {
        PacketDataView::Connect(Some(v)) => json_of(v),
        PacketDataView::Event(e, v, _) => spec_event_payload(e, json_of(v)),
        PacketDataView::EventAck(v, _) => spec_ack_payload(json_of(v)),
        PacketDataView::BinaryEvent(e, b, _) => spec_event_payload(
            e,
            spec_outgoing(json_of(b.data), b.payload_count as nat),
        ),
        PacketDataView::BinaryAck(b, _) => spec_ack_payload(
            spec_outgoing(json_of(b.data), b.payload_count as nat),
        ),
        _ => Seq::<char>::empty(),
    }
}

/// Whether every ack id of a packet is zero or more.
pub open spec fn acks_not_negative(d: PacketDataView) -> bool {
    match d {
        PacketDataView::Event(_, _, Some(ack)) => ack >= 0,
        PacketDataView::EventAck(_, ack) => ack >= 0,
        PacketDataView::BinaryEvent(_, _, Some(ack)) => ack >= 0,
        PacketDataView::BinaryAck(_, ack) => ack >= 0,
        _ => true,
    }
}

/// `x.checked_ilog10().unwrap_or(0)`.
fn ilog10_or_zero(x: i128) -> (r: usize)
    ensures
        r == hint_log(x as int),
        r <= 38,
{
    if x <= 0 {
        return 0;
    }
    let mut m: i128 = x;
    let mut r: usize = 0;
    proof {
        reveal_with_fuel(spec_pow10, 40);
        assert(spec_pow10(39) == 1000000000000000000000000000000000000000);
        lemma_log10_bound(x as nat, 38);
    }
    while m >= 10
        invariant
            1 <= m <= x,
            r + spec_log10(m as nat) == spec_log10(x as nat),
            spec_log10(x as nat) <= 38,
        decreases m,
    {
        m = m / 10;
        r = r + 1;
    }
    r
}

/// The number of bytes that the text of a packet takes, its JSON payload aside, at most:
/// what a buffer for the packet text is reserved with besides the payload.
pub fn get_size_hint(packet: &Packet) -> (n: usize)
    requires
        spec_size_hint(packet@) <= usize::MAX,
    ensures
        n == spec_size_hint(packet@),
{
    let data_size: usize = match &packet.inner {
        PacketData::Connect(_) => 0,
        PacketData::Disconnect => 0,
        PacketData::Event(_, _, Some(ack)) => ilog10_or_zero(*ack as i128) + 1,
        PacketData::Event(_, _, None) => 0,
        PacketData::BinaryEvent(_, bin, None) => ilog10_or_zero(bin.payload_count as i128) + 2,
        PacketData::BinaryEvent(_, bin, Some(ack)) => {
            ilog10_or_zero(*ack as i128) + ilog10_or_zero(bin.payload_count as i128) + 3
        },
        PacketData::EventAck(_, ack) => ilog10_or_zero(*ack as i128) + 1,
        PacketData::BinaryAck(bin, ack) => {
            ilog10_or_zero(*ack as i128) + ilog10_or_zero(bin.payload_count as i128) + 3
        },
        PacketData::ConnectError(data) => data.as_str().len(),
    };
    proof {
        reveal_strlit("/");
    }
    assert("/"@ =~= seq!['/']);
    let ns = packet.ns.as_str();
    let ns_size: usize = if str_eq(ns, "/") {
        0
    } else if starts_with_char(ns, '/') {
        ns.len() + 1
    } else {
        ns.len() + 2
    };
    data_size + ns_size + 1
}

/// The UTF-8 length of the namespace part of a packet text.
proof fn lemma_ns_part_bytes(ns: Seq<char>)
    ensures
        encode_utf8(ns_part(ns)).len() <= spec_ns_size_hint(ns),
        ns.len() > 0 ==> encode_utf8(ns_part(ns)).len() == spec_ns_size_hint(ns),
{
    reveal_with_fuel(encode_utf8, 2);
    lemma_encode_ascii('/');
    lemma_encode_ascii(',');
    if ns.len() > 0 && ns != seq!['/'] {
        let lead = if ns[0] != '/' { seq!['/'] } else { Seq::<char>::empty() };
        lemma_encode_concat(lead, ns);
        lemma_encode_concat(lead + ns, seq![',']);
        assert(encode_utf8(Seq::<char>::empty()).len() == 0);
    } else {
        assert(ns_part(ns) =~= Seq::<char>::empty());
    }
}

/// The text of a packet whose ack ids are not negative takes at most its size hint in bytes
/// besides its JSON payload, and exactly that when its namespace is not empty.
pub proof fn lemma_size_hint_bounds_text(p: PacketView)
    requires
        acks_not_negative(p.inner),
    ensures
        encode_utf8(spec_serialize_text(p)).len() <= spec_size_hint(p) + encode_utf8(spec_payload_text(p)).len(),
        p.ns.len() > 0 ==> encode_utf8(spec_serialize_text(p)).len() == spec_size_hint(p)
            + encode_utf8(spec_payload_text(p)).len(),
{
    let head = seq![digit_char(spec_index(p.inner) as int)];
    let nsp = ns_part(p.ns);
    let payload = spec_payload_text(p);
    lemma_ns_part_bytes(p.ns);
    lemma_encode_ascii(digit_char(spec_index(p.inner) as int));
    lemma_encode_ascii('-');
    lemma_encode_concat(head, nsp);
    match p.inner {
        PacketDataView::Connect(Some(v)) => {
            lemma_encode_concat(head + nsp, payload);
        },
        PacketDataView::Connect(None) => {},
        PacketDataView::Disconnect => {},
        PacketDataView::Event(e, v, ack) => {
            lemma_encode_concat(head + nsp, opt_ack_text(ack));
            lemma_encode_concat(head + nsp + opt_ack_text(ack), payload);
            if let Some(a) = ack {
                lemma_decimal_bytes(a as int);
            }
        },
        PacketDataView::EventAck(v, ack) => {
            lemma_encode_concat(head + nsp, spec_decimal(ack as int));
            lemma_encode_concat(head + nsp + spec_decimal(ack as int), payload);
            lemma_decimal_bytes(ack as int);
        },
        PacketDataView::ConnectError(s) => {
            lemma_encode_concat(head + nsp, s);
        },
        PacketDataView::BinaryEvent(e, b, ack) => {
            let count = spec_decimal(b.payload_count as int);
            lemma_decimal_bytes(b.payload_count as int);
            lemma_encode_concat(head, count);
            lemma_encode_concat(head + count, seq!['-']);
            lemma_encode_concat(head + count + seq!['-'], nsp);
            lemma_encode_concat(head + count + seq!['-'] + nsp, opt_ack_text(ack));
            lemma_encode_concat(head + count + seq!['-'] + nsp + opt_ack_text(ack), payload);
            if let Some(a) = ack {
                lemma_decimal_bytes(a as int);
            }
        },
        PacketDataView::BinaryAck(b, ack) => {
            let count = spec_decimal(b.payload_count as int);
            lemma_decimal_bytes(b.payload_count as int);
            lemma_decimal_bytes(ack as int);
            lemma_encode_concat(head, count);
            lemma_encode_concat(head + count, seq!['-']);
            lemma_encode_concat(head + count + seq!['-'], nsp);
            lemma_encode_concat(head + count + seq!['-'] + nsp, spec_decimal(ack as int));
            lemma_encode_concat(head + count + seq!['-'] + nsp + spec_decimal(ack as int), payload);
        },
    }
}

} // verus!
