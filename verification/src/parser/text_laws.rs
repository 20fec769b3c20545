//! What the text parser reads back of what the text serializer writes: the packet type, the
//! namespace, the ack id and the payload text, byte for byte.
use crate::json::{spec_json_parse, spec_json_quote, JsonShapeView, JsonView};
use crate::packet::{spec_index, PacketDataView, PacketView, ValueView};
use crate::parser::common::{
    acks_not_negative, find_byte, ns_part, skip_digits, spec_digits_value, spec_ns_end, spec_ns_start,
    spec_parse_ack, spec_parse_data, spec_parse_inner, spec_parse_ns, spec_parse_str, spec_parse_terminates,
    spec_payload_text, spec_serialize_text, opt_ack_text, json_items, nonempty_json_array, spec_array_text,
    spec_event_payload, spec_ack_payload, spec_join, empty_array, is_json_array, spec_serialize_bins,
    spec_incoming, spec_keep, spec_is_placeholder, spec_deserialize_event, null_text,
};
use crate::parser::ErrorKind;
use crate::text::{digit_char, is_ascii_char, is_digit_byte, lemma_encode_ascii, lemma_encode_concat, spec_decimal, spec_digits};
use vstd::prelude::*;
use vstd::utf8::{
    char_is_scalar, decode_utf8, encode_scalar, encode_utf8, encode_utf8_decode_utf8, has_width_1_encoding,
    has_width_2_encoding, has_width_3_encoding, last_continuation_byte, leading_byte_width_2,
    leading_byte_width_3, leading_byte_width_4, second_last_continuation_byte, third_last_continuation_byte,
};

verus! {

// ---------------------------------------------------------------------------------------------
// Bytes of UTF-8 text
// ---------------------------------------------------------------------------------------------

/// The bytes of a character: its code when it is ASCII, otherwise bytes of 128 and more.
pub proof fn lemma_scalar_bytes(c: char)
    ensures
        encode_scalar(c as u32).len() >= 1,
        is_ascii_char(c) ==> encode_scalar(c as u32) == seq![c as u8],
        !is_ascii_char(c) ==> forall|i: int| 0 <= i < encode_scalar(c as u32).len() ==> #[trigger] encode_scalar(c as u32)[i] >= 128,
{
    char_is_scalar(c);
    let v = c as u32;
    if is_ascii_char(c) {
        lemma_encode_ascii(c);
    } else if has_width_2_encoding(v) {
        assert(leading_byte_width_2(v) >= 128 && last_continuation_byte(v) >= 128) by (bit_vector);
    } else if has_width_3_encoding(v) {
        assert(leading_byte_width_3(v) >= 128 && second_last_continuation_byte(v) >= 128
            && last_continuation_byte(v) >= 128) by (bit_vector);
    } else {
        assert(!has_width_1_encoding(v));
        assert(leading_byte_width_4(v) >= 128 && third_last_continuation_byte(v) >= 128
            && second_last_continuation_byte(v) >= 128 && last_continuation_byte(v) >= 128) by (bit_vector);
    }
}

/// The first byte of a nonempty text: the code of its first character when that is ASCII,
/// otherwise 128 or more.
pub proof fn lemma_first_byte(s: Seq<char>)
    requires
        s.len() > 0,
    ensures
        encode_utf8(s).len() > 0,
        is_ascii_char(s[0]) ==> encode_utf8(s)[0] == s[0] as u8,
        !is_ascii_char(s[0]) ==> encode_utf8(s)[0] >= 128,
{
    lemma_scalar_bytes(s[0]);
    assert(encode_utf8(s) == encode_scalar(s[0] as u32) + encode_utf8(s.drop_first()));
    assert(encode_utf8(s)[0] == encode_scalar(s[0] as u32)[0]);
}

/// An ASCII character missing from a text has its code missing from the bytes of the text.
pub proof fn lemma_ascii_byte_absent(s: Seq<char>, x: char)
    requires
        is_ascii_char(x),
        !s.contains(x),
    ensures
        forall|k: int| 0 <= k < encode_utf8(s).len() ==> #[trigger] encode_utf8(s)[k] != x as u8,
    decreases s.len(),
{
    if s.len() > 0 {
        let head = encode_scalar(s[0] as u32);
        let rest = s.drop_first();
        assert(!rest.contains(x)) by {
            if rest.contains(x) {
                let j = choose|j: int| 0 <= j < rest.len() && rest[j] == x;
                assert(s[j + 1] == x);
            }
        }
        lemma_ascii_byte_absent(rest, x);
        lemma_scalar_bytes(s[0]);
        assert(s[0] != x);
        assert(encode_utf8(s) == head + encode_utf8(rest));
        assert forall|k: int| 0 <= k < encode_utf8(s).len() implies #[trigger] encode_utf8(s)[k] != x as u8 by {
            if k < head.len() {
                assert(encode_utf8(s)[k] == head[k]);
                if is_ascii_char(s[0]) {
                    assert(head[k] == s[0] as u8);
                }
            } else {
                assert(encode_utf8(s)[k] == encode_utf8(rest)[k - head.len()]);
            }
        }
    }
}

/// The decimal digits of a number: ASCII digit bytes, at least one, whose value is the number.
pub proof fn lemma_digit_bytes(n: nat)
    ensures
        encode_utf8(spec_digits(n)).len() == spec_digits(n).len(),
        spec_digits(n).len() > 0,
        forall|i: int| 0 <= i < spec_digits(n).len() ==> is_digit_byte(#[trigger] encode_utf8(spec_digits(n))[i]),
        forall|i: int| 0 <= i < spec_digits(n).len() ==> is_ascii_char(#[trigger] spec_digits(n)[i]),
        spec_digits_value(encode_utf8(spec_digits(n))) == n,
    decreases n,
{
    if n < 10 {
        let c = digit_char(n as int);
        assert(is_ascii_char(c));
        lemma_encode_ascii(c);
        assert(spec_digits(n) == seq![c]);
        let b = encode_utf8(spec_digits(n));
        assert(b == seq![c as u8]);
        assert(b.drop_last() =~= Seq::<u8>::empty());
        assert(c as u8 == 48 + n);
        assert(spec_digits_value(b) == spec_digits_value(b.drop_last()) * 10 + (b.last() - 48));
    } else {
        let pre = spec_digits(n / 10);
        let c = digit_char((n % 10) as int);
        lemma_digit_bytes(n / 10);
        assert(is_ascii_char(c));
        lemma_encode_ascii(c);
        assert(spec_digits(n) =~= pre + seq![c]);
        lemma_encode_concat(pre, seq![c]);
        let b = encode_utf8(spec_digits(n));
        assert(b =~= encode_utf8(pre) + seq![c as u8]);
        assert(b.drop_last() =~= encode_utf8(pre));
        assert(b.last() == c as u8);
        assert(forall|i: int| 0 <= i < spec_digits(n).len() ==> is_digit_byte(#[trigger] b[i])) by {
            assert forall|i: int| 0 <= i < spec_digits(n).len() implies is_digit_byte(#[trigger] b[i]) by {
                if i < pre.len() {
                    assert(b[i] == encode_utf8(pre)[i]);
                }
            }
        }
        assert(forall|i: int| 0 <= i < spec_digits(n).len() ==> is_ascii_char(#[trigger] spec_digits(n)[i])) by {
            assert forall|i: int| 0 <= i < spec_digits(n).len() implies is_ascii_char(#[trigger] spec_digits(n)[i]) by {
                if i < pre.len() {
                    assert(spec_digits(n)[i] == pre[i]);
                }
            }
        }
        let q = n / 10;
        let r = n % 10;
        assert(c as u8 == 48 + r);
        assert(spec_digits_value(b) == spec_digits_value(b.drop_last()) * 10 + (b.last() - 48));
        assert(q * 10 + r == n) by (nonlinear_arith)
            requires
                q == n / 10,
                r == n % 10;
    }
}

/// The decimal text of a number that is not negative: its digits.
pub proof fn lemma_decimal_digits(x: int)
    requires
        x >= 0,
    ensures
        spec_decimal(x) == spec_digits(x as nat),
{
}

// ---------------------------------------------------------------------------------------------
// Scanning
// ---------------------------------------------------------------------------------------------

/// `find_byte` stops at the first occurrence.
pub proof fn lemma_find_byte_at(b: Seq<u8>, from: int, j: int, x: u8)
    requires
        0 <= from <= j < b.len(),
        b[j] == x,
        forall|k: int| from <= k < j ==> #[trigger] b[k] != x,
    ensures
        find_byte(b, from, x) == j,
    decreases j - from,
{
    if from < j {
        lemma_find_byte_at(b, from + 1, j, x);
    }
}

/// `skip_digits` stops at the first byte that is not a digit.
pub proof fn lemma_skip_digits_to(b: Seq<u8>, from: int, j: int)
    requires
        0 <= from <= j <= b.len(),
        forall|k: int| from <= k < j ==> is_digit_byte(#[trigger] b[k]),
        j < b.len() ==> !is_digit_byte(b[j]),
    ensures
        skip_digits(b, from) == j,
    decreases j - from,
{
    if from < j {
        lemma_skip_digits_to(b, from + 1, j);
    }
}

// ---------------------------------------------------------------------------------------------
// The parts of a packet text
// ---------------------------------------------------------------------------------------------

/// The namespace the parser reads back: `/` for the root namespace (empty or `/`), otherwise
/// the namespace with a leading `/`.
pub open spec fn canonical_ns(ns: Seq<char>) -> Seq<char> {
    if ns.len() == 0 || ns == seq!['/'] {
        seq!['/']
    } else if ns[0] == '/' {
        ns
    } else {
        seq!['/'] + ns
    }
}

/// The ack id a packet text holds.
pub open spec fn written_ack(d: PacketDataView) -> Option<i64> {
    match d {
        PacketDataView::Event(_, _, a) => a,
        PacketDataView::EventAck(_, a) => Some(a),
        PacketDataView::BinaryEvent(_, _, a) => a,
        PacketDataView::BinaryAck(_, a) => Some(a),
        _ => None,
    }
}

/// The payload text of a packet text: what follows its namespace and ack id.
pub open spec fn written_payload(p: PacketView) -> Seq<char> {
    match p.inner {
        PacketDataView::ConnectError(s) => s,
        _ => spec_payload_text(p),
    }
}

/// The attachment count of a binary packet text, with the `-` that ends it.
pub open spec fn count_part(d: PacketDataView) -> Seq<char> {
    match d {
        PacketDataView::BinaryEvent(_, b, _) => spec_decimal(b.payload_count as int) + seq!['-'],
        PacketDataView::BinaryAck(b, _) => spec_decimal(b.payload_count as int) + seq!['-'],
        _ => Seq::<char>::empty(),
    }
}

/// Whether the payload text can be told apart from what precedes it: it does not start with a
/// digit (which would be read as part of the ack id), nor with `/` right after the type and
/// count (which would be read as a namespace).
pub open spec fn payload_separable(p: PacketView) -> bool {
    let t = written_payload(p);
    t.len() > 0 ==> {
        &&& !('0' <= t[0] <= '9')
        &&& (ns_part(p.ns).len() == 0 && written_ack(p.inner) is None ==> t[0] != '/')
    }
}

/// A packet text is its type, count, namespace, ack id and payload, one after the other.
proof fn lemma_text_parts(p: PacketView)
    ensures
        spec_serialize_text(p) == seq![digit_char(spec_index(p.inner) as int)] + count_part(p.inner)
            + ns_part(p.ns) + opt_ack_text(written_ack(p.inner)) + written_payload(p),
{
    let h = seq![digit_char(spec_index(p.inner) as int)];
    let n = ns_part(p.ns);
    match p.inner {
        PacketDataView::Connect(Some(v)) => {
            assert(spec_serialize_text(p) =~= h + Seq::<char>::empty() + n + Seq::<char>::empty() + written_payload(p));
        },
        PacketDataView::Connect(None) => {
            assert(spec_serialize_text(p) =~= h + Seq::<char>::empty() + n + Seq::<char>::empty() + Seq::<char>::empty());
        },
        PacketDataView::Disconnect => {
            assert(spec_serialize_text(p) =~= h + Seq::<char>::empty() + n + Seq::<char>::empty() + Seq::<char>::empty());
        },
        PacketDataView::ConnectError(m) => {
            assert(spec_serialize_text(p) =~= h + Seq::<char>::empty() + n + Seq::<char>::empty() + m);
        },
        PacketDataView::Event(..) => {
            assert(spec_serialize_text(p) =~= h + Seq::<char>::empty() + n + opt_ack_text(written_ack(p.inner)) + written_payload(p));
        },
        PacketDataView::EventAck(..) => {
            assert(spec_serialize_text(p) =~= h + Seq::<char>::empty() + n + opt_ack_text(written_ack(p.inner)) + written_payload(p));
        },
        PacketDataView::BinaryEvent(..) => {
            assert(spec_serialize_text(p) =~= h + count_part(p.inner) + n + opt_ack_text(written_ack(p.inner)) + written_payload(p));
        },
        PacketDataView::BinaryAck(..) => {
            assert(spec_serialize_text(p) =~= h + count_part(p.inner) + n + opt_ack_text(written_ack(p.inner)) + written_payload(p));
        },
    }
}

/// The payload of a packet text that holds an ack id opens an array.
proof fn lemma_payload_opens_array(p: PacketView)
    requires
        written_ack(p.inner) is Some,
    ensures
        written_payload(p).len() > 0,
        written_payload(p)[0] == '[',
{
}

/// The bytes of the decimal text of a number that is not negative: digits, at least one, whose
/// value is the number.
proof fn lemma_number_bytes(x: int)
    requires
        x >= 0,
    ensures
        encode_utf8(spec_decimal(x)).len() == spec_decimal(x).len() > 0,
        forall|i: int| 0 <= i < spec_decimal(x).len() ==> is_digit_byte(#[trigger] encode_utf8(spec_decimal(x))[i]),
        forall|i: int| 0 <= i < spec_decimal(x).len() ==> is_ascii_char(#[trigger] spec_decimal(x)[i]),
        spec_digits_value(encode_utf8(spec_decimal(x))) == x,
{
    lemma_decimal_digits(x);
    lemma_digit_bytes(x as nat);
}

/// The parser reads back the parts that the serializer wrote: the type, the namespace (in its
/// canonical form), the ack id and the payload text. This holds for every packet whose
/// namespace has no comma, whose ack ids are not negative and whose payload can be told apart
/// from what precedes it; and the parser accepts every such text.
pub proof fn lemma_parse_reads_back(p: PacketView)
    requires
        !p.ns.contains(','),
        acks_not_negative(p.inner),
        payload_separable(p),
    ensures
        ({
            let b = encode_utf8(spec_serialize_text(p));
            &&& spec_parse_terminates(b)
            &&& b[0] == 48 + spec_index(p.inner)
            &&& spec_parse_ns(b) == canonical_ns(p.ns)
            &&& spec_parse_ack(b) == written_ack(p.inner)
            &&& spec_parse_data(b) == written_payload(p)
        }),
{
    let h = seq![digit_char(spec_index(p.inner) as int)];
    let c = count_part(p.inner);
    let n = ns_part(p.ns);
    let a = opt_ack_text(written_ack(p.inner));
    let t = written_payload(p);
    lemma_text_parts(p);
    lemma_encode_concat(h, c);
    lemma_encode_concat(h + c, n);
    lemma_encode_concat(h + c + n, a);
    lemma_encode_concat(h + c + n + a, t);
    let eh = encode_utf8(h);
    let ec = encode_utf8(c);
    let en = encode_utf8(n);
    let ea = encode_utf8(a);
    let et = encode_utf8(t);
    let b = encode_utf8(spec_serialize_text(p));
    assert(b =~= eh + ec + en + ea + et);

    // The type byte.
    let idx = spec_index(p.inner);
    assert(is_ascii_char(digit_char(idx as int)));
    lemma_encode_ascii(digit_char(idx as int));
    assert(eh == seq![(48 + idx) as u8]);
    assert(b[0] == 48 + idx);

    // The attachment count: digits then `-`.
    let s1: int = 1 + ec.len() as int;
    if c.len() > 0 {
        let cnt = match p.inner {
            PacketDataView::BinaryEvent(_, bp, _) => bp.payload_count,
            PacketDataView::BinaryAck(bp, _) => bp.payload_count,
            _ => 0,
        };
        lemma_number_bytes(cnt as int);
        lemma_encode_ascii('-');
        lemma_encode_concat(spec_decimal(cnt as int), seq!['-']);
        let ed = encode_utf8(spec_decimal(cnt as int));
        assert(ec =~= ed + seq![45u8]);
        assert forall|k: int| 1 <= k < s1 - 1 implies #[trigger] b[k] != 45u8 by {
            assert(b[k] == ed[k - 1]);
            assert(is_digit_byte(ed[k - 1]));
        }
        assert(b[s1 - 1] == 45u8);
        lemma_find_byte_at(b, 1, s1 - 1, 45u8);
        assert(idx == 5 || idx == 6);
    } else {
        assert(ec =~= Seq::<u8>::empty());
        assert(!(idx == 5 || idx == 6));
    }
    assert(spec_parse_terminates(b));
    assert(spec_ns_start(b) == s1);

    // The ack id (digits, when there is one) and the payload.
    let s2: int = s1 + en.len();
    let s3: int = s2 + ea.len();
    match written_ack(p.inner) {
        Some(x) => {
            assert(x >= 0);
            lemma_number_bytes(x as int);
            lemma_payload_opens_array(p);
        },
        None => {
            assert(ea =~= Seq::<u8>::empty());
        },
    }
    assert(b.len() == s3 + et.len());
    assert forall|k: int| s2 <= k < s3 implies is_digit_byte(#[trigger] b[k]) by {
        assert(b[k] == ea[k - s2]);
    }
    if t.len() > 0 {
        lemma_first_byte(t);
        assert(b[s3] == et[0]);
        if is_ascii_char(t[0]) {
            assert(et[0] == t[0] as u8);
        }
        assert(!is_digit_byte(b[s3]));
    }

    // The namespace: nothing for the root, otherwise `/`, the namespace and `,`.
    if n.len() > 0 {
        let lead = if p.ns[0] != '/' { seq!['/'] } else { Seq::<char>::empty() };
        let m = lead + p.ns;
        assert(n == m + seq![',']);
        lemma_encode_concat(m, seq![',']);
        lemma_encode_ascii(',');
        lemma_encode_ascii('/');
        let em = encode_utf8(m);
        assert(en =~= em + seq![44u8]);
        assert(!m.contains(',')) by {
            if m.contains(',') {
                let j = choose|j: int| 0 <= j < m.len() && m[j] == ',';
                if lead.len() > 0 && j == 0 {
                    assert(m[0] == '/');
                } else {
                    assert(p.ns[j - lead.len()] == m[j]);
                }
            }
        }
        lemma_ascii_byte_absent(m, ',');
        assert(m[0] == '/');
        lemma_first_byte(m);
        assert(b[s1] == em[0]);
        assert(b[s1] == 47u8);
        assert forall|k: int| s1 <= k < s2 - 1 implies #[trigger] b[k] != 44u8 by {
            assert(b[k] == em[k - s1]);
        }
        assert(b[s2 - 1] == 44u8);
        lemma_find_byte_at(b, s1, s2 - 1, 44u8);
        assert(spec_ns_end(b) == (s2 - 1, s2));
        assert(b.subrange(s1, s2 - 1) =~= em);
        encode_utf8_decode_utf8(m);
        assert(m == canonical_ns(p.ns));
    } else {
        assert(en =~= Seq::<u8>::empty());
        if s1 < b.len() {
            if a.len() > 0 {
                assert(is_digit_byte(b[s1]));
            } else {
                assert(s1 == s3);
                assert(t[0] != '/');
                assert(b[s1] != 47u8);
            }
        }
        assert(spec_ns_end(b) == (s1, s1));
        assert(canonical_ns(p.ns) == seq!['/']);
    }
    assert(spec_ns_end(b).1 == s2);

    // The ack id and the payload text are read after the namespace.
    lemma_skip_digits_to(b, s2, s3);
    encode_utf8_decode_utf8(t);
    assert(b.subrange(s3, b.len() as int) =~= et);
    match written_ack(p.inner) {
        Some(x) => {
            assert(b.subrange(s2, s3) =~= ea);
            assert(b[s3] == 91u8);
        },
        None => {},
    }
}

/// Parsing the text of a packet gives the packet that the type, ack id and payload text written
/// make, in the canonical namespace: a disconnect or a connect without payload comes back whole,
/// and so does a connect whose JSON payload is already in the canonical form that parsing gives.
pub proof fn lemma_parse_after_serialize(p: PacketView)
    requires
        !p.ns.contains(','),
        acks_not_negative(p.inner),
        payload_separable(p),
    ensures
        ({
            let b = encode_utf8(spec_serialize_text(p));
            &&& spec_parse_terminates(b)
            &&& spec_parse_str(b) == match spec_parse_inner(b[0], written_payload(p), written_ack(p.inner)) {
                Ok(inner) => Ok::<PacketView, ErrorKind>(PacketView { inner, ns: canonical_ns(p.ns) }),
                Err(k) => Err(k),
            }
            &&& (p.inner is Disconnect || p.inner == PacketDataView::Connect(None)) ==> spec_parse_str(b) == Ok::<
                PacketView,
                ErrorKind,
            >(PacketView { inner: p.inner, ns: canonical_ns(p.ns) })
            &&& (p.inner matches PacketDataView::Connect(Some(ValueView::Json(t))) && spec_json_parse(t) matches Some(j)
                && j.text == t && t.len() > 0) ==> spec_parse_str(b) == Ok::<PacketView, ErrorKind>(
                PacketView { inner: p.inner, ns: canonical_ns(p.ns) },
            )
        }),
{
    lemma_parse_reads_back(p);
}

/// Joining elements after a first one: the first, a comma, then the others joined.
proof fn lemma_join_front(x: Seq<char>, items: Seq<Seq<char>>)
    requires
        items.len() > 0,
    ensures
        spec_join(seq![x] + items) == x + seq![','] + spec_join(items),
    decreases items.len(),
{
    let all = seq![x] + items;
    assert(all.len() == items.len() + 1);
    if items.len() == 1 {
        assert(all.drop_last() =~= seq![x]);
        assert(all.last() == items[0]);
        assert(spec_join(seq![x]) == x);
        assert(spec_join(items) == items[0]);
        assert(spec_join(all) == spec_join(all.drop_last()) + seq![','] + all.last());
    } else {
        lemma_join_front(x, items.drop_last());
        assert(all.drop_last() =~= seq![x] + items.drop_last());
        assert(all.last() == items.last());
        assert(spec_join(all) == spec_join(all.drop_last()) + seq![','] + all.last());
        assert(spec_join(items) == spec_join(items.drop_last()) + seq![','] + items.last());
        assert(spec_join(all) =~= x + seq![','] + spec_join(items));
    }
}

/// Parsing the text of an event packet gives the packet back, in the canonical namespace, when
/// the event name's literal reads back as the name and the event's array text reads back as that
/// literal followed by the elements of the data, a non-empty canonical array.
pub(crate) proof fn lemma_event_reads_back(p: PacketView)
    requires
        !p.ns.contains(','),
        acks_not_negative(p.inner),
        p.inner matches PacketDataView::Event(e, ValueView::Json(d), _) && ({
            let q = spec_json_quote(e);
            &&& nonempty_json_array(d)
            &&& spec_json_parse(q) == Some(JsonView { text: q, shape: JsonShapeView::Str(e) })
            &&& spec_json_parse(spec_event_payload(e, d)) == Some(
                JsonView { text: spec_event_payload(e, d), shape: JsonShapeView::Array(seq![q] + json_items(d)) },
            )
            &&& spec_event_payload(e, d) == spec_array_text(seq![q] + json_items(d))
        }),
    ensures
        spec_parse_str(encode_utf8(spec_serialize_text(p))) == Ok::<PacketView, ErrorKind>(
            PacketView { inner: p.inner, ns: canonical_ns(p.ns) },
        ),
{
    if let PacketDataView::Event(e, ValueView::Json(d), ack) = p.inner {
        let q = spec_json_quote(e);
        let items = json_items(d);
        let t = spec_event_payload(e, d);
        assert(d != empty_array());
        assert(is_json_array(d));
        assert(t == seq!['['] + q + seq![','] + d.drop_first());
        assert(written_payload(p) == t);
        assert(t[0] == '[');
        lemma_parse_reads_back(p);
        lemma_parse_after_serialize(p);
        lemma_join_front(q, items);
        let all = seq![q] + items;
        assert(all[0] == q);
        assert(all.drop_first() =~= items);
        // The data is the array text of its elements.
        assert(spec_array_text(all) =~= seq!['['] + q + seq![','] + spec_join(items) + seq![']']);
        assert(d.drop_first() =~= spec_join(items) + seq![']']) by {
            let u = seq!['['] + q + seq![','];
            assert(t =~= u + d.drop_first());
            assert(t =~= u + (spec_join(items) + seq![']']));
            assert(d.drop_first() =~= t.subrange(u.len() as int, t.len() as int));
            assert(spec_join(items) + seq![']'] =~= t.subrange(u.len() as int, t.len() as int));
        }
        assert(d =~= spec_array_text(items)) by {
            assert(d =~= seq![d[0]] + d.drop_first());
        }
    }
}

/// Parsing the text of an acknowledgement whose data is a canonical JSON array gives the packet
/// back, in the canonical namespace.
pub proof fn lemma_ack_reads_back(p: PacketView)
    requires
        !p.ns.contains(','),
        p.inner matches PacketDataView::EventAck(ValueView::Json(d), a) && ({
            &&& a >= 0
            &&& d.len() >= 2
            &&& d[0] == '['
            &&& spec_json_parse(d) matches Some(j) && j.text == d && j.shape is Array
        }),
    ensures
        spec_parse_str(encode_utf8(spec_serialize_text(p))) == Ok::<PacketView, ErrorKind>(
            PacketView { inner: p.inner, ns: canonical_ns(p.ns) },
        ),
{
    if let PacketDataView::EventAck(ValueView::Json(d), a) = p.inner {
        assert(is_json_array(d));
        assert(spec_ack_payload(d) == d);
        assert(written_payload(p) == d);
        lemma_parse_reads_back(p);
        lemma_parse_after_serialize(p);
    }
}

/// The shape of a packet text: it opens with the digit of the packet type; after the type (and
/// the attachment count of a binary packet) comes the namespace, with `/` in front when it lacks
/// one, and a `,` after it, unless the namespace is the root (empty or `/`), which is not written;
/// the attachments sent after the text are those of a binary packet, in order, and none for
/// another packet.
pub proof fn lemma_text_format(p: PacketView)
    ensures
        spec_serialize_text(p)[0] == digit_char(spec_index(p.inner) as int),
        ({
            let k: int = 1 + count_part(p.inner).len() as int;
            let t = spec_serialize_text(p);
            if p.ns.len() > 0 && p.ns != seq!['/'] {
                t.subrange(k, k + canonical_ns(p.ns).len() + 1) == canonical_ns(p.ns) + seq![',']
            } else {
                t.subrange(k, t.len() as int) == opt_ack_text(written_ack(p.inner)) + written_payload(p)
            }
        }),
        spec_serialize_bins(p) == match p.inner {
            PacketDataView::BinaryEvent(_, b, _) => b.bin,
            PacketDataView::BinaryAck(b, _) => b.bin,
            _ => Seq::<Seq<u8>>::empty(),
        },
{
    lemma_text_parts(p);
    let h = seq![digit_char(spec_index(p.inner) as int)];
    let c = count_part(p.inner);
    let n = ns_part(p.ns);
    let rest = opt_ack_text(written_ack(p.inner)) + written_payload(p);
    let t = spec_serialize_text(p);
    assert(t =~= h + c + n + rest);
    let k: int = 1 + c.len() as int;
    if p.ns.len() > 0 && p.ns != seq!['/'] {
        assert(n == canonical_ns(p.ns) + seq![',']);
        assert(t.subrange(k, k + n.len() as int) =~= n);
    } else {
        assert(n =~= Seq::<char>::empty());
        assert(t.subrange(k, t.len() as int) =~= rest);
    }
}

/// Whether a JSON text is a placeholder object.
pub open spec fn is_placeholder_text() -> spec_fn(Seq<char>) -> bool {
    |t: Seq<char>| spec_is_placeholder(t)
}

/// Whether a JSON text is not a placeholder object.
pub open spec fn is_data_text() -> spec_fn(Seq<char>) -> bool {
    |t: Seq<char>| !spec_is_placeholder(t)
}

/// The elements kept as data are those that are not placeholders, and with the placeholders
/// they make up all the elements.
proof fn lemma_keep_partition(items: Seq<Seq<char>>)
    ensures
        spec_keep(items) == items.filter(is_data_text()),
        items.filter(is_placeholder_text()).len() + items.filter(is_data_text()).len() == items.len(),
    decreases items.len(),
{
    reveal(Seq::filter);
    if items.len() > 0 {
        let init = items.drop_last();
        lemma_keep_partition(init);
        assert(items =~= init.push(items.last()));
        crate::adapter::lemma_filter_push(init, items.last(), is_data_text());
        crate::adapter::lemma_filter_push(init, items.last(), is_placeholder_text());
    }
}

/// An incoming binary packet announces one attachment for each placeholder among the elements of
/// its JSON array, and keeps the other elements, in order, as its data; a lone placeholder
/// announces one attachment and leaves `[]`; any other JSON value announces none and is kept.
pub proof fn lemma_incoming_counts_placeholders(d: Seq<char>)
    ensures
        (spec_json_parse(d) is Some && spec_json_parse(d).unwrap().shape is Array) ==> {
            let items = spec_json_parse(d).unwrap().shape->Array_0;
            &&& spec_incoming(d).1 == items.filter(is_placeholder_text()).len()
            &&& spec_incoming(d).0 == spec_array_text(items.filter(is_data_text()))
        },
        (spec_json_parse(d) is Some && !(spec_json_parse(d).unwrap().shape is Array)) ==> spec_incoming(d) == (
            if spec_is_placeholder(d) { (empty_array(), 1nat) } else { (d, 0nat) }
        ),
{
    if let Some(j) = spec_json_parse(d) {
        if let JsonShapeView::Array(items) = j.shape {
            lemma_keep_partition(items);
            let k = spec_keep(items);
            assert(spec_incoming(d) == (spec_array_text(k), (items.len() - k.len()) as nat));
            assert(k.len() <= items.len());
        }
    }
}

/// The text of an acknowledgement: its type, namespace and ack id, then its data as a JSON
/// array: `null` data is sent as the empty array, an array as it is, and any other value as the
/// array of that one value.
pub proof fn lemma_ack_text(ns: Seq<char>, d: Seq<char>, a: i64)
    ensures
        ({
            let t = spec_serialize_text(PacketView { inner: PacketDataView::EventAck(ValueView::Json(d), a), ns });
            let head = seq!['3'] + ns_part(ns) + spec_decimal(a as int);
            &&& d == seq!['n', 'u', 'l', 'l'] ==> t == head + seq!['[', ']']
            &&& (d.len() > 0 && d[0] == '[') ==> t == head + d
            &&& !(d.len() > 0 && d[0] == '[') && d != seq!['n', 'u', 'l', 'l'] ==> t == head + seq!['['] + d + seq![']']
        }),
{
    assert(digit_char(3) == '3');
    assert(null_text() =~= seq!['n', 'u', 'l', 'l']);
    assert(empty_array() =~= seq!['[', ']']);
}

/// The event name is the first element of the event's array, which must be a JSON string; the
/// payload is the array of the other elements, the empty array when there is none. An empty
/// array, or one whose first element is not a string, has no event name.
pub proof fn lemma_event_name_and_payload(data: Seq<char>, name: Seq<char>, ack: Option<i64>)
    requires
        spec_json_parse(data) matches Some(j) && j.shape is Array,
    ensures
        ({
            let items = spec_json_parse(data).unwrap().shape->Array_0;
            &&& (items.len() >= 1 && (spec_json_parse(items[0]) matches Some(f) && f.shape == JsonShapeView::Str(name)))
                ==> {
                &&& spec_deserialize_event(data) == Ok::<(Seq<char>, Seq<char>), ErrorKind>(
                    (name, spec_array_text(items.drop_first())),
                )
                &&& spec_parse_inner(50, data, ack) == Ok::<PacketDataView, ErrorKind>(
                    PacketDataView::Event(name, ValueView::Json(spec_array_text(items.drop_first())), ack),
                )
                &&& items.len() == 1 ==> spec_deserialize_event(data) == Ok::<(Seq<char>, Seq<char>), ErrorKind>(
                    (name, seq!['[', ']']),
                )
            }
            &&& (items.len() == 0 || !(spec_json_parse(items[0]) matches Some(f) && f.shape is Str))
                ==> spec_deserialize_event(data) == Err::<(Seq<char>, Seq<char>), ErrorKind>(ErrorKind::InvalidEventName)
        }),
{
    let items = spec_json_parse(data).unwrap().shape->Array_0;
    if items.len() == 1 {
        assert(items.drop_first() =~= Seq::<Seq<char>>::empty());
        assert(spec_join(Seq::<Seq<char>>::empty()) =~= Seq::<char>::empty());
        assert(spec_array_text(items.drop_first()) =~= seq!['[', ']']);
    }
}

} // verus!
