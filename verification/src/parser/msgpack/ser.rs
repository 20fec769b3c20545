//! Serialization of packets into MessagePack maps, written field by field.
use super::codec::{
    array_header, sint_bytes, spec_read_array_len, str_bytes, uint_bytes, read_array_len,
    write_array_len, write_map_len, write_sint, write_str, write_uint,
};
use crate::text::{is_ascii_char, lemma_encode_ascii_seq};
use crate::packet::{BinaryPacket, Packet, PacketData, PacketDataView, PacketView, Value, ValueView, spec_index};
use vstd::prelude::*;
use vstd::string::StringSliceAdditionalSpecFns;
use vstd::utf8::encode_utf8;

verus! {

/// The key `type`.
pub open spec fn key_type() -> Seq<char> {
    seq!['t', 'y', 'p', 'e']
}

/// The key `nsp`.
pub open spec fn key_nsp() -> Seq<char> {
    seq!['n', 's', 'p']
}

/// The key `data`.
pub open spec fn key_data() -> Seq<char> {
    seq!['d', 'a', 't', 'a']
}

/// The key `id`.
pub open spec fn key_id() -> Seq<char> {
    seq!['i', 'd']
}

/// The key `attachments`.
pub open spec fn key_attachments() -> Seq<char> {
    seq!['a', 't', 't', 'a', 'c', 'h', 'm', 'e', 'n', 't', 's']
}

/// The key `message`.
pub open spec fn key_message() -> Seq<char> {
    seq!['m', 'e', 's', 's', 'a', 'g', 'e']
}

/// A key is ASCII: UTF-8 encodes it byte for character.
proof fn lemma_key_bytes(k: Seq<char>)
    requires
        forall|i: int| 0 <= i < k.len() ==> is_ascii_char(#[trigger] k[i]),
    ensures
        encode_utf8(k).len() == k.len(),
{
    lemma_encode_ascii_seq(k);
}

/// The keys are ASCII.
pub proof fn lemma_keys_bytes()
    ensures
        encode_utf8(key_type()).len() == 4,
        encode_utf8(key_nsp()).len() == 3,
        encode_utf8(key_data()).len() == 4,
        encode_utf8(key_id()).len() == 2,
        encode_utf8(key_attachments()).len() == 11,
        encode_utf8(key_message()).len() == 7,
{
    lemma_key_bytes(key_type());
    lemma_key_bytes(key_nsp());
    lemma_key_bytes(key_data());
    lemma_key_bytes(key_id());
    lemma_key_bytes(key_attachments());
    lemma_key_bytes(key_message());
}

/// Whether a byte is an array marker (fixarray, array16, array32).
pub open spec fn is_array_marker(c: u8) -> bool {
    (0x90 <= c <= 0x9f) || c == 0xdc || c == 0xdd
}

/// The event array `[event, ...data]` when `data` is an array, `[event, data]` otherwise.
pub open spec fn spec_event_data(e: Seq<char>, d: Seq<u8>) -> Seq<u8> {
    if is_array_marker(d[0]) {
        let (n, h) = spec_read_array_len(d, 0).unwrap();
        array_header(n + 1) + str_bytes(e) + d.subrange(h, d.len() as int)
    } else {
        array_header(2) + str_bytes(e) + d
    }
}

/// What [`serialize_event_data`] accepts: a nonempty element whose array header, if it is an
/// array, is whole and leaves room for one more element; an event name that `rmp` can measure.
pub open spec fn event_data_ok(e: Seq<char>, d: Seq<u8>) -> bool {
    &&& d.len() > 0
    &&& encode_utf8(e).len() < 4294967296
    &&& is_array_marker(d[0]) ==> (spec_read_array_len(d, 0) matches Some((n, _)) && n + 1 <= u32::MAX)
}

/// The acknowledgement array: `data` when it is an array, `[]` for nil, `[data]` otherwise.
pub open spec fn spec_ack_data(d: Seq<u8>) -> Seq<u8> {
    if is_array_marker(d[0]) {
        d
    } else if d[0] == 0xc0 {
        array_header(0)
    } else {
        array_header(1) + d
    }
}

/// The `id` entry.
pub open spec fn id_entry(id: i64) -> Seq<u8> {
    str_bytes(key_id()) + sint_bytes(id as int)
}

/// The `id` entry when there is an id.
pub open spec fn opt_id_entry(id: Option<i64>) -> Seq<u8> {
    match id {
        Some(i) => id_entry(i),
        None => Seq::<u8>::empty(),
    }
}

/// The `attachments` entry.
pub open spec fn attachments_entry(n: usize) -> Seq<u8> {
    str_bytes(key_attachments()) + uint_bytes(n as int)
}

/// The number of entries of the map of a packet.
pub open spec fn spec_map_len(d: PacketDataView) -> int {
    let extra = match d {
        PacketDataView::Connect(Some(_)) => 1int,
        PacketDataView::Connect(None) => 0,
        PacketDataView::Disconnect => 0,
        PacketDataView::Event(_, _, Some(_)) => 2,
        PacketDataView::Event(_, _, None) => 1,
        PacketDataView::EventAck(..) => 2,
        PacketDataView::ConnectError(_) => 1,
        PacketDataView::BinaryEvent(_, _, Some(_)) => 3,
        PacketDataView::BinaryEvent(_, _, None) => 2,
        PacketDataView::BinaryAck(..) => 3,
    };
    2 + extra
}

/// The bytes of a MessagePack value (empty for a JSON value).
pub open spec fn msgpack_of(v: ValueView) -> Seq<u8> {
    match v {
        ValueView::MsgPack(d, _) => d,
        ValueView::Json(_) => Seq::<u8>::empty(),
    }
}

/// The attachment count of a MessagePack value (0 for a JSON value).
pub open spec fn attachments_of(v: ValueView) -> usize {
    match v {
        ValueView::MsgPack(_, n) => n,
        ValueView::Json(_) => 0,
    }
}

/// The entries of a packet after `type` and `nsp`.
pub open spec fn spec_body(d: PacketDataView) -> Seq<u8> {
    let data = str_bytes(key_data());
    match d {
        PacketDataView::Event(e, v, id) => data + spec_event_data(e, msgpack_of(v)) + opt_id_entry(id),
        PacketDataView::BinaryEvent(e, b, id) => data + spec_event_data(e, msgpack_of(b.data))
            + attachments_entry(attachments_of(b.data)) + opt_id_entry(id),
        PacketDataView::EventAck(v, id) => data + spec_ack_data(msgpack_of(v)) + id_entry(id),
        PacketDataView::BinaryAck(b, id) => data + spec_ack_data(msgpack_of(b.data))
            + attachments_entry(attachments_of(b.data)) + id_entry(id),
        PacketDataView::Connect(Some(v)) => data + msgpack_of(v),
        PacketDataView::ConnectError(s) => data + map_header_one() + str_bytes(key_message()) + str_bytes(s),
        _ => Seq::<u8>::empty(),
    }
}

/// The header of a map of one entry.
pub open spec fn map_header_one() -> Seq<u8> {
    seq![0x81u8]
}

/// A packet as a MessagePack map: `type`, `nsp`, then `data`, `attachments` and `id` as the
/// packet has them.
pub open spec fn spec_serialize_packet(p: PacketView) -> Seq<u8> {
    crate::parser::msgpack::codec::map_header(spec_map_len(p.inner)) + str_bytes(key_type())
        + uint_bytes(spec_index(p.inner) as int) + str_bytes(key_nsp()) + str_bytes(p.ns) + spec_body(p.inner)
}

/// The packets this serializer accepts: every payload is a MessagePack value, the event and
/// acknowledgement payloads are nonempty (an event's as [`event_data_ok`] says), and every text
/// is short enough for a MessagePack string header.
pub open spec fn spec_msgpack_serializable(p: PacketView) -> bool {
    &&& encode_utf8(p.ns).len() < 4294967296
    &&& match p.inner {
        PacketDataView::Connect(Some(v)) => v is MsgPack,
        PacketDataView::Event(e, v, _) => v is MsgPack && event_data_ok(e, msgpack_of(v)),
        PacketDataView::BinaryEvent(e, b, _) => b.data is MsgPack && event_data_ok(e, msgpack_of(b.data)),
        PacketDataView::EventAck(v, _) => v is MsgPack && msgpack_of(v).len() > 0,
        PacketDataView::BinaryAck(b, _) => b.data is MsgPack && msgpack_of(b.data).len() > 0,
        PacketDataView::ConnectError(s) => encode_utf8(s).len() < 4294967296,
        _ => true,
    }
}

/// Appends `src[start..end]` to `buf`.
pub(crate) fn push_bytes(buf: &mut Vec<u8>, src: &[u8], start: usize, end: usize)
    requires
        start <= end <= src@.len(),
    ensures
        final(buf)@ == old(buf)@ + src@.subrange(start as int, end as int),
{
    let mut i = start;
    while i < end
        invariant
            start <= i <= end <= src@.len(),
            buf@ == old(buf)@ + src@.subrange(start as int, i as int),
        decreases end - i,
    {
        buf.push(src[i]);
        assert(src@.subrange(start as int, i + 1) =~= src@.subrange(start as int, i as int).push(src@[i as int]));
        i = i + 1;
    }
}

/// Serialize event data in place to the following form: `[event, ...data]` if data is an array.
/// Or `[event, data]` if data is not an array.
/// ## Params:
/// - `event`: the event name
/// - `data`: preserialized msgpack data
/// - `buff`: a output buffer to write into
pub fn serialize_event_data(event: &str, data: &[u8], buff: &mut Vec<u8>)
    requires
        event_data_ok(event@, data@),
    ensures
        final(buff)@ == old(buff)@ + spec_event_data(event@, data@),
{
    let c = data[0];
    if (0x90 <= c && c <= 0x9f) || c == 0xdc || c == 0xdd {
        match read_array_len(data, 0) {
            Some((n, left)) => {
                write_array_len(buff, n + 1);
                write_str(buff, event);
                push_bytes(buff, data, data.len() - left, data.len());
            },
            None => {},
        }
    } else {
        write_array_len(buff, 2);
        write_str(buff, event);
        push_bytes(buff, data, 0, data.len());
        assert(data@.subrange(0, data@.len() as int) =~= data@);
    }
}

/// Writes the `id` entry.
fn serialize_id(buff: &mut Vec<u8>, id: i64)
    ensures
        final(buff)@ == old(buff)@ + id_entry(id),
{
    proof {
        reveal_strlit("id");
        lemma_keys_bytes();
    }
    assert("id"@ =~= key_id());
    write_str(buff, "id");
    write_sint(buff, id);
}

/// Writes the `attachments` entry.
fn serialize_attachments(buff: &mut Vec<u8>, len: usize)
    ensures
        final(buff)@ == old(buff)@ + attachments_entry(len),
{
    proof {
        reveal_strlit("attachments");
        lemma_keys_bytes();
    }
    assert("attachments"@ =~= key_attachments());
    write_str(buff, "attachments");
    write_uint(buff, len as u64);
}

/// Serialize ack data in place to the following form: `[data]`
pub fn serialize_ack_data(data: &[u8], buff: &mut Vec<u8>)
    requires
        data@.len() > 0,
    ensures
        final(buff)@ == old(buff)@ + spec_ack_data(data@),
{
    let c = data[0];
    if (0x90 <= c && c <= 0x9f) || c == 0xdc || c == 0xdd {
        push_bytes(buff, data, 0, data.len());
        assert(data@.subrange(0, data@.len() as int) =~= data@);
    } else if c == 0xc0 {
        write_array_len(buff, 0);
    } else {
        write_array_len(buff, 1);
        push_bytes(buff, data, 0, data.len());
        assert(data@.subrange(0, data@.len() as int) =~= data@);
    }
}

/// The number of entries of the map of a packet: `type` and `nsp`, then `data`, `attachments`
/// and `id` as the packet has them.
pub fn get_packet_map_len(packet: &Packet) -> (n: u32)
    ensures
        n == spec_map_len(packet@.inner),
{
    let extra: u32 = match &packet.inner {
        PacketData::Connect(Some(_)) => 1,
        PacketData::Connect(None) => 0,
        PacketData::Disconnect => 0,
        PacketData::Event(_, _, Some(_)) => 2,
        PacketData::Event(_, _, None) => 1,
        PacketData::EventAck(_, _) => 2,
        PacketData::ConnectError(_) => 1,
        PacketData::BinaryEvent(_, _, Some(_)) => 3,
        PacketData::BinaryEvent(_, _, None) => 2,
        PacketData::BinaryAck(_, _) => 3,
    };
    2 + extra
}

/// Manual packet serialization.
pub fn serialize_packet(packet: Packet) -> (buff: Vec<u8>)
    requires
        spec_msgpack_serializable(packet@),
    ensures
        buff@ == spec_serialize_packet(packet@),
{
    proof {
        reveal_strlit("type");
        reveal_strlit("nsp");
        reveal_strlit("data");
        reveal_strlit("message");
        lemma_keys_bytes();
    }
    assert("type"@ =~= key_type());
    assert("nsp"@ =~= key_nsp());
    assert("data"@ =~= key_data());
    assert("message"@ =~= key_message());
    let ghost p = packet@;
    let mut buff: Vec<u8> = Vec::new();
    let map_len = get_packet_map_len(&packet);
    write_map_len(&mut buff, map_len);
    write_str(&mut buff, "type");
    write_uint(&mut buff, packet.inner.index() as u64);
    write_str(&mut buff, "nsp");
    write_str(&mut buff, packet.ns.as_str());
    let ghost head = buff@;
    match packet.inner {
        PacketData::Event(event, data, id) => {
            write_str(&mut buff, "data");
            if let Value::MsgPack(m) = data {
                serialize_event_data(event.as_str(), m.data.as_slice(), &mut buff);
            }
            if let Some(id) = id {
                serialize_id(&mut buff, id);
            }
        },
        PacketData::BinaryEvent(event, bin, id) => {
            write_str(&mut buff, "data");
            if let Value::MsgPack(m) = bin.data {
                serialize_event_data(event.as_str(), m.data.as_slice(), &mut buff);
                serialize_attachments(&mut buff, m.attachments);
            }
            if let Some(id) = id {
                serialize_id(&mut buff, id);
            }
        },
        PacketData::EventAck(data, id) => {
            write_str(&mut buff, "data");
            if let Value::MsgPack(m) = data {
                serialize_ack_data(m.data.as_slice(), &mut buff);
            }
            serialize_id(&mut buff, id);
        },
        PacketData::BinaryAck(bin, id) => {
            write_str(&mut buff, "data");
            if let Value::MsgPack(m) = bin.data {
                serialize_ack_data(m.data.as_slice(), &mut buff);
                serialize_attachments(&mut buff, m.attachments);
            }
            serialize_id(&mut buff, id);
        },
        PacketData::Connect(Some(data)) => {
            write_str(&mut buff, "data");
            if let Value::MsgPack(m) = data {
                push_bytes(&mut buff, m.data.as_slice(), 0, m.data.len());
                assert(m.data@.subrange(0, m.data@.len() as int) =~= m.data@);
            }
        },
        PacketData::ConnectError(data) => {
            write_str(&mut buff, "data");
            write_map_len(&mut buff, 1);
            write_str(&mut buff, "message");
            write_str(&mut buff, data.as_str());
        },
        _ => {},
    }
    assert(buff@ =~= head + spec_body(p.inner));
    buff
}

} // verus!
