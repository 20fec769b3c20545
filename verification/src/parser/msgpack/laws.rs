//! What a MessagePack packet read gives back of a packet write.
use super::codec::{
    array_header, be16, be32, be64, be_value, map_header, read_fixed, sint_bytes, span, spec_read_array_len,
    spec_read_int, spec_read_map_len, spec_read_str_len, str_bytes, str_header, uint_bytes,
};
use super::de::{
    init_fields, lemma_skip_bounds, lemma_skips_bounds, no_bins, skip_element, skip_elements, spec_decode,
    spec_key_value, spec_key_values, spec_packet_of, spec_read_data_event, spec_read_str, spec_error_message,
    spec_message_entries, spec_message_entry, Fields, Step,
};
use super::ser::{
    attachments_entry, id_entry, is_array_marker, key_attachments, key_data, key_id, key_message, key_nsp,
    key_type, map_header_one, opt_id_entry, spec_ack_data, spec_body, spec_event_data, spec_map_len,
    spec_msgpack_serializable, spec_serialize_packet, event_data_ok, lemma_keys_bytes,
};
use crate::packet::{spec_index, BinaryPacketView, PacketDataView, PacketView, ValueView};
use vstd::prelude::*;
use vstd::utf8::{decode_utf8, encode_utf8, valid_utf8};

verus! {

// ---------------------------------------------------------------------------------------------
// Big-endian integers read back
// ---------------------------------------------------------------------------------------------

proof fn lemma_be_value2(s: Seq<u8>)
    requires
        s.len() == 2,
    ensures
        be_value(s) == s[0] * 256 + s[1],
{
    reveal_with_fuel(be_value, 3);
    assert(s.drop_last().drop_last() =~= Seq::<u8>::empty());
    assert(s.drop_last().last() == s[0]);
}

proof fn lemma_be_value4(s: Seq<u8>)
    requires
        s.len() == 4,
    ensures
        be_value(s) == ((s[0] * 256 + s[1]) * 256 + s[2]) * 256 + s[3],
{
    reveal_with_fuel(be_value, 5);
    assert(s.drop_last().drop_last().drop_last().drop_last() =~= Seq::<u8>::empty());
    assert(s.drop_last().drop_last().drop_last().last() == s[0]);
    assert(s.drop_last().drop_last().last() == s[1]);
    assert(s.drop_last().last() == s[2]);
}

/// Appending four bytes shifts the value by 32 bits.
proof fn lemma_be_value_append4(a: Seq<u8>, c: Seq<u8>)
    requires
        c.len() == 4,
    ensures
        be_value(a + c) == be_value(a) * 4294967296 + be_value(c),
{
    reveal_with_fuel(be_value, 5);
    let s = a + c;
    assert(s.drop_last().drop_last().drop_last().drop_last() =~= a);
    assert(s.drop_last().drop_last().drop_last().last() == c[0]);
    assert(s.drop_last().drop_last().last() == c[1]);
    assert(s.drop_last().last() == c[2]);
    assert(s.last() == c[3]);
    lemma_be_value4(c);
}

/// The two bytes of a number below 2^16 read back as the number.
pub proof fn lemma_be16_value(n: int)
    requires
        0 <= n < 65536,
    ensures
        be_value(be16(n)) == n,
{
    lemma_be_value2(be16(n));
    let x = n as u32;
    assert((((x / 256) % 256) as u8) as u32 * 256 + ((x % 256) as u8) as u32 == x) by (bit_vector)
        requires
            x < 65536,
    ;
}

/// The four bytes of a number read back as the number modulo 2^32.
pub proof fn lemma_be32_value(n: int)
    requires
        0 <= n < 18446744073709551616,
    ensures
        be_value(be32(n)) == n % 4294967296,
{
    lemma_be_value4(be32(n));
    let x = n as u64;
    assert(((((((x / 16777216) % 256) as u8) as u64 * 256 + (((x / 65536) % 256) as u8) as u64) * 256 + (((x
        / 256) % 256) as u8) as u64) * 256 + ((x % 256) as u8) as u64) == x % 4294967296) by (bit_vector);
}

/// The eight bytes of a number below 2^64 read back as the number.
pub proof fn lemma_be64_value(n: int)
    requires
        0 <= n < 18446744073709551616,
    ensures
        be_value(be64(n)) == n,
{
    let hi = n / 4294967296;
    lemma_be_value_append4(be32(hi), be32(n));
    lemma_be32_value(hi);
    lemma_be32_value(n);
    let x = n as u64;
    assert((x / 4294967296) % 4294967296 * 4294967296 + x % 4294967296 == x) by (bit_vector);
}

// ---------------------------------------------------------------------------------------------
// Headers and scalars read back
// ---------------------------------------------------------------------------------------------

/// The bytes `x` stand in `b` from `p`.
pub open spec fn at(b: Seq<u8>, p: int, x: Seq<u8>) -> bool {
    0 <= p && p + x.len() <= b.len() && b.subrange(p, p + x.len()) == x
}

proof fn lemma_at_index(b: Seq<u8>, p: int, x: Seq<u8>, i: int)
    requires
        at(b, p, x),
        0 <= i < x.len(),
    ensures
        b[p + i] == x[i],
{
    assert(b.subrange(p, p + x.len())[i] == b[p + i]);
}

proof fn lemma_at_sub(b: Seq<u8>, p: int, x: Seq<u8>, i: int, j: int)
    requires
        at(b, p, x),
        0 <= i <= j <= x.len(),
    ensures
        b.subrange(p + i, p + j) == x.subrange(i, j),
{
    assert(b.subrange(p + i, p + j) =~= b.subrange(p, p + x.len()).subrange(i, j));
}

proof fn lemma_be_value1(s: Seq<u8>)
    requires
        s.len() == 1,
    ensures
        be_value(s) == s[0],
{
    reveal_with_fuel(be_value, 2);
    assert(s.drop_last() =~= Seq::<u8>::empty());
}

/// A length header of the shortest form reads back as its length.
proof fn lemma_read_len_header(b: Seq<u8>, p: int, n: int, fix: u8, m16: u8, m32: u8, h: Seq<u8>)
    requires
        0 <= n < 4294967296,
        (fix == 0x80 && m16 == 0xde) || (fix == 0x90 && m16 == 0xdc),
        m32 == m16 + 1,
        h == (if n < 16 {
            seq![(fix + n) as u8]
        } else if n < 65536 {
            seq![m16] + be16(n)
        } else {
            seq![m32] + be32(n)
        }),
        at(b, p, h),
    ensures
        super::codec::read_len_header(b, p, fix, 15, m16, m32) == Some((n, p + h.len())),
{
    lemma_at_index(b, p, h, 0);
    if n < 16 {
    } else if n < 65536 {
        lemma_at_sub(b, p, h, 1, 3);
        assert(h.subrange(1, 3) =~= be16(n));
        lemma_be16_value(n);
    } else {
        lemma_at_sub(b, p, h, 1, 5);
        assert(h.subrange(1, 5) =~= be32(n));
        lemma_be32_value(n);
    }
}

/// A map header reads back as its number of entries.
pub proof fn lemma_read_map_header(b: Seq<u8>, p: int, n: int)
    requires
        0 <= n < 4294967296,
        at(b, p, map_header(n)),
    ensures
        spec_read_map_len(b, p) == Some((n, p + map_header(n).len())),
{
    lemma_read_len_header(b, p, n, 0x80, 0xde, 0xdf, map_header(n));
}

/// An array header reads back as its number of elements.
pub proof fn lemma_read_array_header(b: Seq<u8>, p: int, n: int)
    requires
        0 <= n < 4294967296,
        at(b, p, array_header(n)),
    ensures
        spec_read_array_len(b, p) == Some((n, p + array_header(n).len())),
{
    lemma_read_len_header(b, p, n, 0x90, 0xdc, 0xdd, array_header(n));
}

/// A string header reads back as its byte length.
pub proof fn lemma_read_str_header(b: Seq<u8>, p: int, n: int)
    requires
        0 <= n < 4294967296,
        at(b, p, str_header(n)),
    ensures
        spec_read_str_len(b, p) == Some((n, p + str_header(n).len())),
{
    let h = str_header(n);
    lemma_at_index(b, p, h, 0);
    if n < 32 {
    } else if n < 256 {
        lemma_at_index(b, p, h, 1);
    } else if n < 65536 {
        lemma_at_sub(b, p, h, 1, 3);
        assert(h.subrange(1, 3) =~= be16(n));
        lemma_be16_value(n);
    } else {
        lemma_at_sub(b, p, h, 1, 5);
        assert(h.subrange(1, 5) =~= be32(n));
        lemma_be32_value(n);
    }
}

/// A string reads back as its text.
pub proof fn lemma_read_str(b: Seq<u8>, p: int, s: Seq<char>)
    requires
        encode_utf8(s).len() < 4294967296,
        at(b, p, str_bytes(s)),
    ensures
        spec_read_str(b, p) == Step::Done((s, p + str_bytes(s).len())),
{
    let n = encode_utf8(s).len() as int;
    let h = str_header(n);
    assert(str_bytes(s).subrange(0, h.len() as int) =~= h);
    lemma_at_sub(b, p, str_bytes(s), 0, h.len() as int);
    assert(at(b, p, h));
    lemma_read_str_header(b, p, n);
    lemma_at_sub(b, p, str_bytes(s), h.len() as int, str_bytes(s).len() as int);
    assert(str_bytes(s).subrange(h.len() as int, str_bytes(s).len() as int) =~= encode_utf8(s));
    vstd::utf8::encode_utf8_valid_utf8(s);
    vstd::utf8::encode_utf8_decode_utf8(s);
}

/// An unsigned integer reads back as its value.
pub proof fn lemma_read_uint(b: Seq<u8>, p: int, v: int)
    requires
        0 <= v < 18446744073709551616,
        at(b, p, uint_bytes(v)),
    ensures
        spec_read_int(b, p) == Some((v, p + uint_bytes(v).len())),
{
    let x = uint_bytes(v);
    lemma_at_index(b, p, x, 0);
    if v < 128 {
    } else if v < 256 {
        lemma_at_sub(b, p, x, 1, 2);
        lemma_be_value1(b.subrange(p + 1, p + 2));
    } else if v < 65536 {
        lemma_at_sub(b, p, x, 1, 3);
        assert(x.subrange(1, 3) =~= be16(v));
        lemma_be16_value(v);
    } else if v < 4294967296 {
        lemma_at_sub(b, p, x, 1, 5);
        assert(x.subrange(1, 5) =~= be32(v));
        lemma_be32_value(v);
    } else {
        lemma_at_sub(b, p, x, 1, 9);
        assert(x.subrange(1, 9) =~= be64(v));
        lemma_be64_value(v);
    }
}

/// A signed integer reads back as its value.
pub proof fn lemma_read_sint(b: Seq<u8>, p: int, v: int)
    requires
        -9223372036854775808 <= v < 9223372036854775808,
        at(b, p, sint_bytes(v)),
    ensures
        spec_read_int(b, p) == Some((v, p + sint_bytes(v).len())),
{
    let x = sint_bytes(v);
    if v >= 0 {
        lemma_read_uint(b, p, v);
    } else {
        lemma_at_index(b, p, x, 0);
        if v >= -32 {
        } else if v >= -128 {
            lemma_at_sub(b, p, x, 1, 2);
            lemma_be_value1(b.subrange(p + 1, p + 2));
        } else if v >= -32768 {
            lemma_at_sub(b, p, x, 1, 3);
            assert(x.subrange(1, 3) =~= be16(v + 65536));
            lemma_be16_value(v + 65536);
        } else if v >= -2147483648 {
            lemma_at_sub(b, p, x, 1, 5);
            assert(x.subrange(1, 5) =~= be32(v + 4294967296));
            lemma_be32_value(v + 4294967296);
        } else {
            lemma_at_sub(b, p, x, 1, 9);
            assert(x.subrange(1, 9) =~= be64(v + 18446744073709551616));
            lemma_be64_value(v + 18446744073709551616);
        }
    }
}

// ---------------------------------------------------------------------------------------------
// Skipping reads only the bytes of the element
// ---------------------------------------------------------------------------------------------

/// `b1` from `p1` and `b2` from `p2` hold the same `k` bytes.
pub open spec fn same_at(b1: Seq<u8>, p1: int, b2: Seq<u8>, p2: int, k: int) -> bool {
    &&& 0 <= p1 && p1 + k <= b1.len()
    &&& 0 <= p2 && p2 + k <= b2.len()
    &&& forall|i: int| 0 <= i < k ==> #[trigger] b1[p1 + i] == b2[p2 + i]
}

proof fn lemma_same_sub(b1: Seq<u8>, p1: int, b2: Seq<u8>, p2: int, k: int, i: int, j: int)
    requires
        same_at(b1, p1, b2, p2, k),
        0 <= i <= j <= k,
    ensures
        b1.subrange(p1 + i, p1 + j) == b2.subrange(p2 + i, p2 + j),
{
    assert forall|t: int| 0 <= t < j - i implies #[trigger] b1.subrange(p1 + i, p1 + j)[t] == b2.subrange(p2 + i, p2 + j)[t] by {
        assert(b1[p1 + (i + t)] == b2[p2 + (i + t)]);
    }
    assert(b1.subrange(p1 + i, p1 + j) =~= b2.subrange(p2 + i, p2 + j));
}

proof fn lemma_same_shrink(b1: Seq<u8>, p1: int, b2: Seq<u8>, p2: int, k: int, i: int, j: int)
    requires
        same_at(b1, p1, b2, p2, k),
        0 <= i <= j <= k,
    ensures
        same_at(b1, p1 + i, b2, p2 + i, j - i),
{
    assert forall|t: int| 0 <= t < j - i implies #[trigger] b1[p1 + i + t] == b2[p2 + i + t] by {
        assert(b1[p1 + (i + t)] == b2[p2 + (i + t)]);
    }
}

/// An element skipped in one buffer is skipped the same way wherever its bytes stand.
pub proof fn lemma_skip_frame(b1: Seq<u8>, p1: int, b2: Seq<u8>, p2: int, k: int)
    requires
        same_at(b1, p1, b2, p2, k),
        skip_element(b1, p1) == Step::Done(p1 + k),
    ensures
        skip_element(b2, p2) == Step::Done(p2 + k),
    decreases b1.len() - p1, 0int, 0int,
{
    lemma_skip_bounds(b1, p1);
    assert(b1[p1 + 0] == b2[p2 + 0]);
    let c = b1[p1];
    if c <= 0x7f || c >= 0xe0 || (0xc0 <= c <= 0xc3) {
    } else if c <= 0x8f {
        lemma_skips_bounds(b1, p1 + 1, 2 * (c - 0x80));
        lemma_same_shrink(b1, p1, b2, p2, k, 1, k);
        lemma_skips_frame(b1, p1 + 1, b2, p2 + 1, 2 * (c - 0x80), k - 1);
    } else if c <= 0x9f {
        lemma_skips_bounds(b1, p1 + 1, c - 0x90);
        lemma_same_shrink(b1, p1, b2, p2, k, 1, k);
        lemma_skips_frame(b1, p1 + 1, b2, p2 + 1, c - 0x90, k - 1);
    } else if c <= 0xbf {
    } else if c == 0xc4 || c == 0xc7 || c == 0xd9 {
        super::de::lemma_be_value_nonneg(b1.subrange(p1 + 1, p1 + 2));
        lemma_same_sub(b1, p1, b2, p2, k, 1, 2);
    } else if c == 0xc5 || c == 0xc8 || c == 0xda {
        super::de::lemma_be_value_nonneg(b1.subrange(p1 + 1, p1 + 3));
        lemma_same_sub(b1, p1, b2, p2, k, 1, 3);
    } else if c == 0xc6 || c == 0xc9 || c == 0xdb {
        super::de::lemma_be_value_nonneg(b1.subrange(p1 + 1, p1 + 5));
        lemma_same_sub(b1, p1, b2, p2, k, 1, 5);
    } else if c == 0xdc || c == 0xde {
        let n = be_value(b1.subrange(p1 + 1, p1 + 3));
        let m = if c == 0xdc { n } else { 2 * n };
        lemma_skips_bounds(b1, p1 + 3, m);
        lemma_same_sub(b1, p1, b2, p2, k, 1, 3);
        lemma_same_shrink(b1, p1, b2, p2, k, 3, k);
        lemma_skips_frame(b1, p1 + 3, b2, p2 + 3, m, k - 3);
    } else if c == 0xdd || c == 0xdf {
        let n = be_value(b1.subrange(p1 + 1, p1 + 5));
        let m = if c == 0xdd { n } else { 2 * n };
        lemma_skips_bounds(b1, p1 + 5, m);
        lemma_same_sub(b1, p1, b2, p2, k, 1, 5);
        lemma_same_shrink(b1, p1, b2, p2, k, 5, k);
        lemma_skips_frame(b1, p1 + 5, b2, p2 + 5, m, k - 5);
    }
}

/// Consecutive elements skipped in one buffer are skipped the same way wherever their bytes
/// stand.
pub proof fn lemma_skips_frame(b1: Seq<u8>, p1: int, b2: Seq<u8>, p2: int, n: int, k: int)
    requires
        same_at(b1, p1, b2, p2, k),
        skip_elements(b1, p1, n) == Step::Done(p1 + k),
    ensures
        skip_elements(b2, p2, n) == Step::Done(p2 + k),
    decreases b1.len() - p1, 1int, n,
{
    if n > 0 {
        lemma_skip_bounds(b1, p1);
        if let Step::Done(q1) = skip_element(b1, p1) {
            let k1 = q1 - p1;
            lemma_skips_bounds(b1, q1, n - 1);
            lemma_same_shrink(b1, p1, b2, p2, k, 0, k1);
            lemma_skip_frame(b1, p1, b2, p2, k1);
            lemma_same_shrink(b1, p1, b2, p2, k, k1, k);
            lemma_skips_frame(b1, q1, b2, p2 + k1, n - 1, k - k1);
        }
    }
}

// ---------------------------------------------------------------------------------------------
// Elements written and skipped
// ---------------------------------------------------------------------------------------------

/// One whole MessagePack element: skipping from its start reaches its end.
pub open spec fn is_element(d: Seq<u8>) -> bool {
    skip_element(d, 0) == Step::Done(d.len() as int)
}

/// A whole array element whose header is the shortest for its length, with room for one more
/// element.
pub open spec fn is_short_array(d: Seq<u8>) -> bool {
    &&& is_element(d)
    &&& spec_read_array_len(d, 0) matches Some((n, h))
    &&& d.subrange(0, h) == array_header(n)
    &&& n + 1 <= u32::MAX
}

/// A whole array element.
pub open spec fn is_array_element(d: Seq<u8>) -> bool {
    is_element(d) && is_array_marker(d[0])
}

proof fn lemma_at_split(b: Seq<u8>, p: int, x: Seq<u8>, y: Seq<u8>)
    requires
        at(b, p, x + y),
    ensures
        at(b, p, x),
        at(b, p + x.len(), y),
{
    lemma_at_sub(b, p, x + y, 0, x.len() as int);
    assert((x + y).subrange(0, x.len() as int) =~= x);
    lemma_at_sub(b, p, x + y, x.len() as int, (x + y).len() as int);
    assert((x + y).subrange(x.len() as int, (x + y).len() as int) =~= y);
}

proof fn lemma_at_same(b: Seq<u8>, p: int, x: Seq<u8>)
    requires
        at(b, p, x),
    ensures
        same_at(x, 0, b, p, x.len() as int),
{
    assert forall|i: int| 0 <= i < x.len() implies #[trigger] x[0 + i] == b[p + i] by {
        lemma_at_index(b, p, x, i);
    }
}

/// An element written at `p` is skipped to its end.
proof fn lemma_skip_at(b: Seq<u8>, p: int, x: Seq<u8>)
    requires
        at(b, p, x),
        is_element(x),
    ensures
        skip_element(b, p) == Step::Done(p + x.len()),
{
    lemma_at_same(b, p, x);
    lemma_skip_frame(x, 0, b, p, x.len() as int);
}

/// A string is skipped to its end.
proof fn lemma_skip_str(b: Seq<u8>, p: int, s: Seq<char>)
    requires
        encode_utf8(s).len() < 4294967296,
        at(b, p, str_bytes(s)),
    ensures
        skip_element(b, p) == Step::Done(p + str_bytes(s).len()),
{
    let n = encode_utf8(s).len() as int;
    let h = str_header(n);
    lemma_at_split(b, p, h, encode_utf8(s));
    lemma_at_index(b, p, h, 0);
    lemma_read_str_header(b, p, n);
    if n >= 256 && n < 65536 {
        lemma_at_sub(b, p, h, 1, 3);
        assert(h.subrange(1, 3) =~= be16(n));
        lemma_be16_value(n);
    } else if n >= 65536 {
        lemma_at_sub(b, p, h, 1, 5);
        assert(h.subrange(1, 5) =~= be32(n));
        lemma_be32_value(n);
    } else if n >= 32 {
        lemma_at_sub(b, p, h, 1, 2);
        lemma_be_value1(b.subrange(p + 1, p + 2));
        lemma_at_index(b, p, h, 1);
    }
}

/// An array header followed by its elements is skipped to the end of the elements.
proof fn lemma_skip_array_at(b: Seq<u8>, p: int, m: int, q: int)
    requires
        0 <= m < 4294967296,
        at(b, p, array_header(m)),
        skip_elements(b, p + array_header(m).len(), m) == Step::Done(q),
    ensures
        skip_element(b, p) == Step::Done(q),
{
    let h = array_header(m);
    lemma_at_index(b, p, h, 0);
    if m >= 16 && m < 65536 {
        lemma_at_sub(b, p, h, 1, 3);
        assert(h.subrange(1, 3) =~= be16(m));
        lemma_be16_value(m);
    } else if m >= 65536 {
        lemma_at_sub(b, p, h, 1, 5);
        assert(h.subrange(1, 5) =~= be32(m));
        lemma_be32_value(m);
    }
}

/// The elements of a whole array element reach its end.
proof fn lemma_array_elements(d: Seq<u8>)
    requires
        is_element(d),
        spec_read_array_len(d, 0) is Some,
    ensures
        ({
            let (n, h) = spec_read_array_len(d, 0).unwrap();
            skip_elements(d, h, n) == Step::Done(d.len() as int)
        }),
{
}

/// An array header holds a length below 2^32 and ends within the bytes.
proof fn lemma_array_len_range(d: Seq<u8>)
    requires
        spec_read_array_len(d, 0) is Some,
    ensures
        ({
            let (n, h) = spec_read_array_len(d, 0).unwrap();
            0 <= n < 4294967296 && 1 <= h <= d.len()
        }),
{
    if d[0] == 0xdc {
        lemma_be_value2(d.subrange(1, 3));
    } else if d[0] == 0xdd {
        lemma_be_value4(d.subrange(1, 5));
    }
}

/// The event array written for an array is one whole element.
proof fn lemma_event_data_element(e: Seq<char>, d: Seq<u8>)
    requires
        is_short_array(d),
        encode_utf8(e).len() < 4294967296,
    ensures
        is_element(spec_event_data(e, d)),
{
    let (n, h) = spec_read_array_len(d, 0).unwrap();
    let ed = spec_event_data(e, d);
    lemma_array_len_range(d);
    assert(d[0] == d.subrange(0, h)[0]);
    assert(is_array_marker(d[0]));
    let hd = array_header(n + 1);
    let sb = str_bytes(e);
    let rest = d.subrange(h, d.len() as int);
    assert(ed == hd + sb + rest);
    assert(at(ed, 0, ed)) by {
        assert(ed.subrange(0, ed.len() as int) =~= ed);
    }
    lemma_at_split(ed, 0, hd + sb, rest);
    lemma_at_split(ed, 0, hd, sb);
    let p1 = hd.len() as int;
    let p2 = (hd.len() + sb.len()) as int;
    lemma_skip_str(ed, p1, e);
    assert(skip_element(ed, p1) == Step::Done(p2));
    lemma_array_elements(d);
    lemma_skips_bounds(d, h, n);
    assert(same_at(d, h, ed, p2, d.len() - h)) by {
        assert forall|i: int| 0 <= i < d.len() - h implies #[trigger] d[h + i] == ed[p2 + i] by {
            lemma_at_index(ed, p2, rest, i);
        }
    }
    lemma_skips_frame(d, h, ed, p2, n, d.len() - h);
    assert(p2 + (d.len() - h) == ed.len());
    assert(skip_elements(ed, p2, n) == Step::Done(ed.len() as int));
    assert(p1 < p2 <= ed.len());
    assert(skip_elements(ed, p1, n + 1) == Step::Done(ed.len() as int));
    lemma_skip_array_at(ed, 0, n + 1, ed.len() as int);
}

/// The event array written for an array reads back as the event name and the array.
proof fn lemma_event_data_read(e: Seq<char>, d: Seq<u8>)
    requires
        is_short_array(d),
        encode_utf8(e).len() < 4294967296,
    ensures
        spec_read_data_event(spec_event_data(e, d)) == Step::Done((e, d)),
{
    let (n, h) = spec_read_array_len(d, 0).unwrap();
    let ed = spec_event_data(e, d);
    lemma_array_len_range(d);
    assert(d[0] == d.subrange(0, h)[0]);
    assert(is_array_marker(d[0]));
    let hd = array_header(n + 1);
    let sb = str_bytes(e);
    let rest = d.subrange(h, d.len() as int);
    assert(ed == hd + sb + rest);
    assert(at(ed, 0, ed)) by {
        assert(ed.subrange(0, ed.len() as int) =~= ed);
    }
    lemma_at_split(ed, 0, hd + sb, rest);
    lemma_at_split(ed, 0, hd, sb);
    let p1 = hd.len() as int;
    lemma_read_array_header(ed, 0, n + 1);
    let l = encode_utf8(e).len() as int;
    let sh = str_header(l);
    lemma_at_split(ed, p1, sh, encode_utf8(e));
    lemma_read_str_header(ed, p1, l);
    let s0 = p1 + sh.len();
    assert(ed.subrange(s0, s0 + l) =~= encode_utf8(e)) by {
        lemma_at_sub(ed, s0, encode_utf8(e), 0, l);
        assert(encode_utf8(e).subrange(0, l) =~= encode_utf8(e));
    }
    vstd::utf8::encode_utf8_valid_utf8(e);
    vstd::utf8::encode_utf8_decode_utf8(e);
    assert(ed.subrange(s0 + l, ed.len() as int) =~= rest);
    assert(array_header(n) + rest =~= d);
}

// ---------------------------------------------------------------------------------------------
// Entries written and read back
// ---------------------------------------------------------------------------------------------

proof fn lemma_keys_distinct()
    ensures
        key_data() != key_type(),
        key_nsp() != key_type(),
        key_id() != key_type(),
        key_attachments() != key_type(),
        key_data() != key_nsp(),
        key_id() != key_nsp(),
        key_attachments() != key_nsp(),
        key_id() != key_data(),
        key_attachments() != key_data(),
        key_attachments() != key_id(),
{
    assert(key_data()[0] != key_type()[0]);
}

/// An entry whose key is written at `p` and whose value follows it.
pub open spec fn entry_at(b: Seq<u8>, p: int, key: Seq<char>, value: Seq<u8>) -> bool {
    at(b, p, str_bytes(key)) && at(b, p + str_bytes(key).len(), value)
}

/// The end of an entry.
pub open spec fn entry_end(p: int, key: Seq<char>, value: Seq<u8>) -> int {
    p + str_bytes(key).len() + value.len()
}

proof fn lemma_entry_type(b: Seq<u8>, p: int, f: Fields, idx: int)
    requires
        0 <= idx <= 6,
        entry_at(b, p, key_type(), uint_bytes(idx)),
    ensures
        spec_key_value(b, p, f) == Step::Done((Fields { index: idx as usize, ..f }, entry_end(p, key_type(), uint_bytes(idx)))),
{
    lemma_keys_bytes();
    lemma_read_str(b, p, key_type());
    lemma_read_uint(b, p + str_bytes(key_type()).len(), idx);
}

proof fn lemma_entry_nsp(b: Seq<u8>, p: int, f: Fields, ns: Seq<char>)
    requires
        encode_utf8(ns).len() < 4294967296,
        entry_at(b, p, key_nsp(), str_bytes(ns)),
    ensures
        spec_key_value(b, p, f) == Step::Done((Fields { nsp: ns, ..f }, entry_end(p, key_nsp(), str_bytes(ns)))),
{
    lemma_keys_bytes();
    lemma_keys_distinct();
    lemma_read_str(b, p, key_nsp());
    lemma_read_str(b, p + str_bytes(key_nsp()).len(), ns);
}

proof fn lemma_entry_data(b: Seq<u8>, p: int, f: Fields, x: Seq<u8>)
    requires
        is_element(x),
        entry_at(b, p, key_data(), x),
    ensures
        spec_key_value(b, p, f) == Step::Done((
            Fields { data: (p + str_bytes(key_data()).len(), entry_end(p, key_data(), x)), ..f },
            entry_end(p, key_data(), x),
        )),
{
    lemma_keys_bytes();
    lemma_keys_distinct();
    lemma_read_str(b, p, key_data());
    lemma_skip_at(b, p + str_bytes(key_data()).len(), x);
}

proof fn lemma_entry_id(b: Seq<u8>, p: int, f: Fields, id: i64)
    requires
        at(b, p, id_entry(id)),
    ensures
        spec_key_value(b, p, f) == Step::Done((Fields { id: Some(id), ..f }, p + id_entry(id).len())),
{
    lemma_keys_bytes();
    lemma_keys_distinct();
    lemma_at_split(b, p, str_bytes(key_id()), crate::parser::msgpack::codec::sint_bytes(id as int));
    lemma_read_str(b, p, key_id());
    lemma_read_sint(b, p + str_bytes(key_id()).len(), id as int);
}

proof fn lemma_entry_attachments(b: Seq<u8>, p: int, f: Fields, n: usize)
    requires
        at(b, p, attachments_entry(n)),
    ensures
        spec_key_value(b, p, f) == Step::Done((Fields { attachments: n, ..f }, p + attachments_entry(n).len())),
{
    lemma_keys_bytes();
    lemma_keys_distinct();
    lemma_at_split(b, p, str_bytes(key_attachments()), uint_bytes(n as int));
    lemma_read_str(b, p, key_attachments());
    lemma_read_uint(b, p + str_bytes(key_attachments()).len(), n as int);
}

// ---------------------------------------------------------------------------------------------
// Packets read back
// ---------------------------------------------------------------------------------------------

/// The packets that a MessagePack write and read give back unchanged: every payload is a
/// MessagePack element (an array with the shortest header for event data, an array for
/// acknowledgement data) without attachments outside the binary packets, binary packets hold no
/// separate attachments, and every text fits a MessagePack string header.
pub open spec fn msgpack_roundtrips(p: PacketView) -> bool {
    &&& encode_utf8(p.ns).len() < 4294967296
    &&& match p.inner {
        PacketDataView::Connect(None) => true,
        PacketDataView::Disconnect => true,
        PacketDataView::Connect(Some(v)) => v matches ValueView::MsgPack(d, a) && a == 0 && is_element(d),
        PacketDataView::Event(e, v, _) => v matches ValueView::MsgPack(d, a) && a == 0 && is_short_array(d)
            && encode_utf8(e).len() < 4294967296,
        PacketDataView::EventAck(v, _) => v matches ValueView::MsgPack(d, a) && a == 0 && is_array_element(d),
        PacketDataView::ConnectError(s) => encode_utf8(s).len() < 4294967296,
        PacketDataView::BinaryEvent(e, b, _) => b.data matches ValueView::MsgPack(d, _) && b.bin.len() == 0
            && b.payload_count == 0 && is_short_array(d) && encode_utf8(e).len() < 4294967296,
        PacketDataView::BinaryAck(b, _) => b.data matches ValueView::MsgPack(d, _) && b.bin.len() == 0
            && b.payload_count == 0 && is_array_element(d),
    }
}

/// The fields read from the `type` and `nsp` entries of a packet.
pub open spec fn head_fields(p: PacketView) -> Fields {
    Fields { index: spec_index(p.inner), nsp: p.ns, ..init_fields() }
}

proof fn lemma_kv_step(b: Seq<u8>, p: int, n: int, f: Fields, g: Fields, q: int)
    requires
        n > 0,
        spec_key_value(b, p, f) == Step::Done((g, q)),
    ensures
        spec_key_values(b, p, n, f) == spec_key_values(b, q, n - 1, g),
{
}

/// The optional `id` entry reads back as the id.
proof fn lemma_opt_id(b: Seq<u8>, p: int, f: Fields, id: Option<i64>, n: int)
    requires
        at(b, p, opt_id_entry(id)),
        f.id is None,
        n == (if id is Some { 1int } else { 0int }),
    ensures
        spec_key_values(b, p, n, f) == Step::Done((Fields { id: id, ..f }, p + opt_id_entry(id).len())),
{
    if let Some(i) = id {
        lemma_entry_id(b, p, f, i);
        lemma_kv_step(b, p, n, f, Fields { id: Some(i), ..f }, p + id_entry(i).len());
    }
}

/// The body of an event packet reads back.
proof fn lemma_body_event(b: Seq<u8>, pos: int, p: PacketView)
    requires
        msgpack_roundtrips(p),
        p.inner is Event,
        at(b, pos, spec_body(p.inner)),
    ensures
        spec_key_values(b, pos, spec_map_len(p.inner) - 2, head_fields(p)) matches Step::Done((g, _))
            && spec_packet_of(b, g) == Step::Done(p),
{
    if let PacketDataView::Event(e, v, id) = p.inner {
        if let ValueView::MsgPack(d, _) = v {
            let f = head_fields(p);
            let ed = spec_event_data(e, d);
            let kd = str_bytes(key_data());
            lemma_at_split(b, pos, kd + ed, opt_id_entry(id));
            lemma_at_split(b, pos, kd, ed);
            lemma_event_data_element(e, d);
            lemma_entry_data(b, pos, f, ed);
            let q1 = entry_end(pos, key_data(), ed);
            let f1 = Fields { data: (pos + kd.len(), q1), ..f };
            lemma_kv_step(b, pos, spec_map_len(p.inner) - 2, f, f1, q1);
            lemma_opt_id(b, q1, f1, id, spec_map_len(p.inner) - 3);
            let g = Fields { id: id, ..f1 };
            assert(b.subrange(pos + kd.len(), q1) == ed);
            lemma_event_data_read(e, d);
        }
    }
}

/// The body of a binary event packet reads back.
#[verifier::rlimit(40)]
proof fn lemma_body_binary_event(b: Seq<u8>, pos: int, p: PacketView)
    requires
        msgpack_roundtrips(p),
        p.inner is BinaryEvent,
        at(b, pos, spec_body(p.inner)),
    ensures
        spec_key_values(b, pos, spec_map_len(p.inner) - 2, head_fields(p)) matches Step::Done((g, _))
            && spec_packet_of(b, g) == Step::Done(p),
{
    if let PacketDataView::BinaryEvent(e, bp, id) = p.inner {
        if let ValueView::MsgPack(d, att) = bp.data {
            let f = head_fields(p);
            let ed = spec_event_data(e, d);
            let kd = str_bytes(key_data());
            let ae = attachments_entry(att);
            lemma_at_split(b, pos, kd + ed + ae, opt_id_entry(id));
            lemma_at_split(b, pos, kd + ed, ae);
            lemma_at_split(b, pos, kd, ed);
            lemma_event_data_element(e, d);
            lemma_entry_data(b, pos, f, ed);
            let q1 = entry_end(pos, key_data(), ed);
            let f1 = Fields { data: (pos + kd.len(), q1), ..f };
            lemma_kv_step(b, pos, spec_map_len(p.inner) - 2, f, f1, q1);
            lemma_entry_attachments(b, q1, f1, att);
            let q2 = q1 + ae.len();
            let f2 = Fields { attachments: att, ..f1 };
            lemma_kv_step(b, q1, spec_map_len(p.inner) - 3, f1, f2, q2);
            lemma_opt_id(b, q2, f2, id, spec_map_len(p.inner) - 4);
            assert(b.subrange(pos + kd.len(), q1) == ed);
            lemma_event_data_read(e, d);
            assert(bp.bin =~= Seq::<Seq<u8>>::empty());
            assert(bp == no_bins(ValueView::MsgPack(d, att)));
        }
    }
}

/// The body of an acknowledgement packet reads back.
proof fn lemma_body_ack(b: Seq<u8>, pos: int, p: PacketView)
    requires
        msgpack_roundtrips(p),
        p.inner is EventAck,
        at(b, pos, spec_body(p.inner)),
    ensures
        spec_key_values(b, pos, spec_map_len(p.inner) - 2, head_fields(p)) matches Step::Done((g, _))
            && spec_packet_of(b, g) == Step::Done(p),
{
    if let PacketDataView::EventAck(v, id) = p.inner {
        if let ValueView::MsgPack(d, _) = v {
            let f = head_fields(p);
            let kd = str_bytes(key_data());
            assert(spec_ack_data(d) == d);
            lemma_at_split(b, pos, kd + d, id_entry(id));
            lemma_at_split(b, pos, kd, d);
            lemma_entry_data(b, pos, f, d);
            let q1 = entry_end(pos, key_data(), d);
            let f1 = Fields { data: (pos + kd.len(), q1), ..f };
            lemma_kv_step(b, pos, 2, f, f1, q1);
            lemma_entry_id(b, q1, f1, id);
            lemma_kv_step(b, q1, 1, f1, Fields { id: Some(id), ..f1 }, q1 + id_entry(id).len());
            assert(b.subrange(pos + kd.len(), q1) == d);
        }
    }
}

/// The body of a binary acknowledgement packet reads back.
proof fn lemma_body_binary_ack(b: Seq<u8>, pos: int, p: PacketView)
    requires
        msgpack_roundtrips(p),
        p.inner is BinaryAck,
        at(b, pos, spec_body(p.inner)),
    ensures
        spec_key_values(b, pos, spec_map_len(p.inner) - 2, head_fields(p)) matches Step::Done((g, _))
            && spec_packet_of(b, g) == Step::Done(p),
{
    if let PacketDataView::BinaryAck(bp, id) = p.inner {
        if let ValueView::MsgPack(d, att) = bp.data {
            let f = head_fields(p);
            let kd = str_bytes(key_data());
            let ae = attachments_entry(att);
            assert(spec_ack_data(d) == d);
            lemma_at_split(b, pos, kd + d + ae, id_entry(id));
            lemma_at_split(b, pos, kd + d, ae);
            lemma_at_split(b, pos, kd, d);
            lemma_entry_data(b, pos, f, d);
            let q1 = entry_end(pos, key_data(), d);
            let f1 = Fields { data: (pos + kd.len(), q1), ..f };
            lemma_kv_step(b, pos, 3, f, f1, q1);
            lemma_entry_attachments(b, q1, f1, att);
            let q2 = q1 + ae.len();
            let f2 = Fields { attachments: att, ..f1 };
            lemma_kv_step(b, q1, 2, f1, f2, q2);
            lemma_entry_id(b, q2, f2, id);
            lemma_kv_step(b, q2, 1, f2, Fields { id: Some(id), ..f2 }, q2 + id_entry(id).len());
            assert(b.subrange(pos + kd.len(), q1) == d);
            assert(bp.bin =~= Seq::<Seq<u8>>::empty());
            assert(bp == no_bins(ValueView::MsgPack(d, att)));
        }
    }
}

/// The body of a connect packet with data reads back.
proof fn lemma_body_connect(b: Seq<u8>, pos: int, p: PacketView)
    requires
        msgpack_roundtrips(p),
        p.inner matches PacketDataView::Connect(Some(_)),
        at(b, pos, spec_body(p.inner)),
    ensures
        spec_key_values(b, pos, spec_map_len(p.inner) - 2, head_fields(p)) matches Step::Done((g, _))
            && spec_packet_of(b, g) == Step::Done(p),
{
    if let PacketDataView::Connect(Some(v)) = p.inner {
        if let ValueView::MsgPack(d, _) = v {
            let f = head_fields(p);
            let kd = str_bytes(key_data());
            lemma_at_split(b, pos, kd, d);
            lemma_entry_data(b, pos, f, d);
            let q1 = entry_end(pos, key_data(), d);
            let f1 = Fields { data: (pos + kd.len(), q1), ..f };
            lemma_kv_step(b, pos, 1, f, f1, q1);
            assert(b.subrange(pos + kd.len(), q1) == d);
            assert(d.len() > 0);
        }
    }
}

/// The map `{message: <s>}` is one whole element.
proof fn lemma_error_map_element(s: Seq<char>)
    requires
        encode_utf8(s).len() < 4294967296,
    ensures
        is_element(map_header_one() + str_bytes(key_message()) + str_bytes(s)),
{
    lemma_keys_bytes();
    let km = str_bytes(key_message());
    let sb = str_bytes(s);
    let x = map_header_one() + km + sb;
    assert(at(x, 0, x)) by {
        assert(x.subrange(0, x.len() as int) =~= x);
    }
    lemma_at_split(x, 0, map_header_one() + km, sb);
    lemma_at_split(x, 0, map_header_one(), km);
    let p1 = 1int;
    let p2 = (1 + km.len()) as int;
    let p3 = x.len() as int;
    assert(p3 == p2 + sb.len());
    lemma_skip_str(x, p1, key_message());
    lemma_skip_str(x, p2, s);
    assert(skip_element(x, p2) == Step::Done(p3));
    assert(skip_elements(x, p3, 0) == Step::Done(p3));
    assert(skip_elements(x, p2, 1) == Step::Done(p3));
    assert(skip_element(x, p1) == Step::Done(p2));
    assert(skip_elements(x, p1, 2) == Step::Done(p3));
    assert(x[0] == 0x81u8);
}

/// The map `{message: <s>}` reads back as `s`.
proof fn lemma_error_map_read(s: Seq<char>)
    requires
        encode_utf8(s).len() < 4294967296,
    ensures
        spec_error_message(map_header_one() + str_bytes(key_message()) + str_bytes(s)) == Some(s),
{
    lemma_keys_bytes();
    let km = str_bytes(key_message());
    let sb = str_bytes(s);
    let x = map_header_one() + km + sb;
    assert(at(x, 0, x)) by {
        assert(x.subrange(0, x.len() as int) =~= x);
    }
    lemma_at_split(x, 0, map_header_one() + km, sb);
    lemma_at_split(x, 0, map_header_one(), km);
    let p2 = (1 + km.len()) as int;
    assert(map_header(1) =~= map_header_one());
    lemma_read_map_header(x, 0, 1);
    lemma_read_str(x, 1, key_message());
    lemma_read_str(x, p2, s);
    assert(spec_message_entry(x, 1, None) == Some((Some(s), x.len() as int)));
    assert(spec_message_entries(x, x.len() as int, 0, Some(s)) == Some(s));
}

/// The body of a connect error packet reads back.
proof fn lemma_body_connect_error(b: Seq<u8>, pos: int, p: PacketView)
    requires
        msgpack_roundtrips(p),
        p.inner is ConnectError,
        at(b, pos, spec_body(p.inner)),
    ensures
        spec_key_values(b, pos, spec_map_len(p.inner) - 2, head_fields(p)) matches Step::Done((g, _))
            && spec_packet_of(b, g) == Step::Done(p),
{
    if let PacketDataView::ConnectError(s) = p.inner {
        let f = head_fields(p);
        let kd = str_bytes(key_data());
        let x = map_header_one() + str_bytes(key_message()) + str_bytes(s);
        assert(spec_body(p.inner) =~= kd + x);
        lemma_at_split(b, pos, kd, x);
        lemma_error_map_element(s);
        lemma_error_map_read(s);
        lemma_entry_data(b, pos, f, x);
        let q1 = entry_end(pos, key_data(), x);
        let f1 = Fields { data: (pos + kd.len(), q1), ..f };
        lemma_kv_step(b, pos, 1, f, f1, q1);
        assert(b.subrange(pos + kd.len(), q1) == x);
    }
}

/// What a MessagePack write of a packet gives, a MessagePack read gives back: for the packets of
/// [`msgpack_roundtrips`], the serializer accepts the packet and decoding its bytes yields it.
pub proof fn lemma_msgpack_roundtrip(p: PacketView)
    requires
        msgpack_roundtrips(p),
    ensures
        spec_msgpack_serializable(p),
        spec_decode(spec_serialize_packet(p)) == Step::Done(p),
{
    lemma_keys_bytes();
    let b = spec_serialize_packet(p);
    let k = spec_map_len(p.inner);
    let idx = spec_index(p.inner) as int;
    let mh = map_header(k);
    let kt = str_bytes(key_type());
    let ui = uint_bytes(idx);
    let kn = str_bytes(key_nsp());
    let sn = str_bytes(p.ns);
    let body = spec_body(p.inner);
    assert(at(b, 0, b)) by {
        assert(b.subrange(0, b.len() as int) =~= b);
    }
    lemma_at_split(b, 0, mh + kt + ui + kn + sn, body);
    lemma_at_split(b, 0, mh + kt + ui + kn, sn);
    lemma_at_split(b, 0, mh + kt + ui, kn);
    lemma_at_split(b, 0, mh + kt, ui);
    lemma_at_split(b, 0, mh, kt);
    lemma_read_map_header(b, 0, k);
    let p0 = mh.len() as int;
    let f0 = init_fields();
    lemma_entry_type(b, p0, f0, idx);
    let p2 = entry_end(p0, key_type(), ui);
    let f1 = Fields { index: idx as usize, ..f0 };
    lemma_kv_step(b, p0, k, f0, f1, p2);
    lemma_entry_nsp(b, p2, f1, p.ns);
    let p4 = entry_end(p2, key_nsp(), sn);
    assert(Fields { nsp: p.ns, ..f1 } == head_fields(p));
    lemma_kv_step(b, p2, k - 1, f1, head_fields(p), p4);
    match p.inner {
        PacketDataView::Connect(None) => {},
        PacketDataView::Disconnect => {},
        PacketDataView::Connect(Some(_)) => lemma_body_connect(b, p4, p),
        PacketDataView::Event(..) => lemma_body_event(b, p4, p),
        PacketDataView::EventAck(..) => lemma_body_ack(b, p4, p),
        PacketDataView::ConnectError(_) => lemma_body_connect_error(b, p4, p),
        PacketDataView::BinaryEvent(..) => lemma_body_binary_event(b, p4, p),
        PacketDataView::BinaryAck(..) => lemma_body_binary_ack(b, p4, p),
    }
}

} // verus!
