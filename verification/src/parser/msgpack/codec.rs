//! MessagePack building blocks: the bytes of the headers and scalars this parser writes, what it
//! reads back from a position in a buffer, and the `rmp` calls that do the work.
use vstd::prelude::*;
use vstd::string::StringSliceAdditionalSpecFns;
use vstd::utf8::{decode_utf8, encode_utf8, valid_utf8};

verus! {

// ---------------------------------------------------------------------------------------------
// Big-endian integers
// ---------------------------------------------------------------------------------------------

/// The two big-endian bytes of `n` modulo 2^16.
pub open spec fn be16(n: int) -> Seq<u8> {
    seq![((n / 256) % 256) as u8, (n % 256) as u8]
}

/// The four big-endian bytes of `n` modulo 2^32.
pub open spec fn be32(n: int) -> Seq<u8> {
    seq![((n / 16777216) % 256) as u8, ((n / 65536) % 256) as u8, ((n / 256) % 256) as u8, (n % 256) as u8]
}

/// The eight big-endian bytes of `n` modulo 2^64.
pub open spec fn be64(n: int) -> Seq<u8> {
    be32(n / 4294967296) + be32(n)
}

/// The unsigned value of big-endian bytes.
pub open spec fn be_value(s: Seq<u8>) -> int
    decreases s.len(),
{
    if s.len() == 0 {
        0
    } else {
        be_value(s.drop_last()) * 256 + s.last()
    }
}

// ---------------------------------------------------------------------------------------------
// What the writers append
// ---------------------------------------------------------------------------------------------

/// The shortest MessagePack encoding of an unsigned integer (below 2^64): positive fixint,
/// uint8, uint16, uint32 or uint64.
pub open spec fn uint_bytes(v: int) -> Seq<u8> {
    if v < 128 {
        seq![v as u8]
    } else if v < 256 {
        seq![0xccu8, v as u8]
    } else if v < 65536 {
        seq![0xcdu8] + be16(v)
    } else if v < 4294967296 {
        seq![0xceu8] + be32(v)
    } else {
        seq![0xcfu8] + be64(v)
    }
}

/// The shortest MessagePack encoding of a signed integer (an `i64`): the unsigned forms for
/// values from 0, negative fixint, int8, int16, int32 or int64 below.
pub open spec fn sint_bytes(v: int) -> Seq<u8> {
    if v >= 0 {
        uint_bytes(v)
    } else if v >= -32 {
        seq![(v + 256) as u8]
    } else if v >= -128 {
        seq![0xd0u8, (v + 256) as u8]
    } else if v >= -32768 {
        seq![0xd1u8] + be16(v + 65536)
    } else if v >= -2147483648 {
        seq![0xd2u8] + be32(v + 4294967296)
    } else {
        seq![0xd3u8] + be64(v + 18446744073709551616)
    }
}

/// The shortest header of a map of `n` entries (fixmap, map16, map32).
pub open spec fn map_header(n: int) -> Seq<u8> {
    if n < 16 {
        seq![(0x80 + n) as u8]
    } else if n < 65536 {
        seq![0xdeu8] + be16(n)
    } else {
        seq![0xdfu8] + be32(n)
    }
}

/// The shortest header of an array of `n` elements (fixarray, array16, array32).
pub open spec fn array_header(n: int) -> Seq<u8> {
    if n < 16 {
        seq![(0x90 + n) as u8]
    } else if n < 65536 {
        seq![0xdcu8] + be16(n)
    } else {
        seq![0xddu8] + be32(n)
    }
}

/// The shortest header of a string of `n` bytes (fixstr, str8, str16, str32).
pub open spec fn str_header(n: int) -> Seq<u8> {
    if n < 32 {
        seq![(0xa0 + n) as u8]
    } else if n < 256 {
        seq![0xd9u8, n as u8]
    } else if n < 65536 {
        seq![0xdau8] + be16(n)
    } else {
        seq![0xdbu8] + be32(n)
    }
}

/// A MessagePack string: its header, then its UTF-8 bytes.
pub open spec fn str_bytes(s: Seq<char>) -> Seq<u8> {
    str_header(encode_utf8(s).len() as int) + encode_utf8(s)
}

// ---------------------------------------------------------------------------------------------
// What the readers read
// ---------------------------------------------------------------------------------------------

/// A length header at `pos`: a fix form whose marker holds the length (from `fix`, up to
/// `fix_max`), or the marker `m16` / `m32` followed by a big-endian u16 / u32. The length and the
/// position after the header; `None` for another marker or a header cut short.
pub open spec fn read_len_header(b: Seq<u8>, pos: int, fix: u8, fix_max: int, m16: u8, m32: u8) -> Option<(int, int)> {
    if pos < 0 || pos >= b.len() {
        None
    } else if fix <= b[pos] <= fix + fix_max {
        Some(((b[pos] - fix) as int, pos + 1))
    } else if b[pos] == m16 {
        if pos + 3 <= b.len() {
            Some((be_value(b.subrange(pos + 1, pos + 3)), pos + 3))
        } else {
            None
        }
    } else if b[pos] == m32 {
        if pos + 5 <= b.len() {
            Some((be_value(b.subrange(pos + 1, pos + 5)), pos + 5))
        } else {
            None
        }
    } else {
        None
    }
}

/// A map header at `pos`: its number of entries and the position after it.
pub open spec fn spec_read_map_len(b: Seq<u8>, pos: int) -> Option<(int, int)> {
    read_len_header(b, pos, 0x80, 15, 0xde, 0xdf)
}

/// An array header at `pos`: its number of elements and the position after it.
pub open spec fn spec_read_array_len(b: Seq<u8>, pos: int) -> Option<(int, int)> {
    read_len_header(b, pos, 0x90, 15, 0xdc, 0xdd)
}

/// A string header at `pos` (fixstr, str8, str16, str32): the byte length of the string and the
/// position of its first byte.
pub open spec fn spec_read_str_len(b: Seq<u8>, pos: int) -> Option<(int, int)> {
    if 0 <= pos < b.len() && b[pos] == 0xd9 {
        if pos + 2 <= b.len() {
            Some((b[pos + 1] as int, pos + 2))
        } else {
            None
        }
    } else {
        read_len_header(b, pos, 0xa0, 31, 0xda, 0xdb)
    }
}

/// The range of a `k`-byte integer: 2^(8k).
pub open spec fn span(k: int) -> int {
    if k == 1 {
        256
    } else if k == 2 {
        65536
    } else if k == 4 {
        4294967296
    } else {
        18446744073709551616
    }
}

/// A big-endian integer of `k` bytes after the marker at `pos` (two's complement when `signed`),
/// and the position after it.
pub open spec fn read_fixed(b: Seq<u8>, pos: int, k: int, signed: bool) -> Option<(int, int)> {
    if pos + 1 + k <= b.len() {
        let u = be_value(b.subrange(pos + 1, pos + 1 + k));
        Some((if signed && u >= span(k) / 2 { u - span(k) } else { u }, pos + 1 + k))
    } else {
        None
    }
}

/// An integer at `pos` in any of the MessagePack integer forms: its value and the position after
/// it; `None` for another marker or an integer cut short.
pub open spec fn spec_read_int(b: Seq<u8>, pos: int) -> Option<(int, int)> {
    if pos < 0 || pos >= b.len() {
        None
    } else if b[pos] <= 0x7f {
        Some((b[pos] as int, pos + 1))
    } else if b[pos] >= 0xe0 {
        Some((b[pos] - 256, pos + 1))
    } else if b[pos] == 0xcc {
        read_fixed(b, pos, 1, false)
    } else if b[pos] == 0xcd {
        read_fixed(b, pos, 2, false)
    } else if b[pos] == 0xce {
        read_fixed(b, pos, 4, false)
    } else if b[pos] == 0xcf {
        read_fixed(b, pos, 8, false)
    } else if b[pos] == 0xd0 {
        read_fixed(b, pos, 1, true)
    } else if b[pos] == 0xd1 {
        read_fixed(b, pos, 2, true)
    } else if b[pos] == 0xd2 {
        read_fixed(b, pos, 4, true)
    } else if b[pos] == 0xd3 {
        read_fixed(b, pos, 8, true)
    } else {
        None
    }
}

/// A header as a reader reports it: the value and the number of bytes left after it.
pub open spec fn as_left(b: Seq<u8>, h: Option<(int, int)>) -> Option<(int, int)> {
    match h {
        Some((v, next)) => Some((v, b.len() - next)),
        None => None,
    }
}

// ---------------------------------------------------------------------------------------------
// The calls into `rmp`. A `Vec<u8>` accepts every write (`std::io::Write for Vec<u8>` never
// fails), and a reader over a byte slice reports the bytes it has not consumed.
// ---------------------------------------------------------------------------------------------

/// Calls `rmp::encode::write_map_len`: appends the shortest map header for `len` (fixmap below
/// 16, map16 below 2^16, map32 otherwise; lengths big-endian), as its source writes it.
#[verifier::external_body]
pub(crate) fn write_map_len(buf: &mut Vec<u8>, len: u32)
    ensures
        final(buf)@ == old(buf)@ + map_header(len as int),
{
    let _ = rmp::encode::write_map_len(buf, len);
}

/// Calls `rmp::encode::write_array_len`: appends the shortest array header for `len` (fixarray
/// below 16, array16 below 2^16, array32 otherwise; lengths big-endian).
#[verifier::external_body]
pub(crate) fn write_array_len(buf: &mut Vec<u8>, len: u32)
    ensures
        final(buf)@ == old(buf)@ + array_header(len as int),
{
    let _ = rmp::encode::write_array_len(buf, len);
}

/// Calls `rmp::encode::write_str`: appends the shortest string header for the byte length of
/// `s`, then its UTF-8 bytes. (`rmp` takes the length as a `u32`, hence the bound.)
#[verifier::external_body]
pub(crate) fn write_str(buf: &mut Vec<u8>, s: &str)
    requires
        s.spec_bytes().len() < 4294967296,
    ensures
        final(buf)@ == old(buf)@ + str_bytes(s@),
{
    let _ = rmp::encode::write_str(buf, s);
}

/// Calls `rmp::encode::write_uint`: appends the shortest unsigned encoding of `v` (positive
/// fixint, uint8, uint16, uint32, uint64).
#[verifier::external_body]
pub(crate) fn write_uint(buf: &mut Vec<u8>, v: u64)
    ensures
        final(buf)@ == old(buf)@ + uint_bytes(v as int),
{
    let _ = rmp::encode::write_uint(buf, v);
}

/// Calls `rmp::encode::write_sint`: appends the shortest signed encoding of `v` (the unsigned
/// forms from 0; negative fixint, int8, int16, int32, int64 below).
#[verifier::external_body]
pub(crate) fn write_sint(buf: &mut Vec<u8>, v: i64)
    ensures
        final(buf)@ == old(buf)@ + sint_bytes(v as int),
{
    let _ = rmp::encode::write_sint(buf, v);
}

/// Calls `rmp::decode::read_map_len` on the bytes of `b` from `pos`: the number of entries and
/// the number of bytes left after the header; `None` when the marker is not a map marker or the
/// header is cut short.
#[verifier::external_body]
pub(crate) fn read_map_len(b: &[u8], pos: usize) -> (res: Option<(u32, usize)>)
    requires
        pos <= b@.len(),
    ensures
        res is Some <==> spec_read_map_len(b@, pos as int) is Some,
        res matches Some((n, left)) ==> as_left(b@, spec_read_map_len(b@, pos as int)) == Some(
            (n as int, left as int),
        ),
{
    let mut rd: &[u8] = &b[pos..];
    match rmp::decode::read_map_len(&mut rd) {
        Ok(n) => Some((n, rd.len())),
        Err(_) => None,
    }
}

/// Calls `rmp::decode::read_array_len` on the bytes of `b` from `pos`: the number of elements
/// and the number of bytes left after the header; `None` when the marker is not an array marker
/// or the header is cut short.
#[verifier::external_body]
pub(crate) fn read_array_len(b: &[u8], pos: usize) -> (res: Option<(u32, usize)>)
    requires
        pos <= b@.len(),
    ensures
        res is Some <==> spec_read_array_len(b@, pos as int) is Some,
        res matches Some((n, left)) ==> as_left(b@, spec_read_array_len(b@, pos as int)) == Some(
            (n as int, left as int),
        ),
{
    let mut rd: &[u8] = &b[pos..];
    match rmp::decode::read_array_len(&mut rd) {
        Ok(n) => Some((n, rd.len())),
        Err(_) => None,
    }
}

/// Calls `rmp::decode::read_str_len` on the bytes of `b` from `pos`: the byte length of the
/// string and the number of bytes left after its header; `None` when the marker is not a string
/// marker or the header is cut short.
#[verifier::external_body]
pub(crate) fn read_str_len(b: &[u8], pos: usize) -> (res: Option<(u32, usize)>)
    requires
        pos <= b@.len(),
    ensures
        res is Some <==> spec_read_str_len(b@, pos as int) is Some,
        res matches Some((n, left)) ==> as_left(b@, spec_read_str_len(b@, pos as int)) == Some(
            (n as int, left as int),
        ),
{
    let mut rd: &[u8] = &b[pos..];
    match rmp::decode::read_str_len(&mut rd) {
        Ok(n) => Some((n, rd.len())),
        Err(_) => None,
    }
}

/// Calls `rmp::decode::read_int::<usize, _>` on the bytes of `b` from `pos`: an integer in any
/// MessagePack integer form that fits a `usize`, and the number of bytes left after it; `None`
/// for another marker, an integer cut short, or a value out of range.
#[verifier::external_body]
pub(crate) fn read_int_usize(b: &[u8], pos: usize) -> (res: Option<(usize, usize)>)
    requires
        pos <= b@.len(),
    ensures
        res is Some <==> (spec_read_int(b@, pos as int) matches Some((v, _)) && 0 <= v <= usize::MAX),
        res matches Some((v, left)) ==> as_left(b@, spec_read_int(b@, pos as int)) == Some(
            (v as int, left as int),
        ),
{
    let mut rd: &[u8] = &b[pos..];
    match rmp::decode::read_int::<usize, _>(&mut rd) {
        Ok(v) => Some((v, rd.len())),
        Err(_) => None,
    }
}

/// Calls `rmp::decode::read_int::<i64, _>` on the bytes of `b` from `pos`: an integer in any
/// MessagePack integer form that fits an `i64`, and the number of bytes left after it; `None`
/// for another marker, an integer cut short, or a value out of range.
#[verifier::external_body]
pub(crate) fn read_int_i64(b: &[u8], pos: usize) -> (res: Option<(i64, usize)>)
    requires
        pos <= b@.len(),
    ensures
        res is Some <==> (spec_read_int(b@, pos as int) matches Some((v, _)) && i64::MIN <= v
            <= i64::MAX),
        res matches Some((v, left)) ==> as_left(b@, spec_read_int(b@, pos as int)) == Some(
            (v as int, left as int),
        ),
{
    let mut rd: &[u8] = &b[pos..];
    match rmp::decode::read_int::<i64, _>(&mut rd) {
        Ok(v) => Some((v, rd.len())),
        Err(_) => None,
    }
}

/// Calls `std::str::from_utf8` on `b[start..end]`: the text those bytes encode, or `None` when
/// they are not UTF-8.
#[verifier::external_body]
pub(crate) fn utf8_text(b: &[u8], start: usize, end: usize) -> (res: Option<&str>)
    requires
        start <= end <= b@.len(),
    ensures
        res is Some <==> valid_utf8(b@.subrange(start as int, end as int)),
        res matches Some(s) ==> s@ == decode_utf8(b@.subrange(start as int, end as int)),
{
    std::str::from_utf8(&b[start..end]).ok()
}

} // verus!
