//! Text helpers: UTF-8 facts, slicing of strings at ASCII positions, and decimal numerals.
use vstd::prelude::*;
use vstd::utf8::*;
use vstd::string::StringSliceAdditionalSpecFns;

verus! {

broadcast use {vstd::utf8::group_utf8_lib, vstd::seq::group_seq_axioms};

/// The characters of a decimal digit.
pub open spec fn digit_char(d: int) -> char {
    (48 + d) as char
}

/// Decimal digits of a natural number, most significant first.
pub open spec fn spec_digits(n: nat) -> Seq<char>
    decreases n,
{
    if n < 10 {
        seq![digit_char(n as int)]
    } else {
        spec_digits(n / 10).push(digit_char((n % 10) as int))
    }
}

/// The decimal numeral of an integer, with a leading `-` for negative numbers.
pub open spec fn spec_decimal(n: int) -> Seq<char> {
    if n < 0 {
        seq!['-'] + spec_digits((-n) as nat)
    } else {
        spec_digits(n as nat)
    }
}

/// The integer base-10 logarithm of a natural number: its number of decimal digits, less one.
pub open spec fn spec_log10(n: nat) -> nat
    decreases n,
{
    if n < 10 {
        0
    } else {
        1 + spec_log10(n / 10)
    }
}

/// Ten to the power `k`.
pub open spec fn spec_pow10(k: nat) -> nat
    decreases k,
{
    if k == 0 {
        1
    } else {
        10 * spec_pow10((k - 1) as nat)
    }
}

/// A number below `10^(k+1)` has a logarithm of at most `k`.
pub proof fn lemma_log10_bound(n: nat, k: nat)
    requires
        n < spec_pow10(k + 1),
    ensures
        spec_log10(n) <= k,
    decreases k,
{
    if n >= 10 {
        assert(spec_pow10(k + 1) == 10 * spec_pow10(k));
        if k == 0 {
            assert(spec_pow10(0) == 1);
        } else {
            assert(((k - 1) + 1) as nat == k);
            lemma_log10_bound(n / 10, (k - 1) as nat);
        }
    }
}

/// The decimal digits of `n` number `spec_log10(n) + 1`, and each is an ASCII digit.
pub proof fn lemma_digits_shape(n: nat)
    ensures
        spec_digits(n).len() == spec_log10(n) + 1,
        forall|i: int| 0 <= i < spec_digits(n).len() ==> is_ascii_char(#[trigger] spec_digits(n)[i]),
    decreases n,
{
    if n >= 10 {
        lemma_digits_shape(n / 10);
        assert forall|i: int| 0 <= i < spec_digits(n).len() implies is_ascii_char(#[trigger] spec_digits(n)[i]) by {
            if i < spec_digits(n / 10).len() {
                assert(spec_digits(n)[i] == spec_digits(n / 10)[i]);
            }
        }
    }
}

/// The decimal numeral of an integer is ASCII, and UTF-8 encodes it byte for character.
pub proof fn lemma_decimal_bytes(x: int)
    ensures
        encode_utf8(spec_decimal(x)).len() == spec_decimal(x).len(),
        x >= 0 ==> spec_decimal(x).len() == spec_log10(x as nat) + 1,
{
    let d = spec_decimal(x);
    if x < 0 {
        lemma_digits_shape((-x) as nat);
        assert forall|i: int| 0 <= i < d.len() implies is_ascii_char(#[trigger] d[i]) by {
            if i > 0 {
                assert(d[i] == spec_digits((-x) as nat)[i - 1]);
            }
        }
    } else {
        lemma_digits_shape(x as nat);
    }
    lemma_encode_ascii_seq(d);
}

/// Whether a character is ASCII.
pub open spec fn is_ascii_char(c: char) -> bool {
    '\0' <= c <= '\u{7f}'
}

/// Whether a byte is an ASCII decimal digit.
pub open spec fn is_digit_byte(b: u8) -> bool {
    48 <= b <= 57
}

/// The UTF-8 encoding distributes over concatenation.
pub proof fn lemma_encode_concat(a: Seq<char>, b: Seq<char>)
    ensures
        encode_utf8(a + b) == encode_utf8(a) + encode_utf8(b),
    decreases a.len(),
{
    if a.len() == 0 {
        assert(a + b =~= b);
        assert(encode_utf8(a) + encode_utf8(b) =~= encode_utf8(b));
    } else {
        lemma_encode_concat(a.drop_first(), b);
        assert((a + b).drop_first() =~= a.drop_first() + b);
        assert((a + b)[0] == a[0]);
        assert(encode_utf8(a + b) == encode_scalar(a[0] as u32) + encode_utf8(a.drop_first() + b));
        assert(encode_utf8(a) == encode_scalar(a[0] as u32) + encode_utf8(a.drop_first()));
        assert(encode_utf8(a + b) =~= encode_utf8(a) + encode_utf8(b));
    }
}

/// An ASCII character is encoded as the single byte of its code.
pub proof fn lemma_encode_ascii(c: char)
    requires
        is_ascii_char(c),
    ensures
        encode_utf8(seq![c]) == seq![c as u8],
        encode_scalar(c as u32) == seq![c as u8],
{
    let s = seq![c];
    assert(is_ascii_chars(s));
    is_ascii_chars_encode_utf8(s);
    assert(encode_utf8(s).len() == 1);
    assert(encode_utf8(s)[0] == c as u8);
    assert(encode_utf8(s) =~= seq![c as u8]);
    assert(s.drop_first() =~= Seq::<char>::empty());
    assert(encode_utf8(s) == encode_scalar(c as u32) + encode_utf8(s.drop_first()));
    assert(encode_scalar(c as u32) =~= seq![c as u8]);
}

/// The encoding of an ASCII sequence is its sequence of codes.
pub proof fn lemma_encode_ascii_seq(s: Seq<char>)
    requires
        forall|i: int| 0 <= i < s.len() ==> is_ascii_char(#[trigger] s[i]),
    ensures
        encode_utf8(s).len() == s.len(),
        forall|i: int| 0 <= i < s.len() ==> encode_utf8(s)[i] == #[trigger] s[i] as u8,
{
    assert(is_ascii_chars(s));
    is_ascii_chars_encode_utf8(s);
}

/// Inside valid UTF-8, an ASCII byte starts a character.
pub proof fn lemma_ascii_is_boundary(b: Seq<u8>, i: int)
    requires
        valid_utf8(b),
        0 <= i < b.len(),
        b[i] < 128,
    ensures
        is_char_boundary(b, i),
{
    is_char_boundary_iff_not_is_continuation_byte(b, i);
}

/// Inside valid UTF-8, the byte after an ASCII byte starts a character (or is the end).
pub proof fn lemma_boundary_after_ascii(b: Seq<u8>, i: int)
    requires
        valid_utf8(b),
        0 <= i < b.len(),
        b[i] < 128,
    ensures
        is_char_boundary(b, i + 1),
    decreases b.len(),
{
    reveal_with_fuel(is_char_boundary, 2);
    let l = length_of_first_scalar(b);
    assert(b.len() > 0);
    if i == 0 {
        assert(is_leading_byte_width_1(b[0]));
        assert(l == 1);
    } else {
        lemma_ascii_is_boundary(b, i);
        let t = pop_first_scalar(b);
        assert(valid_utf8(t));
        assert(is_char_boundary(t, i - l));
        assert(i - l >= 0);
        assert(t[i - l] == b[i]);
        lemma_pop_shorter(b);
        lemma_boundary_after_ascii(t, i - l);
    }
}

/// Removing the first character shortens a nonempty valid sequence.
pub proof fn lemma_pop_shorter(b: Seq<u8>)
    requires
        valid_utf8(b),
        b.len() > 0,
    ensures
        pop_first_scalar(b).len() < b.len(),
        length_of_first_scalar(b) >= 1,
{
}

/// Character boundaries are kept by a prefix that ends at a boundary.
pub proof fn lemma_boundary_in_prefix(b: Seq<u8>, start: int, end: int)
    requires
        valid_utf8(b),
        0 <= start <= end <= b.len(),
        is_char_boundary(b, start),
        is_char_boundary(b, end),
    ensures
        valid_utf8(b.subrange(0, end)),
        is_char_boundary(b.subrange(0, end), start),
{
    valid_utf8_split(b, end);
    let p = b.subrange(0, end);
    if start == end {
        is_char_boundary_start_end_of_seq(p);
        assert(p.len() == end);
    } else {
        is_char_boundary_iff_not_is_continuation_byte(b, start);
        is_char_boundary_iff_not_is_continuation_byte(p, start);
        assert(p[start] == b[start]);
    }
}

/// The part of a string between two character boundaries (byte offsets).
pub fn str_slice(s: &str, start: usize, end: usize) -> (r: &str)
    requires
        start <= end <= s.spec_bytes().len(),
        is_char_boundary(s.spec_bytes(), start as int),
        is_char_boundary(s.spec_bytes(), end as int),
    ensures
        r.spec_bytes() == s.spec_bytes().subrange(start as int, end as int),
        r@ == decode_utf8(s.spec_bytes().subrange(start as int, end as int)),
{
    let ghost b = s.spec_bytes();
    proof {
        lemma_boundary_in_prefix(b, start as int, end as int);
    }
    let (head, _) = s.split_at(end);
    assert(head.spec_bytes() =~= b.subrange(0, end as int));
    let (_, r) = head.split_at(start);
    assert(r.spec_bytes() =~= b.subrange(start as int, end as int));
    proof {
        encode_utf8_decode_utf8(r@);
    }
    r
}

/// A string without its first character, which must be ASCII.
pub fn str_drop_first_ascii(s: &str) -> (r: &str)
    requires
        s@.len() > 0,
        is_ascii_char(s@[0]),
    ensures
        r@ == s@.drop_first(),
{
    let ghost b = s.spec_bytes();
    proof {
        lemma_encode_ascii(s@[0]);
        assert(s@ =~= seq![s@[0]] + s@.drop_first());
        lemma_encode_concat(seq![s@[0]], s@.drop_first());
        assert(b[0] == s@[0] as u8);
        lemma_boundary_after_ascii(b, 0);
    }
    let (_, r) = s.split_at(1);
    proof {
        assert(r.spec_bytes() =~= encode_utf8(s@.drop_first()));
        encode_utf8_decode_utf8(r@);
        encode_utf8_decode_utf8(s@.drop_first());
    }
    r
}

/// A string without its last character, which must be ASCII.
pub fn str_drop_last_ascii(s: &str) -> (r: &str)
    requires
        s@.len() > 0,
        is_ascii_char(s@.last()),
    ensures
        r@ == s@.drop_last(),
{
    let ghost b = s.spec_bytes();
    let ghost c = s@.last();
    proof {
        lemma_encode_ascii(c);
        assert(s@ =~= s@.drop_last() + seq![c]);
        lemma_encode_concat(s@.drop_last(), seq![c]);
        assert(b == encode_utf8(s@.drop_last()) + seq![c as u8]);
        assert(b.len() == encode_utf8(s@.drop_last()).len() + 1);
        assert(b[b.len() - 1] == c as u8);
        encode_utf8_valid_utf8(s@);
        lemma_ascii_is_boundary(b, b.len() - 1);
    }
    let n = s.as_bytes().len();
    let (r, _) = s.split_at(n - 1);
    proof {
        assert(r.spec_bytes() =~= encode_utf8(s@.drop_last()));
        encode_utf8_decode_utf8(r@);
        encode_utf8_decode_utf8(s@.drop_last());
    }
    r
}

/// The first character of a string, if any.
pub fn first_char(s: &str) -> (c: Option<char>)
    ensures
        c == (if s@.len() > 0 { Some(s@[0]) } else { None::<char> }),
{
    broadcast use vstd::string::group_string_axioms;
    let mut it = s.chars();
    it.next()
}

/// Whether a string starts with the given ASCII character.
pub fn starts_with_char(s: &str, c: char) -> (b: bool)
    ensures
        b == (s@.len() > 0 && s@[0] == c),
{
    match first_char(s) {
        Some(f) => f == c,
        None => false,
    }
}

/// Whether two strings hold the same characters.
pub fn str_eq(a: &str, b: &str) -> (r: bool)
    ensures
        r == (a@ == b@),
{
    let x = a.to_owned();
    let y = b.to_owned();
    x == y
}

/// Calls `itoa::Buffer::format`: the decimal numeral of an integer (with `-` when negative), as
/// `itoa` documents it ("print integer primitives ... the same as the standard library's
/// formatting").
#[verifier::external_body]
pub(crate) fn format_int(n: i128) -> (r: String)
    ensures
        r@ == spec_decimal(n as int),
{
    itoa::Buffer::new().format(n).to_string()
}

} // verus!
