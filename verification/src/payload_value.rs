//! A payload value: a JSON value that can also hold binary payloads, each with the number by
//! which its placeholder refers to it. Numbers are held as their JSON text, and the members of an
//! object in the order the object is walked.
use crate::json::{json_quote, read_number, spec_json_quote, spec_number_text};
use crate::parser::common::{placeholder, placeholder_key, spec_placeholder};
use crate::text::str_eq;
use crate::text::{lemma_digits_shape, spec_digits};
use vstd::prelude::*;
use vstd::string::StringExecFns;

verus! {

/// Payload value representation, similar to a JSON value, that can hold binary payloads.
#[derive(Debug)]
pub enum PayloadValue {
    /// A JSON `null` value.
    Null,
    /// A JSON boolean value.
    Bool(bool),
    /// A JSON number value, as its JSON text.
    Number(String),
    /// A JSON string value.
    String(String),
    /// A binary payload, with the number of its placeholder.
    Binary(usize, Vec<u8>),
    /// A JSON array value.
    Array(Vec<PayloadValue>),
    /// A JSON object value: its members, each a key and a value.
    Object(Vec<(String, PayloadValue)>),
}

/// Whether a value holds a binary payload.
pub open spec fn spec_has_binary(v: PayloadValue) -> bool
    decreases v,
{
    match v {
        PayloadValue::Binary(_, _) => true,
        PayloadValue::Array(a) => spec_any_binary(a@),
        PayloadValue::Object(o) => spec_any_member_binary(o@),
        _ => false,
    }
}

/// Whether one of the values holds a binary payload.
pub open spec fn spec_any_binary(s: Seq<PayloadValue>) -> bool
    decreases s,
{
    if s.len() == 0 {
        false
    } else {
        spec_has_binary(s[0]) || spec_any_binary(s.drop_first())
    }
}

/// Whether the value of one of the members holds a binary payload.
pub open spec fn spec_any_member_binary(s: Seq<(String, PayloadValue)>) -> bool
    decreases s,
{
    if s.len() == 0 {
        false
    } else {
        spec_has_binary(s[0].1) || spec_any_member_binary(s.drop_first())
    }
}

/// The binary payloads of a value, each with its number, in the order the value is walked.
pub open spec fn spec_payloads(v: PayloadValue) -> Seq<(usize, Seq<u8>)>
    decreases v,
{
    match v {
        PayloadValue::Binary(n, b) => seq![(n, b@)],
        PayloadValue::Array(a) => spec_seq_payloads(a@),
        PayloadValue::Object(o) => spec_member_payloads(o@),
        _ => Seq::empty(),
    }
}

/// The binary payloads of the values, one value after the other.
pub open spec fn spec_seq_payloads(s: Seq<PayloadValue>) -> Seq<(usize, Seq<u8>)>
    decreases s,
{
    if s.len() == 0 {
        Seq::empty()
    } else {
        spec_payloads(s[0]) + spec_seq_payloads(s.drop_first())
    }
}

/// The binary payloads of the values of the members, one member after the other.
pub open spec fn spec_member_payloads(s: Seq<(String, PayloadValue)>) -> Seq<(usize, Seq<u8>)>
    decreases s,
{
    if s.len() == 0 {
        Seq::empty()
    } else {
        spec_payloads(s[0].1) + spec_member_payloads(s.drop_first())
    }
}

/// The payloads with `x` inserted after every payload whose number is not above its own.
pub open spec fn spec_insert_by_num(s: Seq<(usize, Seq<u8>)>, x: (usize, Seq<u8>)) -> Seq<(usize, Seq<u8>)>
    decreases s.len(),
{
    if s.len() == 0 {
        seq![x]
    } else if x.0 < s.last().0 {
        spec_insert_by_num(s.drop_last(), x).push(s.last())
    } else {
        s.push(x)
    }
}

/// The payloads sorted by number, payloads of equal number kept in their order (a stable sort).
pub open spec fn spec_sort_by_num(s: Seq<(usize, Seq<u8>)>) -> Seq<(usize, Seq<u8>)>
    decreases s.len(),
{
    if s.len() == 0 {
        s
    } else {
        spec_insert_by_num(spec_sort_by_num(s.drop_last()), s.last())
    }
}

/// Whether the payloads are in order of number.
pub open spec fn sorted_by_num(s: Seq<(usize, Seq<u8>)>) -> bool {
    forall|i: int, j: int| 0 <= i < j < s.len() ==> s[i].0 <= s[j].0
}

/// The bytes of the payloads.
pub open spec fn payload_bytes(s: Seq<(usize, Seq<u8>)>) -> Seq<Seq<u8>> {
    s.map_values(|p: (usize, Seq<u8>)| p.1)
}

/// Whether one of the values holds a binary payload: whether one of them does.
proof fn lemma_any_binary(s: Seq<PayloadValue>)
    ensures
        spec_any_binary(s) <==> exists|i: int| 0 <= i < s.len() && spec_has_binary(#[trigger] s[i]),
    decreases s.len(),
{
    if s.len() > 0 {
        lemma_any_binary(s.drop_first());
        if exists|i: int| 0 <= i < s.len() && spec_has_binary(#[trigger] s[i]) {
            let i = choose|i: int| 0 <= i < s.len() && spec_has_binary(#[trigger] s[i]);
            if i > 0 {
                assert(s.drop_first()[i - 1] == s[i]);
            }
        }
        if spec_any_binary(s.drop_first()) {
            let i = choose|i: int| 0 <= i < s.drop_first().len() && spec_has_binary(#[trigger] s.drop_first()[i]);
            assert(s[i + 1] == s.drop_first()[i]);
        }
    }
}

/// Whether the value of one of the members holds a binary payload: whether one of them does.
proof fn lemma_any_member_binary(s: Seq<(String, PayloadValue)>)
    ensures
        spec_any_member_binary(s) <==> exists|i: int| 0 <= i < s.len() && spec_has_binary(#[trigger] s[i].1),
    decreases s.len(),
{
    if s.len() > 0 {
        lemma_any_member_binary(s.drop_first());
        if exists|i: int| 0 <= i < s.len() && spec_has_binary(#[trigger] s[i].1) {
            let i = choose|i: int| 0 <= i < s.len() && spec_has_binary(#[trigger] s[i].1);
            if i > 0 {
                assert(s.drop_first()[i - 1] == s[i]);
            }
        }
        if spec_any_member_binary(s.drop_first()) {
            let i = choose|i: int| 0 <= i < s.drop_first().len() && spec_has_binary(#[trigger] s.drop_first()[i].1);
            assert(s[i + 1] == s.drop_first()[i]);
        }
    }
}

/// The payloads of values taken one after the other: those of a prefix, then those of the next.
proof fn lemma_seq_payloads_push(s: Seq<PayloadValue>, i: int)
    requires
        0 <= i < s.len(),
    ensures
        spec_seq_payloads(s.take(i + 1)) == spec_seq_payloads(s.take(i)) + spec_payloads(s[i]),
    decreases i,
{
    if i == 0 {
        assert(s.take(1).drop_first() =~= Seq::<PayloadValue>::empty());
        assert(s.take(0) =~= Seq::<PayloadValue>::empty());
        assert(s.take(1)[0] == s[0]);
        assert(spec_seq_payloads(Seq::<PayloadValue>::empty()) == Seq::<(usize, Seq<u8>)>::empty());
        assert(spec_seq_payloads(s.take(1)) =~= spec_payloads(s[0]));
    } else {
        let t = s.drop_first();
        lemma_seq_payloads_push(t, i - 1);
        assert(s.take(i + 1).drop_first() =~= t.take(i));
        assert(s.take(i).drop_first() =~= t.take(i - 1));
        assert(t[i - 1] == s[i]);
    }
}

/// The payloads of the members taken one after the other.
proof fn lemma_member_payloads_push(s: Seq<(String, PayloadValue)>, i: int)
    requires
        0 <= i < s.len(),
    ensures
        spec_member_payloads(s.take(i + 1)) == spec_member_payloads(s.take(i)) + spec_payloads(s[i].1),
    decreases i,
{
    if i == 0 {
        assert(s.take(1).drop_first() =~= Seq::<(String, PayloadValue)>::empty());
        assert(s.take(0) =~= Seq::<(String, PayloadValue)>::empty());
        assert(s.take(1)[0] == s[0]);
        assert(spec_member_payloads(Seq::<(String, PayloadValue)>::empty()) == Seq::<(usize, Seq<u8>)>::empty());
        assert(spec_member_payloads(s.take(1)) =~= spec_payloads(s[0].1));
    } else {
        let t = s.drop_first();
        lemma_member_payloads_push(t, i - 1);
        assert(s.take(i + 1).drop_first() =~= t.take(i));
        assert(s.take(i).drop_first() =~= t.take(i - 1));
        assert(t[i - 1] == s[i]);
    }
}

/// The JSON text of a number value (empty for other values).
pub open spec fn spec_number_of(v: PayloadValue) -> Seq<char> {
    match v {
        PayloadValue::Number(t) => t@,
        _ => Seq::empty(),
    }
}

/// The JSON text of a value, binary payloads written as their placeholder objects, numbers as
/// `serde_json` prints them; `None` when a number in it is not a JSON number.
pub open spec fn spec_json_text(v: PayloadValue) -> Option<Seq<char>>
    decreases v,
{
    match v {
        PayloadValue::Null => Some(seq!['n', 'u', 'l', 'l']),
        PayloadValue::Bool(b) => Some(
            if b {
                seq!['t', 'r', 'u', 'e']
            } else {
                seq!['f', 'a', 'l', 's', 'e']
            },
        ),
        PayloadValue::Number(t) => spec_number_text(t@),
        PayloadValue::String(s) => Some(spec_json_quote(s@)),
        PayloadValue::Binary(n, _) => Some(spec_placeholder(n as nat)),
        PayloadValue::Array(a) => match spec_json_items(a@) {
            Some(body) => Some(seq!['['] + body + seq![']']),
            None => None,
        },
        PayloadValue::Object(o) => match spec_json_members(o@) {
            Some(body) => Some(seq!['{'] + body + seq!['}']),
            None => None,
        },
    }
}

/// The JSON texts of the values, separated by commas.
pub open spec fn spec_json_items(s: Seq<PayloadValue>) -> Option<Seq<char>>
    decreases s,
{
    if s.len() == 0 {
        Some(Seq::empty())
    } else {
        match (spec_json_items(s.drop_last()), spec_json_text(s.last())) {
            (Some(p), Some(x)) => Some(
                if s.len() == 1 {
                    x
                } else {
                    p + seq![','] + x
                },
            ),
            _ => None,
        }
    }
}

/// The members as JSON text (each key quoted, a colon, the value's text), separated by commas.
pub open spec fn spec_json_members(s: Seq<(String, PayloadValue)>) -> Option<Seq<char>>
    decreases s,
{
    if s.len() == 0 {
        Some(Seq::empty())
    } else {
        match (spec_json_members(s.drop_last()), spec_json_text(s.last().1)) {
            (Some(p), Some(x)) => {
                let m = spec_json_quote(s.last().0@) + seq![':'] + x;
                Some(
                    if s.len() == 1 {
                        m
                    } else {
                        p + seq![','] + m
                    },
                )
            },
            _ => None,
        }
    }
}

/// The values have a JSON text only where each of them has one.
proof fn lemma_items_some(s: Seq<PayloadValue>)
    ensures
        spec_json_items(s) is Some <==> forall|k: int| 0 <= k < s.len() ==> (#[trigger] spec_json_text(s[k])) is Some,
    decreases s.len(),
{
    if s.len() > 0 {
        let t = s.drop_last();
        lemma_items_some(t);
        assert forall|k: int| 0 <= k < t.len() implies t[k] == s[k] by {}
        if forall|k: int| 0 <= k < s.len() ==> (#[trigger] spec_json_text(s[k])) is Some {
            assert forall|k: int| 0 <= k < t.len() implies (#[trigger] spec_json_text(t[k])) is Some by {
                assert(t[k] == s[k]);
            }
            assert(spec_json_text(s[s.len() - 1]) is Some);
        }
    }
}

/// The members have a JSON text only where the value of each of them has one.
proof fn lemma_members_some(s: Seq<(String, PayloadValue)>)
    ensures
        spec_json_members(s) is Some <==> forall|k: int| 0 <= k < s.len() ==> (#[trigger] spec_json_text(s[k].1)) is Some,
    decreases s.len(),
{
    if s.len() > 0 {
        let t = s.drop_last();
        lemma_members_some(t);
        assert forall|k: int| 0 <= k < t.len() implies t[k] == s[k] by {}
        if forall|k: int| 0 <= k < s.len() ==> (#[trigger] spec_json_text(s[k].1)) is Some {
            assert forall|k: int| 0 <= k < t.len() implies (#[trigger] spec_json_text(t[k].1)) is Some by {
                assert(t[k] == s[k]);
            }
            assert(spec_json_text(s[s.len() - 1].1) is Some);
        }
    }
}

/// The key of the number of a placeholder object.
pub open spec fn num_key() -> Seq<char> {
    seq!['n', 'u', 'm']
}

/// Whether `a` is the member `_placeholder: true` and `b` a member `num` whose value is an
/// unsigned integer that fits a `u64`.
pub open spec fn placeholder_members(a: (String, PayloadValue), b: (String, PayloadValue)) -> bool {
    &&& a.0@ == placeholder_key()
    &&& a.1 == PayloadValue::Bool(true)
    &&& b.0@ == num_key()
    &&& exists|v: u64| #[trigger] spec_digits(v as nat) == spec_number_of(b.1)
}

/// Whether the members of an object make a binary placeholder: exactly two members,
/// `_placeholder: true` and a `num` that is an unsigned integer fitting a `u64`.
pub open spec fn is_placeholder_object(ms: Seq<(String, PayloadValue)>) -> bool {
    ms.len() == 2 && (placeholder_members(ms[0], ms[1]) || placeholder_members(ms[1], ms[0]))
}

/// The `num` member of a placeholder object.
pub open spec fn placeholder_num_member(ms: Seq<(String, PayloadValue)>) -> PayloadValue {
    if placeholder_members(ms[0], ms[1]) {
        ms[1].1
    } else {
        ms[0].1
    }
}

impl PayloadValue {
    /// Whether the value holds a binary payload.
    pub fn has_binary(&self) -> (b: bool)
        ensures
            b == spec_has_binary(*self),
        decreases self,
    {
        match self {
            PayloadValue::Binary(_, _) => true,
            PayloadValue::Array(a) => {
                proof {
                    lemma_any_binary(a@);
                }
                let mut i: usize = 0;
                while i < a.len()
                    invariant
                        0 <= i <= a@.len(),
                        *self == PayloadValue::Array(*a),
                        spec_any_binary(a@) <==> exists|k: int| 0 <= k < a@.len() && spec_has_binary(#[trigger] a@[k]),
                        forall|k: int| 0 <= k < i ==> !spec_has_binary(#[trigger] a@[k]),
                    decreases a@.len() - i,
                {
                    proof {
                        assert(decreases_to!(*self => (*self)->Array_0));
                        assert(decreases_to!(*a => a@));
                        assert(decreases_to!(a@ => a@[i as int]));
                    }
                    if a[i].has_binary() {
                        return true;
                    }
                    i = i + 1;
                }
                false
            },
            PayloadValue::Object(o) => {
                proof {
                    lemma_any_member_binary(o@);
                }
                let mut i: usize = 0;
                while i < o.len()
                    invariant
                        0 <= i <= o@.len(),
                        *self == PayloadValue::Object(*o),
                        spec_any_member_binary(o@) <==> exists|k: int| 0 <= k < o@.len() && spec_has_binary(#[trigger] o@[k].1),
                        forall|k: int| 0 <= k < i ==> !spec_has_binary(#[trigger] o@[k].1),
                    decreases o@.len() - i,
                {
                    proof {
                        assert(decreases_to!(*self => (*self)->Object_0));
                        assert(decreases_to!(*o => o@));
                        assert(decreases_to!(o@ => o@[i as int]));
                        assert(decreases_to!(o@[i as int] => o@[i as int].1));
                    }
                    if o[i].1.has_binary() {
                        return true;
                    }
                    i = i + 1;
                }
                false
            },
            _ => false,
        }
    }

    /// Appends the binary payloads of the value, each with its number, in the order the value is
    /// walked.
    fn collect_payloads(&self, out: &mut Vec<(usize, Vec<u8>)>)
        ensures
            final(out)@.map_values(|p: (usize, Vec<u8>)| (p.0, p.1@)) == old(out)@.map_values(
                |p: (usize, Vec<u8>)| (p.0, p.1@),
            ) + spec_payloads(*self),
        decreases self,
    {
        let ghost f = |p: (usize, Vec<u8>)| (p.0, p.1@);
        match self {
            PayloadValue::Binary(n, b) => {
                out.push((*n, b.clone()));
                proof {
                    assert(out@.map_values(f) =~= old(out)@.map_values(f) + seq![(*n, b@)]);
                }
            },
            PayloadValue::Array(a) => {
                let mut i: usize = 0;
                while i < a.len()
                    invariant
                        0 <= i <= a@.len(),
                        *self == PayloadValue::Array(*a),
                        f == (|p: (usize, Vec<u8>)| (p.0, p.1@)),
                        out@.map_values(f) == old(out)@.map_values(f) + spec_seq_payloads(a@.take(i as int)),
                    decreases a@.len() - i,
                {
                    proof {
                        lemma_seq_payloads_push(a@, i as int);
                        assert(decreases_to!(*self => (*self)->Array_0));
                        assert(decreases_to!(*a => a@));
                        assert(decreases_to!(a@ => a@[i as int]));
                    }
                    a[i].collect_payloads(out);
                    assert(out@.map_values(f) =~= old(out)@.map_values(f) + spec_seq_payloads(a@.take(i + 1)));
                    i = i + 1;
                }
                assert(a@.take(a@.len() as int) =~= a@);
            },
            PayloadValue::Object(o) => {
                let mut i: usize = 0;
                while i < o.len()
                    invariant
                        0 <= i <= o@.len(),
                        *self == PayloadValue::Object(*o),
                        f == (|p: (usize, Vec<u8>)| (p.0, p.1@)),
                        out@.map_values(f) == old(out)@.map_values(f) + spec_member_payloads(o@.take(i as int)),
                    decreases o@.len() - i,
                {
                    proof {
                        lemma_member_payloads_push(o@, i as int);
                        assert(decreases_to!(*self => (*self)->Object_0));
                        assert(decreases_to!(*o => o@));
                        assert(decreases_to!(o@ => o@[i as int]));
                        assert(decreases_to!(o@[i as int] => o@[i as int].1));
                    }
                    o[i].1.collect_payloads(out);
                    assert(out@.map_values(f) =~= old(out)@.map_values(f) + spec_member_payloads(o@.take(i + 1)));
                    i = i + 1;
                }
                assert(o@.take(o@.len() as int) =~= o@);
            },
            _ => {
                assert(out@.map_values(f) =~= old(out)@.map_values(f) + spec_payloads(*self));
            },
        }
    }
}

/// Where [`spec_insert_by_num`] puts `x`: after the last payload, counting from the end, whose
/// number is not above its own.
pub open spec fn spec_insert_pos(s: Seq<(usize, Seq<u8>)>, x: (usize, Seq<u8>)) -> int
    decreases s.len(),
{
    if s.len() == 0 {
        0
    } else if x.0 < s.last().0 {
        spec_insert_pos(s.drop_last(), x)
    } else {
        s.len() as int
    }
}

/// Inserting by number puts `x` at its position.
proof fn lemma_insert_at_pos(s: Seq<(usize, Seq<u8>)>, x: (usize, Seq<u8>))
    ensures
        0 <= spec_insert_pos(s, x) <= s.len(),
        spec_insert_by_num(s, x) == s.take(spec_insert_pos(s, x)) + seq![x] + s.skip(spec_insert_pos(s, x)),
    decreases s.len(),
{
    if s.len() > 0 {
        if x.0 < s.last().0 {
            let t = s.drop_last();
            lemma_insert_at_pos(t, x);
            let p = spec_insert_pos(t, x);
            assert(t.take(p) =~= s.take(p));
            assert(t.skip(p).push(s.last()) =~= s.skip(p));
        } else {
            assert(s.take(s.len() as int) =~= s);
            assert(s.skip(s.len() as int) =~= Seq::<(usize, Seq<u8>)>::empty());
        }
    } else {
        assert(s.take(0) =~= s);
        assert(s.skip(0) =~= s);
    }
    assert(spec_insert_by_num(s, x) =~= s.take(spec_insert_pos(s, x)) + seq![x] + s.skip(spec_insert_pos(s, x)));
}

/// Inserting by number into payloads in order of number keeps them in order, and adds `x` to
/// them.
proof fn lemma_insert_sorted(s: Seq<(usize, Seq<u8>)>, x: (usize, Seq<u8>))
    requires
        sorted_by_num(s),
    ensures
        sorted_by_num(spec_insert_by_num(s, x)),
        spec_insert_by_num(s, x).to_multiset() == s.to_multiset().insert(x),
    decreases s.len(),
{
    broadcast use vstd::seq_lib::group_to_multiset_ensures;
    if s.len() > 0 {
        let t = s.drop_last();
        assert(t.push(s.last()) =~= s);
        if x.0 < s.last().0 {
            assert(sorted_by_num(t));
            lemma_insert_sorted(t, x);
            let u = spec_insert_by_num(t, x);
            lemma_insert_at_pos(t, x);
            assert forall|k: int| 0 <= k < u.len() implies u[k].0 <= s.last().0 by {
                let p = spec_insert_pos(t, x);
                if k < p {
                    assert(u[k] == t[k]);
                } else if k > p {
                    assert(u[k] == t[k - 1]);
                }
            }
            assert(u.push(s.last()).to_multiset() =~= u.to_multiset().insert(s.last()));
            assert(s.to_multiset() =~= t.to_multiset().insert(s.last()));
        } else {
            assert(s.push(x).to_multiset() =~= s.to_multiset().insert(x));
        }
    } else {
        assert(seq![x] =~= s.push(x));
    }
}

/// A value holds a binary payload exactly when it has payloads.
proof fn lemma_binary_iff_payloads(v: PayloadValue)
    ensures
        spec_has_binary(v) <==> spec_payloads(v).len() > 0,
    decreases v,
{
    match v {
        PayloadValue::Array(a) => {
            lemma_seq_binary_iff_payloads(a@);
        },
        PayloadValue::Object(o) => {
            lemma_member_binary_iff_payloads(o@);
        },
        _ => {},
    }
}

/// Values hold a binary payload exactly when they have payloads.
proof fn lemma_seq_binary_iff_payloads(s: Seq<PayloadValue>)
    ensures
        spec_any_binary(s) <==> spec_seq_payloads(s).len() > 0,
    decreases s,
{
    if s.len() > 0 {
        lemma_binary_iff_payloads(s[0]);
        lemma_seq_binary_iff_payloads(s.drop_first());
    }
}

/// Members hold a binary payload exactly when their values have payloads.
proof fn lemma_member_binary_iff_payloads(s: Seq<(String, PayloadValue)>)
    ensures
        spec_any_member_binary(s) <==> spec_member_payloads(s).len() > 0,
    decreases s,
{
    if s.len() > 0 {
        lemma_binary_iff_payloads(s[0].1);
        lemma_member_binary_iff_payloads(s.drop_first());
    }
}

/// The binary payloads handed out are as many as the value holds, in order of number; and there
/// is one exactly when the value holds a binary payload.
pub proof fn lemma_binary_payloads_found(v: PayloadValue)
    ensures
        spec_has_binary(v) <==> spec_payloads(v).len() > 0,
        payload_bytes(spec_sort_by_num(spec_payloads(v))).len() == spec_payloads(v).len(),
        sorted_by_num(spec_sort_by_num(spec_payloads(v))),
        spec_sort_by_num(spec_payloads(v)).to_multiset() == spec_payloads(v).to_multiset(),
{
    broadcast use vstd::seq_lib::group_to_multiset_ensures;
    lemma_binary_iff_payloads(v);
    lemma_sort_by_num(spec_payloads(v));
    assert(spec_sort_by_num(spec_payloads(v)).to_multiset().len() == spec_payloads(v).to_multiset().len());
}

/// Sorting by number gives payloads in order of number, the same payloads as before.
pub proof fn lemma_sort_by_num(s: Seq<(usize, Seq<u8>)>)
    ensures
        sorted_by_num(spec_sort_by_num(s)),
        spec_sort_by_num(s).to_multiset() == s.to_multiset(),
    decreases s.len(),
{
    broadcast use vstd::seq_lib::group_to_multiset_ensures;
    if s.len() > 0 {
        lemma_sort_by_num(s.drop_last());
        lemma_insert_sorted(spec_sort_by_num(s.drop_last()), s.last());
        assert(s.drop_last().push(s.last()) =~= s);
    }
}

/// The payloads as values.
pub open spec fn pairs_view(v: Seq<(usize, Vec<u8>)>) -> Seq<(usize, Seq<u8>)> {
    v.map_values(|p: (usize, Vec<u8>)| (p.0, p.1@))
}

/// Inserts `x` into payloads in order of number, after those of the same number.
fn insert_by_num(v: &mut Vec<(usize, Vec<u8>)>, x: (usize, Vec<u8>))
    ensures
        pairs_view(final(v)@) == spec_insert_by_num(pairs_view(old(v)@), (x.0, x.1@)),
{
    let ghost s = pairs_view(v@);
    let ghost xv = (x.0, x.1@);
    let mut k: usize = v.len();
    assert(s.take(k as int) =~= s);
    while k > 0 && x.0 < v[k - 1].0
        invariant
            0 <= k <= v@.len(),
            s == pairs_view(v@),
            xv == (x.0, x.1@),
            spec_insert_pos(s, xv) == spec_insert_pos(s.take(k as int), xv),
        decreases k,
    {
        proof {
            assert(s.take(k as int).drop_last() =~= s.take(k - 1));
            assert(s.take(k as int).last() == s[k - 1]);
        }
        k = k - 1;
    }
    proof {
        if k > 0 {
            assert(s.take(k as int).last() == s[k - 1]);
            assert(s.take(k as int).len() == k);
        } else {
            assert(s.take(0).len() == 0);
        }
        lemma_insert_at_pos(s, xv);
    }
    v.insert(k, x);
    assert(pairs_view(v@) =~= s.take(k as int) + seq![xv] + s.skip(k as int));
}

impl PayloadValue {
    /// Counts the binary payloads of the value.
    pub fn count_payloads(&self) -> (n: usize)
        ensures
            n == spec_payloads(*self).len(),
    {
        let mut all: Vec<(usize, Vec<u8>)> = Vec::new();
        self.collect_payloads(&mut all);
        assert(pairs_view(all@) =~= spec_payloads(*self));
        all.len()
    }

    /// The binary payloads of the value, in order of their numbers, as they are sent after a
    /// binary event; payloads of the same number keep the order in which the value is walked.
    pub fn get_binary_payloads(&self) -> (bins: Vec<Vec<u8>>)
        ensures
            bins@.map_values(|b: Vec<u8>| b@) == payload_bytes(spec_sort_by_num(spec_payloads(*self))),
    {
        let mut all: Vec<(usize, Vec<u8>)> = Vec::new();
        self.collect_payloads(&mut all);
        let ghost s = spec_payloads(*self);
        assert(pairs_view(all@) =~= s);
        let mut sorted: Vec<(usize, Vec<u8>)> = Vec::new();
        let mut i: usize = 0;
        while i < all.len()
            invariant
                0 <= i <= all@.len(),
                pairs_view(all@) == s,
                pairs_view(sorted@) == spec_sort_by_num(s.take(i as int)),
            decreases all@.len() - i,
        {
            let (n, b) = (all[i].0, all[i].1.clone());
            proof {
                assert(s.take(i + 1).drop_last() =~= s.take(i as int));
                assert(s.take(i + 1).last() == s[i as int]);
                assert(s[i as int] == (n, b@));
            }
            insert_by_num(&mut sorted, (n, b));
            i = i + 1;
        }
        assert(s.take(all@.len() as int) =~= s);
        let mut bins: Vec<Vec<u8>> = Vec::new();
        let mut j: usize = 0;
        while j < sorted.len()
            invariant
                0 <= j <= sorted@.len(),
                pairs_view(sorted@) == spec_sort_by_num(s),
                bins@.map_values(|b: Vec<u8>| b@) == payload_bytes(pairs_view(sorted@).take(j as int)),
            decreases sorted@.len() - j,
        {
            let b = sorted[j].1.clone();
            assert(b@ == pairs_view(sorted@)[j as int].1);
            let ghost before = bins@;
            bins.push(b);
            assert(bins@ == before.push(b));
            assert(pairs_view(sorted@).take(j + 1) =~= pairs_view(sorted@).take(j as int).push(pairs_view(sorted@)[j as int]));
            proof {
                before.lemma_push_map_commute(|c: Vec<u8>| c@, b);
                pairs_view(sorted@).take(j as int).lemma_push_map_commute(|p: (usize, Seq<u8>)| p.1, pairs_view(sorted@)[j as int]);
            }
            assert(bins@.map_values(|b: Vec<u8>| b@) =~= payload_bytes(pairs_view(sorted@).take(j + 1)));
            j = j + 1;
        }
        assert(pairs_view(sorted@).take(sorted@.len() as int) =~= pairs_view(sorted@));
        bins
    }

    /// The boolean, if the value is a boolean.
    pub fn as_bool(&self) -> (b: Option<bool>)
        ensures
            b == (match *self {
                PayloadValue::Bool(x) => Some(x),
                _ => None,
            }),
    {
        match self {
            PayloadValue::Bool(b) => Some(*b),
            _ => None,
        }
    }

    /// The number as a `u64`, if the value is a number that is an unsigned integer fitting one.
    pub fn as_u64(&self) -> (r: Option<u64>)
        ensures
            (exists|v: u64| #[trigger] spec_digits(v as nat) == spec_number_of(*self)) ==> r is Some,
            r matches Some(v) ==> self is Number && spec_digits(v as nat) == spec_number_of(*self),
    {
        match self {
            PayloadValue::Number(t) => {
                let r = read_number(t.as_str());
                proof {
                    if exists|v: u64| #[trigger] spec_digits(v as nat) == t@ {
                        let v = choose|v: u64| #[trigger] spec_digits(v as nat) == t@;
                        assert(spec_digits(v as nat) == t@);
                    }
                }
                match r {
                    Some(n) => n.unsigned,
                    None => None,
                }
            },
            _ => {
                assert forall|v: u64| #[trigger] spec_digits(v as nat) != spec_number_of(*self) by {
                    lemma_digits_shape(v as nat);
                }
                None
            },
        }
    }

    /// The JSON text of the value, binary payloads written as their placeholder objects; `None`
    /// when a number in it is not a JSON number.
    pub fn to_json_string(&self) -> (r: Option<String>)
        ensures
            r matches Some(t) ==> spec_json_text(*self) == Some(t@),
            r is None <==> spec_json_text(*self) is None,
    {
        let mut out = String::new();
        if self.write_json(&mut out) {
            assert(out@ =~= spec_json_text(*self).unwrap());
            Some(out)
        } else {
            None
        }
    }

    /// Appends the JSON text of the value; `false` when a number in it is not a JSON number.
    fn write_json(&self, out: &mut String) -> (ok: bool)
        ensures
            ok <==> spec_json_text(*self) is Some,
            ok ==> final(out)@ == old(out)@ + spec_json_text(*self).unwrap(),
        decreases self,
    {
        proof {
            reveal_strlit("null");
            reveal_strlit("true");
            reveal_strlit("false");
            reveal_strlit("[");
            reveal_strlit("]");
            reveal_strlit("{");
            reveal_strlit("}");
        }
        assert("["@ =~= seq!['[']);
        assert("]"@ =~= seq![']']);
        assert("{"@ =~= seq!['{']);
        assert("}"@ =~= seq!['}']);
        assert("null"@ =~= seq!['n', 'u', 'l', 'l']);
        assert("true"@ =~= seq!['t', 'r', 'u', 'e']);
        assert("false"@ =~= seq!['f', 'a', 'l', 's', 'e']);
        match self {
            PayloadValue::Null => {
                out.append("null");
                true
            },
            PayloadValue::Bool(b) => {
                if *b {
                    out.append("true");
                } else {
                    out.append("false");
                }
                true
            },
            PayloadValue::Number(t) => match read_number(t.as_str()) {
                Some(n) => {
                    out.append(n.text.as_str());
                    true
                },
                None => false,
            },
            PayloadValue::String(x) => {
                let q = json_quote(x.as_str());
                out.append(q.as_str());
                true
            },
            PayloadValue::Binary(n, _) => {
                let p = placeholder(*n);
                out.append(p.as_str());
                true
            },
            PayloadValue::Array(a) => {
                out.append("[");
                let ghost start = out@;
                let mut i: usize = 0;
                while i < a.len()
                    invariant
                        0 <= i <= a@.len(),
                        *self == PayloadValue::Array(*a),
                        start == old(out)@ + seq!['['],
                        spec_json_items(a@.take(i as int)) is Some,
                        out@ == start + spec_json_items(a@.take(i as int)).unwrap(),
                    decreases a@.len() - i,
                {
                    proof {
                        assert(decreases_to!(*self => (*self)->Array_0));
                        assert(decreases_to!(*a => a@));
                        assert(decreases_to!(a@ => a@[i as int]));
                        assert(a@.take(i + 1).drop_last() =~= a@.take(i as int));
                        assert(a@.take(i + 1).last() == a@[i as int]);
                    }
                    proof {
                        reveal_strlit(",");
                        reveal_strlit(":");
                    }
                    assert(","@ =~= seq![',']);
                    assert(":"@ =~= seq![':']);
                    let ghost before = out@;
                    if i > 0 {
                        out.append(",");
                    }
                    let ghost sep = out@;
                    if !a[i].write_json(out) {
                        proof {
                            lemma_items_some(a@);
                        }
                        return false;
                    }
                    assert(out@ == sep + spec_json_text(a@[i as int]).unwrap());
                    assert(i > 0 ==> sep == before + seq![',']);
                    assert(i == 0 ==> sep == before);
                    assert(out@ =~= start + spec_json_items(a@.take(i + 1)).unwrap());
                    i = i + 1;
                }
                assert(a@.take(a@.len() as int) =~= a@);
                out.append("]");
                true
            },
            PayloadValue::Object(o) => {
                out.append("{");
                let ghost start = out@;
                let mut i: usize = 0;
                while i < o.len()
                    invariant
                        0 <= i <= o@.len(),
                        *self == PayloadValue::Object(*o),
                        start == old(out)@ + seq!['{'],
                        spec_json_members(o@.take(i as int)) is Some,
                        out@ == start + spec_json_members(o@.take(i as int)).unwrap(),
                    decreases o@.len() - i,
                {
                    proof {
                        assert(decreases_to!(*self => (*self)->Object_0));
                        assert(decreases_to!(*o => o@));
                        assert(decreases_to!(o@ => o@[i as int]));
                        assert(decreases_to!(o@[i as int] => o@[i as int].1));
                        assert(o@.take(i + 1).drop_last() =~= o@.take(i as int));
                        assert(o@.take(i + 1).last() == o@[i as int]);
                    }
                    proof {
                        reveal_strlit(",");
                        reveal_strlit(":");
                    }
                    assert(","@ =~= seq![',']);
                    assert(":"@ =~= seq![':']);
                    let ghost before = out@;
                    if i > 0 {
                        out.append(",");
                    }
                    let ghost sep = out@;
                    let q = json_quote(o[i].0.as_str());
                    out.append(q.as_str());
                    out.append(":");
                    let ghost head = out@;
                    if !o[i].1.write_json(out) {
                        proof {
                            lemma_members_some(o@);
                        }
                        return false;
                    }
                    assert(out@ == head + spec_json_text(o@[i as int].1).unwrap());
                    assert(head == sep + spec_json_quote(o@[i as int].0@) + seq![':']);
                    assert(i > 0 ==> sep == before + seq![',']);
                    assert(i == 0 ==> sep == before);
                    assert(out@ =~= start + spec_json_members(o@.take(i + 1)).unwrap());
                    i = i + 1;
                }
                assert(o@.take(o@.len() as int) =~= o@);
                out.append("}");
                true
            },
        }
    }

    /// The value read from the members of an object: a binary placeholder (its payload not yet
    /// received) when the members are exactly `_placeholder: true` and an unsigned integer `num`,
    /// the object otherwise.
    pub fn from_members(members: Vec<(String, PayloadValue)>) -> (v: PayloadValue)
        ensures
            v is Binary <==> is_placeholder_object(members@),
            v matches PayloadValue::Binary(k, b) ==> b@.len() == 0 && (exists|n: u64|
                #[trigger] spec_digits(n as nat) == spec_number_of(placeholder_num_member(members@)) && k == n as usize),
            !is_placeholder_object(members@) ==> v == PayloadValue::Object(members),
    {
        if members.len() != 2 {
            return PayloadValue::Object(members);
        }
        let mut found: Option<u64> = None;
        if Self::placeholder_pair(&members[0], &members[1]) {
            found = members[1].1.as_u64();
        } else if Self::placeholder_pair(&members[1], &members[0]) {
            found = members[0].1.as_u64();
        }
        match found {
            Some(n) => PayloadValue::Binary(n as usize, Vec::new()),
            None => {
                proof {
                    if placeholder_members(members@[0], members@[1]) {
                        let w = choose|w: u64| #[trigger] spec_digits(w as nat) == spec_number_of(members@[1].1);
                        assert(spec_digits(w as nat) == spec_number_of(members@[1].1));
                    }
                    if placeholder_members(members@[1], members@[0]) {
                        let w = choose|w: u64| #[trigger] spec_digits(w as nat) == spec_number_of(members@[0].1);
                        assert(spec_digits(w as nat) == spec_number_of(members@[0].1));
                    }
                }
                PayloadValue::Object(members)
            },
        }
    }

    /// Whether `a` is `_placeholder: true` and `b` has the key `num`.
    fn placeholder_pair(a: &(String, PayloadValue), b: &(String, PayloadValue)) -> (r: bool)
        ensures
            r == (a.0@ == placeholder_key() && a.1 == PayloadValue::Bool(true) && b.0@ == num_key()),
    {
        proof {
            reveal_strlit("_placeholder");
            reveal_strlit("num");
        }
        assert("_placeholder"@ =~= placeholder_key());
        assert("num"@ =~= num_key());
        let t = match a.1.as_bool() {
            Some(x) => x,
            None => false,
        };
        str_eq(a.0.as_str(), "_placeholder") && t && str_eq(b.0.as_str(), "num")
    }

    /// The string, if the value is a string.
    pub fn as_str(&self) -> (s: Option<&str>)
        ensures
            match *self {
                PayloadValue::String(x) => s matches Some(t) && t@ == x@,
                _ => s is None,
            },
    {
        match self {
            PayloadValue::String(s) => Some(s.as_str()),
            _ => None,
        }
    }
}

} // verus!
