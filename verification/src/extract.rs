//! What handlers extract: a state, the parameters of a dynamic namespace, and the errors
//! extracting them reports.
use crate::json::{json_parse, spec_json_parse, JsonShape, JsonShapeView};
use crate::packet::{MsgPackValue, Value, ValueView};
use crate::parser::msgpack::codec::{read_array_len, spec_read_array_len};
use crate::parser::msgpack::de::{lemma_skip_bounds, skip_element, walk_element, Step};
use crate::text::{format_int, spec_decimal};
use std::marker::PhantomData;
use vstd::prelude::*;

verus! {

/// An extractor for a state previously set on the server.
#[derive(Debug)]
pub struct State<T>(pub T);

/// It was impossible to find the given state and therefore the handler won't be called.
#[derive(Debug)]
pub struct StateNotFound<T>(pub PhantomData<T>);

impl<T> StateNotFound<T> {
    /// The error for a missing state of type `T`.
    pub fn new() -> (e: StateNotFound<T>) {
        StateNotFound(PhantomData)
    }
}

/// An extractor for the parameters of a dynamic namespace.
#[derive(Debug)]
pub struct NsParam<T>(pub T);

/// Why the parameters of a dynamic namespace could not be deserialized.
#[derive(Debug, Clone)]
pub enum NsParamDeserializationError {
    /// The type to deserialize into is not supported.
    UnsupportedType(&'static str),
    /// A custom message.
    Message(String),
    /// Failed to parse a value into the expected type.
    ParseError { value: String, expected_type: &'static str },
    /// Failed to parse the value at a specific key into the expected type.
    ParseErrorAtKey { key: String, value: String, expected_type: &'static str },
    /// Failed to parse the value at a specific index into the expected type.
    ParseErrorAtIndex { index: usize, value: String, expected_type: &'static str },
    /// The number of parameters is not the one expected.
    WrongNumberOfParameters { got: usize, expected: usize },
}

/// The message of a failed parse of `value` into `expected_type`.
pub open spec fn parse_failure(value: Seq<char>, expected_type: Seq<char>) -> Seq<char> {
    "Failed to parse value: '"@ + value + "', expected type: "@ + expected_type
}

/// The message of an error.
pub open spec fn spec_message(e: NsParamDeserializationError) -> Seq<char> {
    match e {
        NsParamDeserializationError::UnsupportedType(t) => "Unsupported type: "@ + t@,
        NsParamDeserializationError::Message(m) => m@,
        NsParamDeserializationError::ParseError { value, expected_type } => parse_failure(value@, expected_type@),
        NsParamDeserializationError::ParseErrorAtKey { key, value, expected_type } => parse_failure(
            value@,
            expected_type@,
        ) + " at key: "@ + key@,
        NsParamDeserializationError::ParseErrorAtIndex { index, value, expected_type } => parse_failure(
            value@,
            expected_type@,
        ) + " at index: "@ + spec_decimal(index as int),
        NsParamDeserializationError::WrongNumberOfParameters { got, expected } => "Wrong number of parameters, got: "@
            + spec_decimal(got as int) + ", expected: "@ + spec_decimal(expected as int),
    }
}

/// Appends the message of a failed parse.
fn push_parse_failure(out: &mut String, value: &str, expected_type: &str)
    ensures
        final(out)@ == old(out)@ + parse_failure(value@, expected_type@),
{
    out.append("Failed to parse value: '");
    out.append(value);
    out.append("', expected type: ");
    out.append(expected_type);
}

impl NsParamDeserializationError {
    /// The message of the error.
    pub fn message(&self) -> (s: String)
        ensures
            s@ == spec_message(*self),
    {
        let mut out = String::new();
        match self {
            NsParamDeserializationError::UnsupportedType(t) => {
                out.append("Unsupported type: ");
                out.append(t);
            },
            NsParamDeserializationError::Message(m) => {
                out.append(m.as_str());
            },
            NsParamDeserializationError::ParseError { value, expected_type } => {
                push_parse_failure(&mut out, value.as_str(), expected_type);
            },
            NsParamDeserializationError::ParseErrorAtKey { key, value, expected_type } => {
                push_parse_failure(&mut out, value.as_str(), expected_type);
                out.append(" at key: ");
                out.append(key.as_str());
            },
            NsParamDeserializationError::ParseErrorAtIndex { index, value, expected_type } => {
                push_parse_failure(&mut out, value.as_str(), expected_type);
                out.append(" at index: ");
                let n = format_int(*index as i128);
                out.append(n.as_str());
            },
            NsParamDeserializationError::WrongNumberOfParameters { got, expected } => {
                out.append("Wrong number of parameters, got: ");
                let g = format_int(*got as i128);
                out.append(g.as_str());
                out.append(", expected: ");
                let e = format_int(*expected as i128);
                out.append(e.as_str());
            },
        }
        assert(out@ =~= spec_message(*self));
        out
    }
}

/// The data a handler receives: an array of one element is that element (a JSON array as the
/// parse of the text gives it; a MessagePack array as the bytes of its element, with the same
/// attachments); any other value is received as it is.
pub open spec fn spec_upwrap_array(v: ValueView) -> ValueView {
    match v {
        ValueView::Json(t) => match spec_json_parse(t) {
            Some(j) => match j.shape {
                JsonShapeView::Array(items) => if items.len() == 1 {
                    ValueView::Json(items[0])
                } else {
                    v
                },
                _ => v,
            },
            None => v,
        },
        ValueView::MsgPack(d, a) => match spec_read_array_len(d, 0) {
            Some((n, h)) => if n == 1 {
                match skip_element(d, h) {
                    Step::Done(q) => ValueView::MsgPack(d.subrange(h, q), a),
                    _ => v,
                }
            } else {
                v
            },
            None => v,
        },
    }
}

/// The data a handler receives: an array of one element is that element; any other value is
/// received as it is.
pub fn upwrap_array(v: Value) -> (r: Value)
    ensures
        r@ == spec_upwrap_array(v@),
{
    match v {
        Value::Json(t) => match json_parse(t.as_str()) {
            Ok(parsed) => match parsed.shape {
                JsonShape::Array(mut items) => {
                    if items.len() == 1 {
                        let first = items.remove(0);
                        proof {
                            assert(items@.len() == 0);
                        }
                        Value::Json(first)
                    } else {
                        Value::Json(t)
                    }
                },
                _ => Value::Json(t),
            },
            Err(_) => Value::Json(t),
        },
        Value::MsgPack(m) => match read_array_len(m.data.as_slice(), 0) {
            Some((n, left)) => {
                if n == 1 {
                    let h = m.data.len() - left;
                    match walk_element(m.data.as_slice(), h) {
                        Step::Done(q) => {
                            proof {
                                lemma_skip_bounds(m.data@, h as int);
                            }
                            let d = vstd::slice::slice_subrange(m.data.as_slice(), h, q);
                            Value::MsgPack(MsgPackValue { data: vstd::slice::slice_to_vec(d), attachments: m.attachments })
                        },
                        _ => Value::MsgPack(m),
                    }
                } else {
                    Value::MsgPack(m)
                }
            },
            None => Value::MsgPack(m),
        },
    }
}

} // verus!
