//! JSON through `serde_json`: parsing a text into its canonical form and top-level shape, and
//! quoting a string. Values handled by the library are JSON texts in the canonical (compact) form
//! that `serde_json` prints.
use serde_json::Value as JsonTree;
use crate::parser::common::spec_array_text;
use crate::text::spec_digits;
use vstd::prelude::*;

verus! {

/// The error `serde_json` reports for a text that is not JSON.
#[verifier::external_type_specification]
#[verifier::external_body]
pub struct ExJsonError(serde_json::Error);

/// The top-level shape of a parsed JSON value. Nested values are held as canonical JSON texts.
#[derive(Debug, Clone, PartialEq)]
pub enum JsonShape {
    /// An array, with the canonical text of each element in order.
    Array(Vec<String>),
    /// An object, with its keys in the order `serde_json` keeps them.
    Object(Vec<String>),
    /// A string, unescaped.
    Str(String),
    /// `null`, a boolean or a number.
    Scalar,
}

/// A parsed JSON value: its canonical text and its top-level shape.
#[derive(Debug, Clone, PartialEq)]
pub struct JsonParsed {
    /// The canonical (compact) text of the value.
    pub text: String,
    /// The top-level shape.
    pub shape: JsonShape,
}

/// Model of [`JsonShape`].
pub enum JsonShapeView {
    Array(Seq<Seq<char>>),
    Object(Seq<Seq<char>>),
    Str(Seq<char>),
    Scalar,
}

/// Model of [`JsonParsed`].
pub struct JsonView {
    pub text: Seq<char>,
    pub shape: JsonShapeView,
}

impl View for JsonShape {
    type V = JsonShapeView;

    open spec fn view(&self) -> JsonShapeView {
        match self {
            JsonShape::Array(items) => JsonShapeView::Array(items.deep_view()),
            JsonShape::Object(keys) => JsonShapeView::Object(keys.deep_view()),
            JsonShape::Str(s) => JsonShapeView::Str(s@),
            JsonShape::Scalar => JsonShapeView::Scalar,
        }
    }
}

impl View for JsonParsed {
    type V = JsonView;

    open spec fn view(&self) -> JsonView {
        JsonView { text: self.text@, shape: self.shape@ }
    }
}

/// What `serde_json::from_str::<serde_json::Value>` makes of a text (`None` when the text is not
/// JSON), seen as its canonical text and top-level shape.
pub uninterp spec fn spec_json_parse(text: Seq<char>) -> Option<JsonView>;

/// The JSON string literal that `serde_json::to_string` prints for a string.
pub uninterp spec fn spec_json_quote(s: Seq<char>) -> Seq<char>;

/// Calls `serde_json::from_str::<serde_json::Value>` and converts the value it returns: its
/// canonical text (`Display` of the value), and its top-level shape, each nested value printed to
/// its canonical text. The result is a function of the text alone; what that function is, is not
/// stated (it is named by [`spec_json_parse`]).
///
/// From `Display` of a value, which prints an array compactly: the canonical text of an array is
/// `[`, then the canonical texts of its elements joined by `,`, then `]`.
#[verifier::external_body]
pub(crate) fn json_parse(text: &str) -> (res: Result<JsonParsed, serde_json::Error>)
    ensures
        res is Ok <==> spec_json_parse(text@) is Some,
        res matches Ok(p) ==> p@ == spec_json_parse(text@).unwrap(),
        res matches Ok(p) ==> (p@.shape matches JsonShapeView::Array(items) ==> p@.text == spec_array_text(items)),
{
    let v: JsonTree = serde_json::from_str(text)?;
    let text = v.to_string();
    let shape = match v {
        JsonTree::Array(a) => JsonShape::Array(a.iter().map(|x| x.to_string()).collect()),
        JsonTree::Object(o) => JsonShape::Object(o.into_iter().map(|(k, _)| k).collect()),
        JsonTree::String(s) => JsonShape::Str(s),
        JsonTree::Null | JsonTree::Bool(_) | JsonTree::Number(_) => JsonShape::Scalar,
    };
    Ok(JsonParsed { text, shape })
}

/// Calls `serde_json::to_string` on a string: its JSON string literal (quoted and escaped). This
/// cannot fail for a string. The literal is named by [`spec_json_quote`].
///
/// What a read gives back of this write, from `serde_json`'s source (`from_str` reads a string
/// literal back as the string, `Display` of a string value prints it with the same escaping, and
/// prints an array as its elements' texts joined by `,` inside `[` `]`):
/// - the literal reads back as the string, and is its own canonical text;
/// - put in front of the elements of an array text that reads back as itself with at least one
///   element, the literal makes an array text that reads back as itself, with the literal as first
///   element followed by those elements. (The elements stand at the same depth as in the array
///   they come from, so the nesting limit of the reader is not reached either.)
#[verifier::external_body]
pub(crate) fn json_quote(s: &str) -> (r: String)
    ensures
        r@ == spec_json_quote(s@),
        spec_json_parse(r@) == Some(JsonView { text: r@, shape: JsonShapeView::Str(s@) }),
        forall|d: Seq<char>, items: Seq<Seq<char>>|
            #![trigger spec_json_parse(d), spec_array_text(seq![r@] + items)]
            spec_json_parse(d) == Some(JsonView { text: d, shape: JsonShapeView::Array(items) }) && items.len() > 0
                ==> ({
                let t = seq!['['] + r@ + seq![','] + d.drop_first();
                &&& spec_json_parse(t) == Some(JsonView { text: t, shape: JsonShapeView::Array(seq![r@] + items) })
                &&& t == spec_array_text(seq![r@] + items)
            }),
{
    serde_json::to_string(s).unwrap()
}


/// A JSON number as `serde_json` reads it: its value as a `u64` where it is an unsigned integer
/// that fits one, and the text `serde_json` prints for it.
#[derive(Debug, Clone, PartialEq)]
pub struct NumberRead {
    /// The number as a `u64`, where it is one.
    pub unsigned: Option<u64>,
    /// The JSON text printed for the number.
    pub text: String,
}

/// The text that `serde_json` prints for the number that `<serde_json::Number as FromStr>::from_str`
/// reads from a text (`None` when it reads none).
pub uninterp spec fn spec_number_text(text: Seq<char>) -> Option<Seq<char>>;

/// Calls `<serde_json::Number as FromStr>::from_str` and converts the number it reads into plain
/// values: `Number::as_u64`, and its `Display` text, which is the text `serde_json` serializes it to
/// (both print integers with `itoa` and floats with the same shortest form). From the source of
/// `from_str` (no surrounding whitespace, one leading `0` at most, a `u64` kept as such unless it
/// overflows, a `.` or exponent making a float, a `-` a signed number or a float) and of
/// `as_u64` (`Some` exactly for an unsigned integer): the text of a `u64`'s decimal numeral reads
/// as that `u64`, which prints back as the same text, and no other text reads as a `u64`. What
/// other texts read as and print to is not stated (it is named by [`spec_number_text`]).
#[verifier::external_body]
pub(crate) fn read_number(text: &str) -> (r: Option<NumberRead>)
    ensures
        r is Some <==> spec_number_text(text@) is Some,
        r matches Some(n) ==> n.text@ == spec_number_text(text@).unwrap(),
        r matches Some(n) ==> (n.unsigned matches Some(v) ==> text@ == spec_digits(v as nat)),
        r matches Some(n) ==> (n.unsigned is Some ==> n.text@ == text@),
        r is None ==> forall|v: u64| #[trigger] spec_digits(v as nat) != text@,
        r matches Some(n) ==> (n.unsigned is None ==> forall|v: u64| #[trigger] spec_digits(v as nat) != text@),
{
    match text.parse::<serde_json::Number>() {
        Ok(n) => Some(NumberRead { unsigned: n.as_u64(), text: n.to_string() }),
        Err(_) => None,
    }
}

} // verus!
