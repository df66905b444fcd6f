//! Serialization of one value batch as a single JSON line: a JSON array of
//! strings terminated by a newline. Each flushed part-file line has this form.

use vstd::prelude::*;
use crate::errors::EngineError;

verus! {

/// The compact JSON-array text that serializing a list of strings produces.
pub uninterp spec fn json_text_of(values: Seq<Seq<char>>) -> Seq<char>;

/// The JSON-line text a value batch is stored as: the compact JSON array of
/// the strings followed by one `'\n'`.
pub open spec fn json_line_of(values: Seq<Seq<char>>) -> Seq<char> {
    json_text_of(values) + seq!['\n']
}

/// Holds of a text that forms exactly one line: non-empty, ending with a
/// newline that appears nowhere else.
pub open spec fn single_line(l: Seq<char>) -> bool {
    &&& l.len() >= 1
    &&& l[l.len() - 1] == '\n'
    &&& forall|i: int| 0 <= i < l.len() - 1 ==> l[i] != '\n'
}

/// Relies on serde_json::to_string: serializing a `Vec<String>` yields the
/// compact JSON array of its elements, a pure function of the values; the
/// text is at least `[]` long, and control characters (hence every
/// newline) are escaped inside JSON strings, so the text holds no newline.
/// Serializing a list of strings cannot fail, so the fallback arm is
/// unreachable.
#[verifier::external_body]
fn to_json_text(values: &Vec<String>) -> (r: String)
    ensures
        r@ == json_text_of(values.deep_view()),
        r@.len() >= 2,
        forall|i: int| 0 <= i < r@.len() ==> r@[i] != '\n',
{
    serde_json::to_string(values).unwrap_or_default()
}

/// Serializes one value batch as a single JSON line.
pub fn to_json_line(values: &Vec<String>) -> (r: String)
    ensures
        r@ == json_line_of(values.deep_view()),
        r@.len() >= 3,
        single_line(r@),
{
    let mut line = to_json_text(values);
    line.push('\n');
    proof {
        assert(line@ =~= json_line_of(values.deep_view()));
    }
    line
}

/// Holds when `r` is the parse outcome owed for `line`: on any text that
/// serializing some value list produced, the parse returns exactly that list.
pub open spec fn parse_returns_serialized(line: Seq<char>, r: Result<Vec<String>, EngineError>) -> bool {
    forall|vs: Seq<Seq<char>>| line == json_line_of(vs) ==> (r matches Ok(v) && v.deep_view() == vs)
}

/// Relies on serde_json::from_str: parsing the compact JSON array that
/// serde_json::to_string produced (with or without the trailing newline,
/// which serde_json accepts as trailing whitespace) returns exactly the
/// serialized list; on any other text the outcome is unconstrained, and the
/// error arm only converts the outside error.
#[verifier::external_body]
pub fn from_json(line: &str) -> (r: Result<Vec<String>, EngineError>)
    ensures
        parse_returns_serialized(line@, r),
{
    match serde_json::from_str::<Vec<String>>(line) {
        Ok(v) => Ok(v),
        Err(_) => Err(EngineError::BadJson),
    }
}

} // verus!
