//! The decisions behind the C ABI: error codes, structured errors, how a
//! call's outcome is settled into a value and an error slot, and how the
//! variables handed over as JSON are read.
//!
//! The raw buffers that cross the boundary are owned by the binding layer;
//! what is decided here is plain data.
use vstd::prelude::*;

use crate::error::{error_text, Error};
use crate::inputs::{entries, is_sorted};
use crate::model::{json_fields, json_view, JsonV, JsonValue};
use crate::preview::{json_text, spec_json_text};
use crate::text::{chars_of, string_of, trim};

verus! {

/// Stable numeric error codes shared with the managed bindings.
#[derive(Debug, Copy, Clone, PartialEq, Eq, Structural)]
pub enum FfiErrorCode {
    Success,
    Authoring,
    Validation,
    Schema,
    Markdown,
    Compile,
    FatFile,
    Io,
    Json,
    Panic,
}

/// The code each library error maps to.
pub open spec fn code_of(e: Error) -> FfiErrorCode {
    match e {
        Error::Authoring(_) => FfiErrorCode::Authoring,
        Error::Validation(_) => FfiErrorCode::Validation,
        Error::Schema(_) => FfiErrorCode::Schema,
        Error::Markdown(_) => FfiErrorCode::Markdown,
        Error::Compile(_) => FfiErrorCode::Compile,
        Error::FatFile(_) => FfiErrorCode::FatFile,
        Error::Io(..) => FfiErrorCode::Io,
        Error::Json(_) => FfiErrorCode::Json,
    }
}

/// The number that stands for a code across the boundary.
pub open spec fn code_number(c: FfiErrorCode) -> u32 {
    match c {
        FfiErrorCode::Success => 0,
        FfiErrorCode::Authoring => 1,
        FfiErrorCode::Validation => 2,
        FfiErrorCode::Schema => 3,
        FfiErrorCode::Markdown => 4,
        FfiErrorCode::Compile => 5,
        FfiErrorCode::FatFile => 6,
        FfiErrorCode::Io => 7,
        FfiErrorCode::Json => 8,
        FfiErrorCode::Panic => 99,
    }
}

impl FfiErrorCode {
    /// The number that stands for this code across the boundary.
    pub fn number(self) -> (n: u32)
        ensures
            n == code_number(self),
    {
        match self {
            FfiErrorCode::Success => 0,
            FfiErrorCode::Authoring => 1,
            FfiErrorCode::Validation => 2,
            FfiErrorCode::Schema => 3,
            FfiErrorCode::Markdown => 4,
            FfiErrorCode::Compile => 5,
            FfiErrorCode::FatFile => 6,
            FfiErrorCode::Io => 7,
            FfiErrorCode::Json => 8,
            FfiErrorCode::Panic => 99,
        }
    }
}

impl<'a> From<&'a Error> for FfiErrorCode {
    fn from(error: &'a Error) -> (c: FfiErrorCode) {
        match error {
            Error::Authoring(_) => FfiErrorCode::Authoring,
            Error::Validation(_) => FfiErrorCode::Validation,
            Error::Schema(_) => FfiErrorCode::Schema,
            Error::Markdown(_) => FfiErrorCode::Markdown,
            Error::Compile(_) => FfiErrorCode::Compile,
            Error::FatFile(_) => FfiErrorCode::FatFile,
            Error::Io(..) => FfiErrorCode::Io,
            Error::Json(_) => FfiErrorCode::Json,
        }
    }
}

impl<'a> vstd::std_specs::convert::FromSpecImpl<&'a Error> for FfiErrorCode {
    open spec fn obeys_from_spec() -> bool {
        true
    }

    open spec fn from_spec(error: &'a Error) -> FfiErrorCode {
        code_of(*error)
    }
}

/// A structured error handed across the boundary: a code and a message.
#[derive(Debug)]
pub struct FfiError {
    pub code: FfiErrorCode,
    pub message: String,
}

impl FfiError {
    /// The success sentinel: code `Success`, empty message.
    pub fn ok() -> (e: FfiError)
        ensures
            e.code == FfiErrorCode::Success,
            e.message@.len() == 0,
    {
        FfiError { code: FfiErrorCode::Success, message: String::new() }
    }

    /// The structured form of a library error: its code and its rendering.
    pub fn from_core(error: &Error) -> (e: FfiError)
        ensures
            e.code == code_of(*error),
            e.message@ == error_text(*error),
    {
        FfiError { code: FfiErrorCode::from(error), message: error.to_string() }
    }

    /// A panic caught at the boundary, with its message.
    pub fn panic(message: String) -> (e: FfiError)
        ensures
            e.code == FfiErrorCode::Panic,
            e.message@ == message@,
    {
        FfiError { code: FfiErrorCode::Panic, message }
    }
}

/// Write a call's outcome into the error slot and return its value: a
/// success gives its value and the success sentinel; a failure gives
/// `fallback` and the error.
pub fn settle<T>(result: Result<T, FfiError>, out_err: &mut FfiError, fallback: T) -> (r: T)
    ensures
        match result {
            Ok(v) => r == v && final(out_err).code == FfiErrorCode::Success && final(out_err).message@.len() == 0,
            Err(e) => r == fallback && *final(out_err) == e,
        },
{
    match result {
        Ok(value) => {
            *out_err = FfiError::ok();
            value
        },
        Err(error) => {
            *out_err = error;
            fallback
        },
    }
}

/// Write a call's outcome, which carries no value, into the error slot.
pub fn settle_unit(result: Result<(), FfiError>, out_err: &mut FfiError)
    ensures
        match result {
            Ok(_) => final(out_err).code == FfiErrorCode::Success && final(out_err).message@.len() == 0,
            Err(e) => *final(out_err) == e,
        },
{
    *out_err = match result {
        Ok(()) => FfiError::ok(),
        Err(error) => error,
    };
}

/// The output format a multi-format compile asks for.
#[derive(Debug, Copy, Clone, PartialEq, Eq, Structural)]
pub enum FfiFormat {
    /// A single PDF document buffer.
    Pdf,
    /// One SVG document buffer per page.
    Svg,
    /// One PNG image buffer per page.
    Png,
}

impl FfiFormat {
    /// The number that stands for this format across the boundary.
    pub fn number(self) -> (n: u32)
        ensures
            n == match self {
                FfiFormat::Pdf => 0u32,
                FfiFormat::Svg => 1u32,
                FfiFormat::Png => 2u32,
            },
    {
        match self {
            FfiFormat::Pdf => 0,
            FfiFormat::Svg => 1,
            FfiFormat::Png => 2,
        }
    }
}

/// The members of a JSON object text, keys in ascending order, each with
/// its value; or the parser's message.
pub uninterp spec fn spec_json_members(json: Seq<char>) -> Result<Seq<(Seq<char>, JsonV)>, Seq<char>>;

/// The library's value for a `serde_json` value, variant by variant (a
/// number as the text `serde_json` writes for it).
///
/// Trusted: converts only; nothing is stated of the result, which is used
/// only by [`json_members`].
#[verifier::external_body]
fn json_value(v: &serde_json::Value) -> JsonValue {
    match v {
        serde_json::Value::Null => JsonValue::Null,
        serde_json::Value::Bool(b) => JsonValue::Bool(*b),
        serde_json::Value::Number(n) => JsonValue::Number(n.to_string()),
        serde_json::Value::String(s) => JsonValue::String(s.clone()),
        serde_json::Value::Array(a) => JsonValue::Array(a.iter().map(json_value).collect()),
        serde_json::Value::Object(o) => JsonValue::Object(o.iter().map(|(k, x)| (k.clone(), json_value(x))).collect()),
    }
}

/// Read a JSON object text into its members.
///
/// Trusted: calls `serde_json::from_str` into a `serde_json::Map` (a
/// `BTreeMap`, so keys come out in ascending order, each once) and converts
/// each value with [`json_value`]. The contract names the result, a function
/// of the text alone.
#[verifier::external_body]
fn json_members(json: &str) -> (r: Result<Vec<(String, JsonValue)>, String>)
    ensures
        match r {
            Ok(m) => spec_json_members(json@) == Ok::<_, Seq<char>>(json_fields(m@)) && is_sorted(json_fields(m@)),
            Err(e) => spec_json_members(json@) == Err::<Seq<(Seq<char>, JsonV)>, _>(e@),
        },
{
    let map: serde_json::Map<String, serde_json::Value> = match serde_json::from_str(json) {
        Ok(m) => m,
        Err(e) => return Err(e.to_string()),
    };
    Ok(map.iter().map(|(k, v)| (k.clone(), json_value(v))).collect())
}

/// The text a variable's value is handed over as: a string as itself, any
/// other value as its compact JSON text.
pub open spec fn member_text_spec(v: JsonV) -> Seq<char> {
    match v {
        JsonV::String(s) => s,
        _ => spec_json_text(v),
    }
}

/// The text of a variable's value (see [`member_text_spec`]).
pub fn member_text(v: &JsonValue) -> (r: String)
    ensures
        r@ == member_text_spec(json_view(*v)),
{
    match v {
        JsonValue::String(s) => string_of(chars_of(s.as_str()).as_slice()),
        _ => json_text(v),
    }
}

/// The members with each value as its text.
pub open spec fn member_texts(m: Seq<(Seq<char>, JsonV)>) -> Seq<(Seq<char>, Seq<char>)> {
    m.map_values(|p: (Seq<char>, JsonV)| (p.0, member_text_spec(p.1)))
}

/// The variables a JSON object text hands over: none for a blank text,
/// otherwise its members, each value as its text (a `Json` error when it is
/// not an object).
pub open spec fn vars_spec(json: Seq<char>) -> Result<Seq<(Seq<char>, Seq<char>)>, Seq<char>> {
    if trim(json).len() == 0 {
        Ok(seq![])
    } else {
        match spec_json_members(trim(json)) {
            Ok(m) => Ok(member_texts(m)),
            Err(e) => Err(e),
        }
    }
}

/// Parse the JSON object of variables handed across the boundary into
/// name/text pairs (see [`vars_spec`]).
pub fn parse_vars(json: &str) -> (r: Result<Vec<(String, String)>, Error>)
    ensures
        match vars_spec(json@) {
            Ok(m) => r matches Ok(v) && entries(v@) == m,
            Err(msg) => r matches Err(e) && e is Json && e->Json_0@ == msg,
        },
{
    let cs = chars_of(json);
    let trimmed = crate::fatfile::composed::trim_chars(cs.as_slice());
    if trimmed.len() == 0 {
        let v: Vec<(String, String)> = Vec::new();
        proof {
            assert(entries(v@) =~= Seq::<(Seq<char>, Seq<char>)>::empty());
        }
        return Ok(v);
    }
    let members = match json_members(string_of(trimmed.as_slice()).as_str()) {
        Ok(m) => m,
        Err(e) => {
            return Err(Error::Json(e));
        },
    };
    let ghost mv = json_fields(members@);
    proof {
        lemma_json_fields_len(members@);
    }
    let mut out: Vec<(String, String)> = Vec::new();
    let mut i: usize = 0;
    while i < members.len()
        invariant
            i <= members@.len(),
            mv == json_fields(members@),
            mv.len() == members@.len(),
            entries(out@) == member_texts(mv.take(i as int)),
        decreases members@.len() - i,
    {
        let t = member_text(&members[i].1);
        let k = string_of(chars_of(members[i].0.as_str()).as_slice());
        let ghost before = entries(out@);
        out.push((k, t));
        proof {
            lemma_json_fields_at(members@, i as int);
            assert(mv.take(i + 1) =~= mv.take(i as int).push(mv[i as int]));
            assert(entries(out@) =~= before.push((members@[i as int].0@, member_text_spec(json_view(members@[i as int].1)))));
            assert(member_texts(mv.take(i + 1)) =~= member_texts(mv.take(i as int)).push(
                (mv[i as int].0, member_text_spec(mv[i as int].1)),
            ));
        }
        i = i + 1;
    }
    proof {
        assert(mv.take(members@.len() as int) =~= mv);
    }
    Ok(out)
}

/// The fields of a JSON object are as many as its members.
proof fn lemma_json_fields_len(o: Seq<(String, JsonValue)>)
    ensures
        json_fields(o).len() == o.len(),
    decreases o.len(),
{
    if o.len() > 0 {
        lemma_json_fields_len(o.drop_first());
    }
}

/// The `i`-th field of a JSON object is its `i`-th member, viewed.
proof fn lemma_json_fields_at(o: Seq<(String, JsonValue)>, i: int)
    requires
        0 <= i < o.len(),
    ensures
        json_fields(o)[i] == (o[i].0@, json_view(o[i].1)),
    decreases i,
{
    lemma_json_fields_len(o.drop_first());
    let head = seq![(o[0].0@, json_view(o[0].1))];
    assert(json_fields(o) == head + json_fields(o.drop_first()));
    if i > 0 {
        lemma_json_fields_at(o.drop_first(), i - 1);
        assert(o.drop_first()[i - 1] == o[i]);
        assert(json_fields(o)[i] == json_fields(o.drop_first())[i - 1]);
    }
}

} // verus!
