//! Calls into the markdown, regular-expression, URL and JSON crates, and
//! into the Unicode tables of `char`.
//!
//! Nothing here is proved: each function's contract is believed as stated,
//! and what it returns is named by an uninterpreted spec function that the
//! callers' contracts speak of.
use vstd::prelude::*;
use crate::llm::reply::{JsonNode, JsonShape, JsonShapeView, node_view};
use crate::parse::file::{link_match, link_pattern, target_match, target_pattern};

verus! {

/// Per pulldown-cmark event of `Parser::new_ext(body, Options::all())`, in
/// order: the destination URL of an `Event::Start(Tag::Link { .. })`, and
/// `None` for every other event.
pub uninterp spec fn markdown_link_events(body: Seq<char>) -> Seq<Option<Seq<char>>>;

pub open spec fn opt_string_view(o: Option<String>) -> Option<Seq<char>> {
    match o {
        Some(s) => Some(s@),
        None => None,
    }
}

pub open spec fn opt_strings_view(v: Seq<Option<String>>) -> Seq<Option<Seq<char>>> {
    v.map_values(|o: Option<String>| opt_string_view(o))
}

pub open spec fn captures_view(r: Option<Vec<Option<String>>>) -> Option<Seq<Option<Seq<char>>>> {
    match r {
        Some(v) => Some(opt_strings_view(v@)),
        None => None,
    }
}

/// Compiles `pattern` with `regex::Regex::new` and runs `Regex::captures` on
/// `text`, for the two patterns of spec targets and of cross-reference
/// links; the contract claims that the groups are those the pattern's
/// syntax gives (anchored at both ends, `.` any character but a line feed).
#[verifier::external_body]
pub(crate) fn regex_captures(pattern: &str, text: &str) -> (r: Option<Vec<Option<String>>>)
    requires
        pattern@ == target_pattern() || pattern@ == link_pattern(),
    ensures
        pattern@ == target_pattern() ==> captures_view(r) == target_match(text@),
        pattern@ == link_pattern() ==> captures_view(r) == link_match(text@),
{
    let re = match regex::Regex::new(pattern) {
        Ok(re) => re,
        Err(_) => return None,
    };
    let caps = re.captures(text)?;
    let mut out = Vec::new();
    for m in caps.iter() {
        out.push(match m {
            Some(m) => Some(m.as_str().to_string()),
            None => None,
        });
    }
    Some(out)
}

/// Runs `pulldown_cmark::Parser::new_ext(body, Options::all())` and reports,
/// event by event, the destination of each link start; the contract claims
/// only that the result is the named function of `body`.
#[verifier::external_body]
pub(crate) fn markdown_link_destinations(body: &str) -> (r: Vec<Option<String>>)
    ensures
        opt_strings_view(r@) == markdown_link_events(body@),
{
    let mut out = Vec::new();
    for event in pulldown_cmark::Parser::new_ext(body, pulldown_cmark::Options::all()) {
        out.push(match event {
            pulldown_cmark::Event::Start(pulldown_cmark::Tag::Link { dest_url, .. }) => Some(
                dest_url.to_string(),
            ),
            _ => None,
        });
    }
    out
}

pub open spec fn result_view(r: Result<String, String>) -> Result<Seq<char>, Seq<char>> {
    match r {
        Ok(s) => Ok(s@),
        Err(e) => Err(e@),
    }
}

/// What `url::Url::parse` gives for a text: the serialisation of the
/// parsed URL (its `Display`), or the display of the `url::ParseError`.
pub uninterp spec fn url_parse_of(raw: Seq<char>) -> Result<Seq<char>, Seq<char>>;

/// Parses an absolute URL with `url::Url::parse`; the contract claims that
/// the result, the URL by its serialisation and an error by its message,
/// is the named function of the text.
#[verifier::external_body]
pub(crate) fn parse_url(raw: &str) -> (r: Result<String, String>)
    ensures
        result_view(r) == url_parse_of(raw@),
{
    match url::Url::parse(raw) {
        Ok(url) => Ok(url.to_string()),
        Err(err) => Err(err.to_string()),
    }
}

/// What `url::Url::parse(base)` followed by `Url::join(relative)` gives:
/// the serialisation of the joined URL, or the display of the first
/// `url::ParseError`.
pub uninterp spec fn url_join_of(base: Seq<char>, relative: Seq<char>) -> Result<Seq<char>, Seq<char>>;

/// Resolves `relative` against the URL `base` with `url::Url::parse` and
/// `Url::join`; the contract claims that the result, a URL by its
/// serialisation and an error by its message, is the named function of the
/// two texts.
#[verifier::external_body]
pub(crate) fn join_url(base: &str, relative: &str) -> (r: Result<String, String>)
    ensures
        result_view(r) == url_join_of(base@, relative@),
{
    match url::Url::parse(base) {
        Ok(url) => match url.join(relative) {
            Ok(joined) => Ok(joined.to_string()),
            Err(err) => Err(err.to_string()),
        },
        Err(err) => Err(err.to_string()),
    }
}

pub open spec fn json_result_view(r: Result<Option<JsonNode>, (bool, String)>) -> Result<
    Option<(JsonShapeView, Seq<char>)>,
    (bool, Seq<char>),
> {
    match r {
        Ok(n) => Ok(node_view(n)),
        Err((eof, message)) => Err((eof, message@)),
    }
}

/// What `serde_json::from_str::<serde_json::Value>(body)` followed by
/// `Value::pointer(pointer)` gives: on a parse error, whether the input
/// ended early (`Error::is_eof`) and the error's display; else the value at
/// the pointer, if any, by its variant (a string with its text, an array
/// with its length, an object) and its JSON text (`Display` of `Value`).
/// The empty pointer stands for the whole value.
pub uninterp spec fn json_at_of(body: Seq<char>, pointer: Seq<char>) -> Result<
    Option<(JsonShapeView, Seq<char>)>,
    (bool, Seq<char>),
>;

/// Parses `body` with `serde_json::from_str` and looks up `pointer` with
/// `Value::pointer`, telling the value's variants apart; the contract claims
/// that the result is the named function of the two texts.
#[verifier::external_body]
pub(crate) fn json_at(body: &str, pointer: &str) -> (r: Result<Option<JsonNode>, (bool, String)>)
    ensures
        json_result_view(r) == json_at_of(body@, pointer@),
{
    let value: serde_json::Value = match serde_json::from_str(body) {
        Ok(value) => value,
        Err(err) => return Err((err.is_eof(), err.to_string())),
    };
    let Some(found) = value.pointer(pointer) else { return Ok(None) };
    let shape = match found {
        serde_json::Value::Null => JsonShape::Null,
        serde_json::Value::String(text) => JsonShape::Text(text.clone()),
        serde_json::Value::Array(items) => JsonShape::Array(items.len()),
        serde_json::Value::Object(_) => JsonShape::Object,
        _ => JsonShape::Other,
    };
    Ok(Some(JsonNode { shape, text: found.to_string() }))
}

/// What `char::is_alphanumeric` says of a character: whether it has the
/// Unicode `Alphabetic` or `Numeric` property.
pub uninterp spec fn unicode_alphanumeric(c: char) -> bool;

/// The characters that `char::to_lowercase` yields for a character: its
/// Unicode lowercase mapping.
pub uninterp spec fn unicode_lowercase(c: char) -> Seq<char>;

/// Calls `char::is_alphanumeric`; the contract claims only that the result
/// is the named function of the character.
#[verifier::external_body]
pub(crate) fn char_is_alphanumeric(c: char) -> (r: bool)
    ensures
        r == unicode_alphanumeric(c),
{
    c.is_alphanumeric()
}

/// Collects the characters of `char::to_lowercase`; the contract claims
/// only that they are the named function of the character.
#[verifier::external_body]
pub(crate) fn char_to_lowercase(c: char) -> (r: Vec<char>)
    ensures
        r@ == unicode_lowercase(c),
{
    c.to_lowercase().collect()
}

} // verus!
