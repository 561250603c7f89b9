//! Checks on a chat-completion reply before it is decoded.
use vstd::prelude::*;
use crate::llm::error::InvocationError;
use crate::text::{append_chars, chars_trim, decimal, decimal_chars, owned, str_chars, trim};
use crate::trusted::{json_at, json_at_of};

verus! {

/// A JSON value, as far as the reply checks look at it.
#[derive(Debug, Clone, PartialEq, Eq)]
pub enum JsonShape {
    /// The key is not there.
    Absent,
    Null,
    Text(String),
    /// An array of this many elements.
    Array(usize),
    /// An object.
    Object,
    /// Any other value.
    Other,
}

/// A JSON value found in a reply body: its shape and its JSON text.
#[derive(Debug, Clone, PartialEq, Eq)]
pub struct JsonNode {
    pub shape: JsonShape,
    pub text: String,
}

pub open spec fn node_view(n: Option<JsonNode>) -> Option<(JsonShapeView, Seq<char>)> {
    match n {
        Some(x) => Some((x.shape@, x.text@)),
        None => None,
    }
}

/// What the checks read of the first choice of a reply.
#[derive(Debug, Clone, PartialEq, Eq)]
pub struct ChoiceFacts {
    /// `finish_reason`, when it is a string.
    pub finish_reason: Option<String>,
    /// The whole choice rendered as JSON text.
    pub rendered: String,
    /// The choice's `error`, else its message's `error`, rendered as JSON text.
    pub error: Option<String>,
    /// The message's `content`.
    pub content: JsonShape,
    /// The message's `tool_calls`.
    pub tool_calls: JsonShape,
}

/// What the checks read of a reply body.
#[derive(Debug, Clone, PartialEq, Eq)]
pub enum BodyFacts {
    /// The body is not JSON; `eof` when the text ended early, and the
    /// parser's message.
    Invalid { eof: bool, message: String },
    /// A JSON body: its top-level `error` rendered as JSON text, and the
    /// first element of its `choices` array.
    Parsed { error: Option<String>, first_choice: Option<ChoiceFacts> },
}

pub enum JsonShapeView {
    Absent,
    Null,
    Text(Seq<char>),
    Array(nat),
    Object,
    Other,
}

impl View for JsonShape {
    type V = JsonShapeView;

    open spec fn view(&self) -> JsonShapeView {
        match self {
            JsonShape::Absent => JsonShapeView::Absent,
            JsonShape::Null => JsonShapeView::Null,
            JsonShape::Text(s) => JsonShapeView::Text(s@),
            JsonShape::Array(n) => JsonShapeView::Array(*n as nat),
            JsonShape::Object => JsonShapeView::Object,
            JsonShape::Other => JsonShapeView::Other,
        }
    }
}

pub struct ChoiceFactsView {
    pub finish_reason: Option<Seq<char>>,
    pub rendered: Seq<char>,
    pub error: Option<Seq<char>>,
    pub content: JsonShapeView,
    pub tool_calls: JsonShapeView,
}

impl View for ChoiceFacts {
    type V = ChoiceFactsView;

    open spec fn view(&self) -> ChoiceFactsView {
        ChoiceFactsView {
            finish_reason: crate::trusted::opt_string_view(self.finish_reason),
            rendered: self.rendered@,
            error: crate::trusted::opt_string_view(self.error),
            content: self.content@,
            tool_calls: self.tool_calls@,
        }
    }
}

pub enum BodyFactsView {
    Invalid { eof: bool, message: Seq<char> },
    Parsed { error: Option<Seq<char>>, first_choice: Option<ChoiceFactsView> },
}

impl View for BodyFacts {
    type V = BodyFactsView;

    open spec fn view(&self) -> BodyFactsView {
        match self {
            BodyFacts::Invalid { eof, message } => BodyFactsView::Invalid { eof: *eof, message: message@ },
            BodyFacts::Parsed { error, first_choice } => BodyFactsView::Parsed {
                error: crate::trusted::opt_string_view(*error),
                first_choice: match first_choice {
                    Some(c) => Some(c@),
                    None => None,
                },
            },
        }
    }
}

/// `StatusCode::is_success`: a 2xx status.
pub open spec fn is_success(status: u16) -> bool {
    200 <= status <= 299
}

/// A content that carries text: present, not null, and not blank when it is
/// a string.
pub open spec fn has_content(c: JsonShapeView) -> bool {
    match c {
        JsonShapeView::Absent => false,
        JsonShapeView::Null => false,
        JsonShapeView::Text(s) => trim(s).len() > 0,
        _ => true,
    }
}

/// A non-empty array of tool calls.
pub open spec fn has_tool_calls(t: JsonShapeView) -> bool {
    match t {
        JsonShapeView::Array(n) => n > 0,
        _ => false,
    }
}

/// The outcome of the checks, as a view of the error (or `None` to go on
/// decoding).
pub enum ReplyCheck {
    Pass,
    Http { status: u16, body: Seq<char> },
    Parse(Seq<char>),
    Provider(Seq<char>),
    InvalidResponse(Seq<char>),
}

pub open spec fn check_of(status: u16, body: Seq<char>, facts: BodyFactsView) -> ReplyCheck {
    if !is_success(status) {
        ReplyCheck::Http { status, body }
    } else {
        match facts {
            BodyFactsView::Invalid { eof, message } => if eof {
                ReplyCheck::Parse("truncated JSON response: "@ + body)
            } else {
                ReplyCheck::Parse("invalid JSON response ("@ + message + "): "@ + body)
            },
            BodyFactsView::Parsed { error, first_choice } => match error {
                Some(e) => ReplyCheck::Provider(e),
                None => match first_choice {
                    None => ReplyCheck::InvalidResponse("missing choices"@),
                    Some(c) => if c.finish_reason == Some("error"@) {
                        ReplyCheck::Provider(c.rendered)
                    } else if c.error is Some {
                        ReplyCheck::Provider(c.error->0)
                    } else if !has_content(c.content) && !has_tool_calls(c.tool_calls) {
                        ReplyCheck::InvalidResponse(
                            "assistant returned no content and no tool calls"@,
                        )
                    } else {
                        ReplyCheck::Pass
                    },
                },
            },
        }
    }
}

pub open spec fn result_matches(r: Result<(), InvocationError>, c: ReplyCheck) -> bool {
    match (r, c) {
        (Ok(()), ReplyCheck::Pass) => true,
        (Err(InvocationError::Http { status, body }), ReplyCheck::Http { status: s, body: b }) => status == s && body@ == b,
        (Err(InvocationError::Parse(m)), ReplyCheck::Parse(x)) => m@ == x,
        (Err(InvocationError::Provider(m)), ReplyCheck::Provider(x)) => m@ == x,
        (Err(InvocationError::InvalidResponse(m)), ReplyCheck::InvalidResponse(x)) => m@ == x,
        _ => false,
    }
}

/// A reply passes the checks only with a success status, a JSON body with
/// no top-level error, and a first choice that neither finished with nor
/// carries an error and that has content or asks for a tool.
pub proof fn lemma_accepted_reply_shape(status: u16, body: Seq<char>, facts: BodyFactsView)
    requires
        check_of(status, body, facts) == ReplyCheck::Pass,
    ensures
        is_success(status),
        facts matches BodyFactsView::Parsed { error: None, first_choice: Some(c) } && c.finish_reason
            != Some("error"@) && c.error is None && (has_content(c.content) || has_tool_calls(
            c.tool_calls,
        )),
{
}

// ---------------------------------------------------------------------------
// Reading the facts off a reply body
// ---------------------------------------------------------------------------
/// The value at a JSON pointer of the body, `None` when there is none or
/// the body is not JSON.
pub open spec fn at(body: Seq<char>, pointer: Seq<char>) -> Option<(JsonShapeView, Seq<char>)> {
    match json_at_of(body, pointer) {
        Ok(n) => n,
        Err(_) => None,
    }
}

pub open spec fn shape_at(body: Seq<char>, pointer: Seq<char>) -> JsonShapeView {
    match at(body, pointer) {
        Some((shape, _)) => shape,
        None => JsonShapeView::Absent,
    }
}

pub open spec fn text_at(body: Seq<char>, pointer: Seq<char>) -> Option<Seq<char>> {
    match at(body, pointer) {
        Some((_, text)) => Some(text),
        None => None,
    }
}

/// What the checks read of the first choice of a reply body: `finish_reason`
/// when it is a string, the choice as JSON text, its `error` or else its
/// message's `error` as JSON text, and the shapes of the message's
/// `content` and `tool_calls`.
pub open spec fn choice_facts_of(body: Seq<char>) -> ChoiceFactsView {
    ChoiceFactsView {
        finish_reason: match shape_at(body, "/choices/0/finish_reason"@) {
            JsonShapeView::Text(s) => Some(s),
            _ => None,
        },
        rendered: match text_at(body, "/choices/0"@) {
            Some(t) => t,
            None => Seq::empty(),
        },
        error: match text_at(body, "/choices/0/error"@) {
            Some(t) => Some(t),
            None => text_at(body, "/choices/0/message/error"@),
        },
        content: shape_at(body, "/choices/0/message/content"@),
        tool_calls: shape_at(body, "/choices/0/message/tool_calls"@),
    }
}

/// What the checks read of a reply body: the parse error when it is not
/// JSON; else its top-level `error` as JSON text and, when `choices` is a
/// non-empty array, the facts of its first choice.
pub open spec fn reply_facts_of(body: Seq<char>) -> BodyFactsView {
    match json_at_of(body, "/error"@) {
        Err((eof, message)) => BodyFactsView::Invalid { eof, message },
        Ok(error) => BodyFactsView::Parsed {
            error: match error {
                Some((_, t)) => Some(t),
                None => None,
            },
            first_choice: match shape_at(body, "/choices"@) {
                JsonShapeView::Array(n) => if n > 0 {
                    Some(choice_facts_of(body))
                } else {
                    None
                },
                _ => None,
            },
        },
    }
}

fn node_at(body: &str, pointer: &str) -> (r: Option<JsonNode>)
    ensures
        node_view(r) == at(body@, pointer@),
{
    match json_at(body, pointer) {
        Ok(n) => n,
        Err(_) => None,
    }
}

fn shape_of(n: Option<JsonNode>) -> (r: JsonShape)
    ensures
        r@ == match node_view(n) {
            Some((shape, _)) => shape,
            None => JsonShapeView::Absent,
        },
{
    match n {
        Some(node) => node.shape,
        None => JsonShape::Absent,
    }
}

fn text_of(n: Option<JsonNode>) -> (r: Option<String>)
    ensures
        crate::trusted::opt_string_view(r) == match node_view(n) {
            Some((_, text)) => Some(text),
            None => None,
        },
{
    match n {
        Some(node) => Some(node.text),
        None => None,
    }
}

/// The facts the reply checks read of a body; the JSON is parsed by
/// `serde_json` and looked up by JSON pointer.
pub fn reply_body_facts(body: &str) -> (r: BodyFacts)
    ensures
        r@ == reply_facts_of(body@),
{
    let error = match json_at(body, "/error") {
        Err((eof, message)) => {
            return BodyFacts::Invalid { eof, message };
        },
        Ok(e) => e,
    };
    let error_text = text_of(error);
    let choices = shape_of(node_at(body, "/choices"));
    let has_first = match choices {
        JsonShape::Array(n) => n > 0,
        _ => false,
    };
    if !has_first {
        return BodyFacts::Parsed { error: error_text, first_choice: None };
    }
    let finish_reason = match shape_of(node_at(body, "/choices/0/finish_reason")) {
        JsonShape::Text(s) => Some(s),
        _ => None,
    };
    let rendered = match text_of(node_at(body, "/choices/0")) {
        Some(t) => t,
        None => String::new(),
    };
    let error = match text_of(node_at(body, "/choices/0/error")) {
        Some(t) => Some(t),
        None => text_of(node_at(body, "/choices/0/message/error")),
    };
    let content = shape_of(node_at(body, "/choices/0/message/content"));
    let tool_calls = shape_of(node_at(body, "/choices/0/message/tool_calls"));
    let c = ChoiceFacts { finish_reason, rendered, error, content, tool_calls };
    BodyFacts::Parsed { error: error_text, first_choice: Some(c) }
}

/// The checks of [`check_chat_reply`] on the facts of the body itself.
pub fn check_reply_body(status: u16, body: &str) -> (r: Result<(), InvocationError>)
    ensures
        result_matches(r, check_of(status, body@, reply_facts_of(body@))),
{
    let facts = reply_body_facts(body);
    check_chat_reply(status, body, &facts)
}

/// The id and model of a reply body, when both are strings.
pub open spec fn reply_header_of(body: Seq<char>) -> Option<(Seq<char>, Seq<char>)> {
    match (shape_at(body, "/id"@), shape_at(body, "/model"@)) {
        (JsonShapeView::Text(id), JsonShapeView::Text(model)) => Some((id, model)),
        _ => None,
    }
}

/// The id and model of a reply body, when both are strings.
pub fn reply_header(body: &str) -> (r: Option<(String, String)>)
    ensures
        match (r, reply_header_of(body@)) {
            (Some((a, b)), Some((x, y))) => a@ == x && b@ == y,
            (None, None) => true,
            _ => false,
        },
{
    match (shape_of(node_at(body, "/id")), shape_of(node_at(body, "/model"))) {
        (JsonShape::Text(id), JsonShape::Text(model)) => Some((id, model)),
        _ => None,
    }
}

pub open spec fn text_of_shape(s: JsonShapeView) -> Option<Seq<char>> {
    match s {
        JsonShapeView::Text(t) => Some(t),
        _ => None,
    }
}

/// The JSON pointer of a field under the `i`-th choice.
pub open spec fn choice_pointer(i: nat, field: Seq<char>) -> Seq<char> {
    "/choices/"@ + decimal(i) + field
}

/// The number of choices of a reply body: the length of its `choices`
/// array (none when it is not an array).
pub open spec fn choice_count_of(body: Seq<char>) -> nat {
    match shape_at(body, "/choices"@) {
        JsonShapeView::Array(n) => n,
        _ => 0,
    }
}

/// The text parts of a reply's choices, in order: each message's `content`
/// and each choice's `finish_reason`, when they are strings.
pub open spec fn reply_choices_of(body: Seq<char>) -> Seq<(Option<Seq<char>>, Option<Seq<char>>)> {
    Seq::new(
        choice_count_of(body),
        |i: int|
            (
                text_of_shape(shape_at(body, choice_pointer(i as nat, "/message/content"@))),
                text_of_shape(shape_at(body, choice_pointer(i as nat, "/finish_reason"@))),
            ),
    )
}

/// The text parts of one choice of a reply.
#[derive(Debug, Clone, PartialEq, Eq)]
pub struct ChoiceText {
    pub content: Option<String>,
    pub finish_reason: Option<String>,
}

pub open spec fn choice_texts_view(v: Seq<ChoiceText>) -> Seq<(Option<Seq<char>>, Option<Seq<char>>)> {
    v.map_values(
        |c: ChoiceText|
            (crate::trusted::opt_string_view(c.content), crate::trusted::opt_string_view(c.finish_reason)),
    )
}

fn text_at_pointer(body: &str, i: usize, field: &str) -> (r: Option<String>)
    ensures
        crate::trusted::opt_string_view(r) == text_of_shape(shape_at(body@, choice_pointer(i as nat, field@))),
{
    let mut pointer = owned("/choices/");
    let digits = decimal_chars(i);
    append_chars(&mut pointer, digits.as_slice());
    crate::text::push_str(&mut pointer, field);
    match shape_of(node_at(body, pointer.as_str())) {
        JsonShape::Text(t) => Some(t),
        _ => None,
    }
}

/// The content and finish reason of each choice of a reply body, in order.
pub fn reply_choices(body: &str) -> (r: Vec<ChoiceText>)
    ensures
        choice_texts_view(r@) == reply_choices_of(body@),
{
    let n = match shape_of(node_at(body, "/choices")) {
        JsonShape::Array(n) => n,
        _ => 0,
    };
    let mut out: Vec<ChoiceText> = Vec::new();
    let mut i: usize = 0;
    while i < n
        invariant
            i <= n,
            n == choice_count_of(body@),
            choice_texts_view(out@) == reply_choices_of(body@).take(i as int),
        decreases n - i,
    {
        let content = text_at_pointer(body, i, "/message/content");
        let finish_reason = text_at_pointer(body, i, "/finish_reason");
        let c = ChoiceText { content, finish_reason };
        let ghost prev = choice_texts_view(out@);
        out.push(c);
        assert(choice_texts_view(out@) =~= prev.push(reply_choices_of(body@)[i as int]));
        assert(reply_choices_of(body@).take(i + 1) =~= reply_choices_of(body@).take(i as int).push(
            reply_choices_of(body@)[i as int],
        ));
        i = i + 1;
    }
    assert(reply_choices_of(body@).take(n as int) =~= reply_choices_of(body@));
    out
}

fn content_present(c: &JsonShape) -> (r: bool)
    ensures
        r == has_content(c@),
{
    match c {
        JsonShape::Absent => false,
        JsonShape::Null => false,
        JsonShape::Text(s) => {
            let cs = str_chars(s.as_str());
            chars_trim(cs.as_slice()).len() > 0
        },
        _ => true,
    }
}

/// The checks `parse_response` makes on a reply before decoding it: the
/// HTTP status, JSON validity, provider-declared errors, the first choice,
/// and that the assistant said something or asked for a tool.
pub fn check_chat_reply(status: u16, body: &str, facts: &BodyFacts) -> (r: Result<
    (),
    InvocationError,
>)
    ensures
        result_matches(r, check_of(status, body@, facts@)),
{
    if !(200 <= status && status <= 299) {
        return Err(InvocationError::Http { status, body: owned(body) });
    }
    match facts {
        BodyFacts::Invalid { eof, message } => {
            if *eof {
                let mut m = owned("truncated JSON response: ");
                crate::text::push_str(&mut m, body);
                Err(InvocationError::Parse(m))
            } else {
                Err(
                    InvocationError::Parse(
                        crate::parse::file::cat4(
                            "invalid JSON response (",
                            message.as_str(),
                            "): ",
                            body,
                        ),
                    ),
                )
            }
        },
        BodyFacts::Parsed { error, first_choice } => {
            match error {
                Some(e) => Err(InvocationError::Provider(e.clone())),
                None => match first_choice {
                    None => Err(InvocationError::InvalidResponse(owned("missing choices"))),
                    Some(c) => {
                        let finish_error = match &c.finish_reason {
                            Some(f) => crate::text::str_eq(f.as_str(), "error"),
                            None => false,
                        };
                        if finish_error {
                            Err(InvocationError::Provider(c.rendered.clone()))
                        } else if c.error.is_some() {
                            match &c.error {
                                Some(e) => Err(InvocationError::Provider(e.clone())),
                                None => Ok(()),
                            }
                        } else if !content_present(&c.content) && !match c.tool_calls {
                            JsonShape::Array(n) => n > 0,
                            _ => false,
                        } {
                            Err(
                                InvocationError::InvalidResponse(
                                    owned("assistant returned no content and no tool calls"),
                                ),
                            )
                        } else {
                            Ok(())
                        }
                    },
                },
            }
        },
    }
}

pub open spec fn msg_tool_type(t: Seq<char>) -> Seq<char> {
    "unsupported tool type '"@ + t + "'"@
}

/// The tool-type check of `ToolCall::try_from`: only `function` calls.
pub fn check_tool_type(tool_type: &str) -> (r: Result<(), InvocationError>)
    ensures
        tool_type@ == "function"@ ==> r is Ok,
        tool_type@ != "function"@ ==> (r matches Err(InvocationError::InvalidResponse(m)) && m@
            == msg_tool_type(tool_type@)),
{
    if crate::text::str_eq(tool_type, "function") {
        Ok(())
    } else {
        Err(
            InvocationError::InvalidResponse(
                crate::parse::file::cat3("unsupported tool type '", tool_type, "'"),
            ),
        )
    }
}

/// The message of an invocation error for tool arguments that cannot be
/// normalised.
pub open spec fn msg_bad_arguments(detail: Seq<char>) -> Seq<char> {
    "failed to normalize tool arguments: "@ + detail
}

/// The text of JSON-encoded tool arguments holds a JSON object.
pub open spec fn encodes_object(raw: Seq<char>) -> bool {
    json_at_of(raw, ""@) matches Ok(Some((JsonShapeView::Object, _)))
}

/// The outcome of the checks on a tool call: its type must be `function`,
/// and arguments sent as a JSON-encoded string must parse to a JSON object.
pub open spec fn tool_call_check_of(tool_type: Seq<char>, encoded_arguments: Option<Seq<char>>) -> ReplyCheck {
    if tool_type != "function"@ {
        ReplyCheck::InvalidResponse(msg_tool_type(tool_type))
    } else {
        match encoded_arguments {
            None => ReplyCheck::Pass,
            Some(raw) => match json_at_of(raw, ""@) {
                Err((_, message)) => ReplyCheck::InvalidResponse(msg_bad_arguments(message)),
                Ok(Some((JsonShapeView::Object, _))) => ReplyCheck::Pass,
                _ => ReplyCheck::InvalidResponse(msg_bad_arguments("expected a JSON object"@)),
            },
        }
    }
}

/// The checks of `ToolCall::try_from` on one tool call of a reply: only
/// `function` calls, and arguments that came as a JSON-encoded string
/// (`encoded_arguments`) must parse, by `serde_json`, to a JSON object.
/// Arguments that came as a JSON value are passed as `None` and kept as
/// they are.
pub fn check_tool_call(tool_type: &str, encoded_arguments: Option<&str>) -> (r: Result<(), InvocationError>)
    ensures
        r is Ok <==> (tool_type@ == "function"@ && (encoded_arguments matches Some(s) ==> encodes_object(s@))),
        tool_type@ != "function"@ ==> (r matches Err(InvocationError::InvalidResponse(m)) && m@
            == msg_tool_type(tool_type@)),
        r is Err ==> r matches Err(InvocationError::InvalidResponse(_)),
        result_matches(r, tool_call_check_of(tool_type@, match encoded_arguments {
            Some(s) => Some(s@),
            None => None,
        })),
{
    match check_tool_type(tool_type) {
        Err(e) => {
            return Err(e);
        },
        Ok(()) => {},
    }
    match encoded_arguments {
        None => Ok(()),
        Some(raw) => {
            let mut message = owned("failed to normalize tool arguments: ");
            match json_at(raw, "") {
                Err((_, detail)) => {
                    crate::text::push_str(&mut message, detail.as_str());
                    Err(InvocationError::InvalidResponse(message))
                },
                Ok(Some(node)) => match node.shape {
                    JsonShape::Object => Ok(()),
                    _ => {
                        crate::text::push_str(&mut message, "expected a JSON object");
                        Err(InvocationError::InvalidResponse(message))
                    },
                },
                Ok(None) => {
                    crate::text::push_str(&mut message, "expected a JSON object");
                    Err(InvocationError::InvalidResponse(message))
                },
            }
        },
    }
}

} // verus!
