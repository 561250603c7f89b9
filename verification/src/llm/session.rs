//! The decisions of a tool-calling session: when to run tools, when to stop,
//! and how many tool calls a session may make.
use vstd::prelude::*;
use crate::llm::error::InvocationError;
use crate::text::{chars_trim, owned, str_chars, trim};

verus! {

/// What a session does with an assistant reply.
#[derive(Debug, Clone, Copy, PartialEq, Eq, Structural)]
pub enum SessionStep {
    /// Run the requested tool calls, then ask again.
    RunTools,
    /// The reply is the session's answer.
    Finish,
}

pub open spec fn msg_missing_choices() -> Seq<char> {
    "missing choices"@
}

pub open spec fn msg_no_terminal_content() -> Seq<char> {
    "terminal assistant message has no content"@
}

/// The step for a reply: `first_choice` is the number of tool calls and the
/// content of the reply's first choice, `None` when it has no choice.
pub fn session_reply_step(first_choice: Option<(usize, Option<&str>)>) -> (r: Result<
    SessionStep,
    InvocationError,
>)
    ensures
        match first_choice {
            None => r matches Err(InvocationError::InvalidResponse(m)) && m@ == msg_missing_choices(),
            Some((calls, content)) => if calls > 0 {
                r == Ok::<SessionStep, InvocationError>(SessionStep::RunTools)
            } else if content.is_none() || trim(content.unwrap()@).len() == 0 {
                r matches Err(InvocationError::InvalidResponse(m)) && m@ == msg_no_terminal_content()
            } else {
                r == Ok::<SessionStep, InvocationError>(SessionStep::Finish)
            },
        },
{
    match first_choice {
        None => Err(InvocationError::InvalidResponse(owned("missing choices"))),
        Some((calls, content)) => {
            if calls > 0 {
                return Ok(SessionStep::RunTools);
            }
            let blank = match content {
                None => true,
                Some(c) => {
                    let cs = str_chars(c);
                    chars_trim(cs.as_slice()).len() == 0
                },
            };
            if blank {
                Err(
                    InvocationError::InvalidResponse(
                        owned("terminal assistant message has no content"),
                    ),
                )
            } else {
                Ok(SessionStep::Finish)
            }
        },
    }
}

/// Admits one more tool call after `used` of them: the new count, or the
/// limit error when `max` calls have run. A session that starts at 0 and
/// runs a tool only when this admits it never runs more than `max`.
pub fn admit_tool_call(used: usize, max: usize) -> (r: Result<usize, InvocationError>)
    ensures
        used < max ==> r == Ok::<usize, InvocationError>((used + 1) as usize),
        used >= max ==> r == Err::<usize, InvocationError>(
            InvocationError::ToolCallLimitExceeded { max },
        ),
        r matches Ok(n) ==> n <= max,
{
    if used >= max {
        Err(InvocationError::ToolCallLimitExceeded { max })
    } else {
        Ok(used + 1)
    }
}

/// The messages of the next request after a reply that asks for tools: the
/// messages so far, the assistant's message, then one tool message per
/// call, in call order.
pub fn next_history<M>(history: Vec<M>, assistant: M, tool_messages: Vec<M>) -> (r: Vec<M>)
    ensures
        r@ == history@.push(assistant) + tool_messages@,
{
    let mut out = history;
    out.push(assistant);
    let mut rest = tool_messages;
    out.append(&mut rest);
    out
}

} // verus!
