//! Failures of a model invocation.
use vstd::prelude::*;

verus! {

/// Why a model invocation failed.
#[derive(Debug, Clone, PartialEq, Eq)]
pub enum InvocationError {
    MissingApiKey,
    InvalidBaseUrl { value: String, message: String },
    Network(String),
    Http { status: u16, body: String },
    Provider(String),
    Parse(String),
    InvalidResponse(String),
    ToolCallLimitExceeded { max: usize },
}

} // verus!
