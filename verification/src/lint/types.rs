//! The linter's public data types and their views.
use vstd::prelude::*;
use crate::llm::error::InvocationError;
use crate::parse::types::{LocationView, ParserError, SourceLocation, location_view};

verus! {

/// What a lint run checks and how.
#[derive(Debug, Clone)]
pub struct LintOptions {
    pub structural_only: bool,
    pub focus: Option<String>,
    pub llm_model: String,
}

/// The model a lint run asks by default.
pub open spec fn default_model() -> Seq<char> {
    "openai/gpt-5"@
}

impl Default for LintOptions {
    fn default() -> (r: Self)
        ensures
            !r.structural_only,
            r.focus.is_none(),
            r.llm_model@ == default_model(),
    {
        LintOptions {
            structural_only: false,
            focus: None,
            llm_model: crate::text::owned("openai/gpt-5"),
        }
    }
}

#[derive(Debug, Clone, Copy, PartialEq, Eq, Structural)]
pub enum LintSeverity {
    Warning,
    Error,
}

#[derive(Debug, Clone, Copy, PartialEq, Eq, Structural)]
pub enum LintCategory {
    /// Printed and serialised as `Structural`.
    Structure,
    Contradiction,
    Gap,
    Ambiguity,
}

#[derive(Debug, Clone, Copy, PartialEq, Eq, Structural)]
pub enum Confidence {
    High,
    Medium,
    Low,
}

/// One finding of the linter.
#[derive(Debug, Clone, PartialEq, Eq)]
pub struct LintIssue {
    pub severity: LintSeverity,
    pub category: LintCategory,
    pub code: String,
    pub message: String,
    pub location: Option<SourceLocation>,
    pub confidence: Option<Confidence>,
    pub evidence: Vec<String>,
}

#[derive(Debug, Clone, Default, PartialEq, Eq)]
pub struct LintResult {
    pub issues: Vec<LintIssue>,
}

#[derive(Debug, Clone, Copy, PartialEq, Eq, Structural)]
pub enum SemanticCheck {
    Contradiction,
    Gap,
    Ambiguity,
}

/// The prompt one semantic check sends.
#[derive(Debug, Clone, PartialEq, Eq)]
pub struct SemanticPrompt {
    pub check: SemanticCheck,
    pub prompt: String,
}

/// A spec file's name and text, as the semantic checks read it.
#[derive(Debug, Clone, PartialEq, Eq)]
pub struct SpecDocument {
    pub file_name: String,
    pub content: String,
}

/// Why a lint run stopped.
#[derive(Debug, Clone, PartialEq, Eq)]
pub enum LintError {
    Parse(ParserError),
    MissingInvoker,
    InvalidFocus { focus: String },
    FocusNotFound { focus: String },
    ReadSpec { path: String, message: String },
    Invocation(InvocationError),
    SemanticJson { check: String, message: String },
}

pub struct IssueView {
    pub severity: LintSeverity,
    pub category: LintCategory,
    pub code: Seq<char>,
    pub message: Seq<char>,
    pub location: Option<LocationView>,
    pub confidence: Option<Confidence>,
    pub evidence: Seq<Seq<char>>,
}

impl View for LintIssue {
    type V = IssueView;

    open spec fn view(&self) -> IssueView {
        IssueView {
            severity: self.severity,
            category: self.category,
            code: self.code@,
            message: self.message@,
            location: location_view(self.location),
            confidence: self.confidence,
            evidence: crate::parse::types::strings_view(self.evidence@),
        }
    }
}

pub open spec fn issues_view(v: Seq<LintIssue>) -> Seq<IssueView> {
    v.map_values(|i: LintIssue| i@)
}

pub struct DocumentView {
    pub file_name: Seq<char>,
    pub content: Seq<char>,
}

impl View for SpecDocument {
    type V = DocumentView;

    open spec fn view(&self) -> DocumentView {
        DocumentView { file_name: self.file_name@, content: self.content@ }
    }
}

pub open spec fn documents_view(v: Seq<SpecDocument>) -> Seq<DocumentView> {
    v.map_values(|d: SpecDocument| d@)
}

/// A copy of a location.
pub fn clone_location(l: &Option<SourceLocation>) -> (r: Option<SourceLocation>)
    ensures
        location_view(r) == location_view(*l),
{
    match l {
        None => None,
        Some(x) => Some(
            SourceLocation { file_name: x.file_name.clone(), line: x.line, column: x.column },
        ),
    }
}

} // verus!
