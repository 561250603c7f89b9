//! Spec corpus parsing, graph construction and linting.
pub mod text;
pub mod slug;
pub mod parse;
pub mod trusted;
pub mod order;
pub mod lint;
pub mod llm;

pub use crate::parse::types::{
    Diagnostic, DiagnosticCode, DiagnosticSeverity, GraphEdge, GraphEdgeKind, GraphNode,
    GraphNodeKind, Heading, ParseOptions, ParseResult, ParsedSpec, ParserError, SourceLocation,
    SpecGraph, SpecKind, SpecTarget,
};
pub use crate::parse::corpus::{build_parse_result, discover_spec_files, SpecDiscovery, WalkEntry};
pub use crate::parse::file::SpecFileInput;
pub use crate::parse::front_matter::{front_matter_yaml_block, FrontMatter, RootValue, SpecifiesValue};
pub use crate::lint::types::{
    Confidence, LintCategory, LintError, LintIssue, LintOptions, LintResult, LintSeverity,
    SemanticCheck, SemanticPrompt, SpecDocument,
};
pub use crate::lint::api::lint_specs_directory_structural;
pub use crate::lint::prompts::lint_semantic_prompts_for_directory;
pub use crate::lint::report::{format_issue, suggested_exit_code, summarize_severities};
pub use crate::llm::config::ClientConfig;
pub use crate::llm::error::InvocationError;
