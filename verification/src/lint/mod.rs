//! Structural and semantic linting of a parsed spec corpus.
pub mod types;
pub mod scope;
pub mod structural;
pub mod ordering;
pub mod report;
pub mod prompts;
pub mod semantic;
pub mod api;
