//! The parser's public data types and their mathematical views.
use vstd::prelude::*;

verus! {

/// Caller-chosen parse behaviour.
#[derive(Debug, Clone, Copy, Default)]
pub struct ParseOptions {
    pub strict: bool,
    pub warnings_as_errors: bool,
}

/// Everything one parse pass found.
#[derive(Debug, Clone, PartialEq, Eq)]
pub struct ParseResult {
    pub specs: Vec<ParsedSpec>,
    pub graph: SpecGraph,
    pub diagnostics: Vec<Diagnostic>,
}

/// One top-level spec file as parsed.
#[derive(Debug, Clone, PartialEq, Eq)]
pub struct ParsedSpec {
    pub file_name: String,
    pub kind: Option<SpecKind>,
    pub is_root: bool,
    pub specifies: Vec<SpecTarget>,
    pub headings: Vec<Heading>,
}

#[derive(Debug, Clone, Copy, PartialEq, Eq, Structural)]
pub enum SpecKind {
    Feature,
    Behavioural,
    Interface,
    Constraint,
    Context,
}

/// One `Specifies` entry: the text as written and the section it names.
#[derive(Debug, Clone, PartialEq, Eq)]
pub struct SpecTarget {
    pub raw: String,
    pub file_name: String,
    pub heading_slug: String,
}

/// A markdown heading of a spec body; `line` counts body lines from 1.
#[derive(Debug, Clone, PartialEq, Eq)]
pub struct Heading {
    pub level: u8,
    pub text: String,
    pub slug: String,
    pub line: usize,
}

#[derive(Debug, Clone, PartialEq, Eq)]
pub struct SpecGraph {
    pub nodes: Vec<GraphNode>,
    pub edges: Vec<GraphEdge>,
}

#[derive(Debug, Clone, PartialEq, Eq)]
pub struct GraphNode {
    pub id: String,
    pub kind: GraphNodeKind,
    pub file_name: String,
}

#[derive(Debug, Clone, Copy, PartialEq, Eq, Structural)]
pub enum GraphNodeKind {
    File,
    Section,
}

#[derive(Debug, Clone, PartialEq, Eq)]
pub struct GraphEdge {
    pub source: String,
    pub target: String,
    pub kind: GraphEdgeKind,
}

#[derive(Debug, Clone, Copy, PartialEq, Eq, Structural)]
pub enum GraphEdgeKind {
    Specifies,
    Contains,
}

#[derive(Debug, Clone, PartialEq, Eq)]
pub struct Diagnostic {
    pub severity: DiagnosticSeverity,
    pub code: DiagnosticCode,
    pub message: String,
    pub location: Option<SourceLocation>,
}

#[derive(Debug, Clone, Copy, PartialEq, Eq, Structural)]
pub enum DiagnosticSeverity {
    Warning,
    Error,
}

#[derive(Debug, Clone, Copy, PartialEq, Eq, Structural)]
pub enum DiagnosticCode {
    IoReadFailure,
    InvalidFrontMatter,
    InvalidKind,
    InvalidRoot,
    InvalidSpecifies,
    InvalidSpecifiesTarget,
    NestedSpecFile,
    InvalidCrossReference,
    BrokenTargetFile,
    BrokenTargetHeading,
    BrokenCrossReferenceFile,
    BrokenCrossReferenceHeading,
    CycleDetected,
    OrphanSpec,
}

#[derive(Debug, Clone, PartialEq, Eq)]
pub struct SourceLocation {
    pub file_name: String,
    pub line: Option<usize>,
    pub column: Option<usize>,
}

/// The one failure that ends a parse: the specs directory cannot be listed.
#[derive(Debug, Clone, PartialEq, Eq)]
pub enum ParserError {
    ReadDirectory { path: String, message: String },
}

// ---------------------------------------------------------------------------
// Views
// ---------------------------------------------------------------------------
pub struct LocationView {
    pub file_name: Seq<char>,
    pub line: Option<usize>,
    pub column: Option<usize>,
}

pub struct DiagnosticView {
    pub severity: DiagnosticSeverity,
    pub code: DiagnosticCode,
    pub message: Seq<char>,
    pub location: Option<LocationView>,
}

pub struct TargetView {
    pub raw: Seq<char>,
    pub file_name: Seq<char>,
    pub heading_slug: Seq<char>,
}

pub struct HeadingView {
    pub level: nat,
    pub text: Seq<char>,
    pub slug: Seq<char>,
    pub line: nat,
}

pub struct SpecView {
    pub file_name: Seq<char>,
    pub kind: Option<SpecKind>,
    pub is_root: bool,
    pub specifies: Seq<TargetView>,
    pub headings: Seq<HeadingView>,
}

pub struct NodeView {
    pub id: Seq<char>,
    pub kind: GraphNodeKind,
    pub file_name: Seq<char>,
}

pub struct EdgeView {
    pub source: Seq<char>,
    pub target: Seq<char>,
    pub kind: GraphEdgeKind,
}

pub struct ParseResultView {
    pub specs: Seq<SpecView>,
    pub nodes: Seq<NodeView>,
    pub edges: Seq<EdgeView>,
    pub diagnostics: Seq<DiagnosticView>,
}

impl View for SourceLocation {
    type V = LocationView;

    open spec fn view(&self) -> LocationView {
        LocationView { file_name: self.file_name@, line: self.line, column: self.column }
    }
}

pub open spec fn location_view(l: Option<SourceLocation>) -> Option<LocationView> {
    match l {
        Some(x) => Some(x@),
        None => None,
    }
}

impl View for Diagnostic {
    type V = DiagnosticView;

    open spec fn view(&self) -> DiagnosticView {
        DiagnosticView {
            severity: self.severity,
            code: self.code,
            message: self.message@,
            location: location_view(self.location),
        }
    }
}

impl View for SpecTarget {
    type V = TargetView;

    open spec fn view(&self) -> TargetView {
        TargetView {
            raw: self.raw@,
            file_name: self.file_name@,
            heading_slug: self.heading_slug@,
        }
    }
}

impl View for Heading {
    type V = HeadingView;

    open spec fn view(&self) -> HeadingView {
        HeadingView {
            level: self.level as nat,
            text: self.text@,
            slug: self.slug@,
            line: self.line as nat,
        }
    }
}

impl View for ParsedSpec {
    type V = SpecView;

    open spec fn view(&self) -> SpecView {
        SpecView {
            file_name: self.file_name@,
            kind: self.kind,
            is_root: self.is_root,
            specifies: targets_view(self.specifies@),
            headings: headings_view(self.headings@),
        }
    }
}

impl View for GraphNode {
    type V = NodeView;

    open spec fn view(&self) -> NodeView {
        NodeView { id: self.id@, kind: self.kind, file_name: self.file_name@ }
    }
}

impl View for GraphEdge {
    type V = EdgeView;

    open spec fn view(&self) -> EdgeView {
        EdgeView { source: self.source@, target: self.target@, kind: self.kind }
    }
}

impl View for ParseResult {
    type V = ParseResultView;

    open spec fn view(&self) -> ParseResultView {
        ParseResultView {
            specs: specs_view(self.specs@),
            nodes: nodes_view(self.graph.nodes@),
            edges: edges_view(self.graph.edges@),
            diagnostics: diags_view(self.diagnostics@),
        }
    }
}

pub open spec fn diags_view(v: Seq<Diagnostic>) -> Seq<DiagnosticView> {
    v.map_values(|d: Diagnostic| d@)
}

pub open spec fn targets_view(v: Seq<SpecTarget>) -> Seq<TargetView> {
    v.map_values(|t: SpecTarget| t@)
}

pub open spec fn headings_view(v: Seq<Heading>) -> Seq<HeadingView> {
    v.map_values(|h: Heading| h@)
}

pub open spec fn specs_view(v: Seq<ParsedSpec>) -> Seq<SpecView> {
    v.map_values(|s: ParsedSpec| s@)
}

pub open spec fn nodes_view(v: Seq<GraphNode>) -> Seq<NodeView> {
    v.map_values(|n: GraphNode| n@)
}

pub open spec fn edges_view(v: Seq<GraphEdge>) -> Seq<EdgeView> {
    v.map_values(|e: GraphEdge| e@)
}

pub open spec fn strings_view(v: Seq<String>) -> Seq<Seq<char>> {
    v.map_values(|s: String| s@)
}

/// A diagnostic of the parser, as a view.
pub open spec fn diag(
    severity: DiagnosticSeverity,
    code: DiagnosticCode,
    message: Seq<char>,
    location: Option<LocationView>,
) -> DiagnosticView {
    DiagnosticView { severity, code, message, location }
}

/// A location at the head of a file (line 1, column 1).
pub open spec fn at_file_start(file: Seq<char>) -> Option<LocationView> {
    Some(LocationView { file_name: file, line: Some(1), column: Some(1) })
}

/// A location that names only a file.
pub open spec fn in_file(file: Seq<char>) -> Option<LocationView> {
    Some(LocationView { file_name: file, line: None, column: None })
}

/// Builds a diagnostic.
pub fn make_diag(
    severity: DiagnosticSeverity,
    code: DiagnosticCode,
    message: String,
    location: Option<SourceLocation>,
) -> (r: Diagnostic)
    ensures
        r@ == diag(severity, code, message@, location_view(location)),
{
    Diagnostic { severity, code, message, location }
}

/// A location at line 1, column 1 of a file.
pub fn loc_file_start(file: &str) -> (r: Option<SourceLocation>)
    ensures
        location_view(r) == at_file_start(file@),
{
    Some(SourceLocation { file_name: crate::text::owned(file), line: Some(1), column: Some(1) })
}

/// A location that names only a file.
pub fn loc_in_file(file: &str) -> (r: Option<SourceLocation>)
    ensures
        location_view(r) == in_file(file@),
{
    Some(SourceLocation { file_name: crate::text::owned(file), line: None, column: None })
}

} // verus!
