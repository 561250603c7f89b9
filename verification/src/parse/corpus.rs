//! Assembling a parse pass: file discovery, the section graph, target
//! resolution, cycles, orphans and the warning policy.
use vstd::prelude::*;
use crate::order::{sort_stable, stable_sort};
use crate::parse::cycles::{
    cycles_of, cycles_view, find_cycles, is_closed_walk, lemma_cycles_found_iff_closed_walk, node_ids,
};
use crate::parse::file::{
    FileOutcome, SpecFileInput, SpecFileInputView, body_outcome, cat3, cat4, contains_name,
    crossref_diags, entry_diags, entry_outcome, file_outcome, kind_of, link_diags,
    msg_front_matter_missing, msg_front_matter_unclosed, msg_front_matter_yaml, parse_spec_file,
    root_of, slugs_of, spec_matches, specifies_of,
};
use crate::parse::front_matter::{FrontMatterView, Split, SpecifiesView, empty_front_matter, split_front_matter};
use crate::parse::headings::headings_of;
use crate::trusted::markdown_link_events;
use crate::parse::types::{
    Diagnostic, DiagnosticCode, DiagnosticSeverity, DiagnosticView, EdgeView, GraphEdge,
    GraphEdgeKind, GraphNode, GraphNodeKind, Heading, HeadingView, LocationView, NodeView, ParseOptions,
    ParseResult, ParseResultView, ParsedSpec, SpecGraph, SpecKind, SpecView, TargetView,
    at_file_start, diag, diags_view, edges_view, headings_view, in_file, loc_file_start,
    loc_in_file, make_diag, nodes_view, specs_view, strings_view,
};
use crate::text::{
    chars_lt, join, join_chars, lower, owned, seq_lt, str_chars, str_eq, string_of,
};

verus! {

// ---------------------------------------------------------------------------
// Discovery
// ---------------------------------------------------------------------------
/// One entry of a recursive walk of the specs directory (the directory
/// itself excluded), in walk order.
#[derive(Debug, Clone)]
pub enum WalkEntry {
    /// The walk could not read an entry; the error's text.
    Failed { message: String },
    /// A path below the directory: relative to it as text, its depth (1 for
    /// the directory's own children), whether it is a regular file, and the
    /// extension of its file name.
    Found { relative_path: String, depth: usize, is_file: bool, extension: Option<String> },
}

pub enum WalkEntryView {
    Failed { message: Seq<char> },
    Found { relative_path: Seq<char>, depth: nat, is_file: bool, extension: Option<Seq<char>> },
}

impl View for WalkEntry {
    type V = WalkEntryView;

    open spec fn view(&self) -> WalkEntryView {
        match self {
            WalkEntry::Failed { message } => WalkEntryView::Failed { message: message@ },
            WalkEntry::Found { relative_path, depth, is_file, extension } => WalkEntryView::Found {
                relative_path: relative_path@,
                depth: *depth as nat,
                is_file: *is_file,
                extension: crate::trusted::opt_string_view(*extension),
            },
        }
    }
}

/// The spec files a walk found and what it reported on the way.
#[derive(Debug, Clone)]
pub struct SpecDiscovery {
    pub diagnostics: Vec<Diagnostic>,
    pub file_names: Vec<String>,
}

/// A relative path as spec files are named: with `'/'` separators.
pub open spec fn display_name(p: Seq<char>) -> Seq<char> {
    p.map_values(|c: char| if c == '\\' { '/' } else { c })
}

/// Whether an extension is `md` in any ASCII case.
pub open spec fn is_markdown(ext: Option<Seq<char>>) -> bool {
    match ext {
        Some(e) => e.len() == 2 && lower(e[0]) == 'm' && lower(e[1]) == 'd',
        None => false,
    }
}

pub open spec fn msg_walk_failed(err: Seq<char>) -> Seq<char> {
    "Read directory entry failed: "@ + err
}

pub open spec fn msg_nested(name: Seq<char>) -> Seq<char> {
    "Reject nested spec file '"@ + name + "' because specs/ must stay flat."@
}

/// What one walk entry contributes: a diagnostic, a spec file name, or
/// nothing (directories and other files).
pub open spec fn entry_effect(e: WalkEntryView) -> (Option<DiagnosticView>, Option<Seq<char>>) {
    match e {
        WalkEntryView::Failed { message } => (
            Some(
                diag(
                    DiagnosticSeverity::Error,
                    DiagnosticCode::IoReadFailure,
                    msg_walk_failed(message),
                    None,
                ),
            ),
            None,
        ),
        WalkEntryView::Found { relative_path, depth, is_file, extension } => {
            let name = display_name(relative_path);
            if !is_file || !is_markdown(extension) {
                (None, None)
            } else if depth > 1 {
                (
                    Some(
                        diag(
                            DiagnosticSeverity::Error,
                            DiagnosticCode::NestedSpecFile,
                            msg_nested(name),
                            in_file(name),
                        ),
                    ),
                    None,
                )
            } else {
                (None, Some(name))
            }
        },
    }
}

pub open spec fn walk_diags(es: Seq<WalkEntryView>) -> Seq<DiagnosticView>
    decreases es.len(),
{
    if es.len() == 0 {
        Seq::empty()
    } else {
        let prev = walk_diags(es.drop_last());
        match entry_effect(es.last()).0 {
            Some(d) => prev.push(d),
            None => prev,
        }
    }
}

pub open spec fn walk_names(es: Seq<WalkEntryView>) -> Seq<Seq<char>>
    decreases es.len(),
{
    if es.len() == 0 {
        Seq::empty()
    } else {
        let prev = walk_names(es.drop_last());
        match entry_effect(es.last()).1 {
            Some(n) => prev.push(n),
            None => prev,
        }
    }
}

/// Name order: lexicographic by character.
pub open spec fn name_le() -> spec_fn(Seq<char>, Seq<char>) -> bool {
    |a: Seq<char>, b: Seq<char>| !seq_lt(b, a)
}

pub open spec fn string_le() -> spec_fn(String, String) -> bool {
    |a: String, b: String| !seq_lt(b@, a@)
}

fn string_le_exec(a: &String, b: &String) -> (r: bool)
    ensures
        r == !seq_lt(b@, a@),
{
    let x = str_chars(a.as_str());
    let y = str_chars(b.as_str());
    !chars_lt(y.as_slice(), x.as_slice())
}

proof fn lemma_sort_names_view(v: Seq<String>)
    ensures
        strings_view(stable_sort(v, string_le())) == stable_sort(strings_view(v), name_le()),
    decreases v.len(),
{
    if v.len() > 0 {
        lemma_sort_names_view(v.drop_last());
        let r = stable_sort(v.drop_last(), string_le());
        let rv = strings_view(r);
        assert(strings_view(v).drop_last() =~= strings_view(v.drop_last()));
        lemma_insert_pos_view(r, v.last());
        let p = crate::order::insert_pos(r, v.last(), string_le()) as int;
        crate::order::lemma_insert_pos(r, v.last(), string_le());
        assert(rv.len() == r.len());
        assert(strings_view(r.insert(p, v.last())) =~= rv.insert(p, v.last()@));
    }
}

proof fn lemma_insert_pos_view(r: Seq<String>, x: String)
    ensures
        crate::order::insert_pos(r, x, string_le()) == crate::order::insert_pos(
            strings_view(r),
            x@,
            name_le(),
        ),
    decreases r.len(),
{
    if r.len() > 0 {
        lemma_insert_pos_view(r.drop_first(), x);
        assert(strings_view(r).drop_first() =~= strings_view(r.drop_first()));
    }
}

/// Sorts file names.
pub fn sort_names(v: Vec<String>) -> (r: Vec<String>)
    ensures
        strings_view(r@) == stable_sort(strings_view(v@), name_le()),
{
    let r = sort_stable(v, string_le_exec, Ghost(string_le()));
    proof {
        lemma_sort_names_view(v@);
    }
    r
}

/// `path_to_display_name`: a relative path with `'/'` separators.
pub fn path_to_display_name(relative_path: &str) -> (r: String)
    ensures
        r@ == display_name(relative_path@),
{
    let cs = str_chars(relative_path);
    let mut out: Vec<char> = Vec::new();
    let mut i: usize = 0;
    while i < cs.len()
        invariant
            i <= cs.len(),
            out@ == display_name(cs@.take(i as int)),
        decreases cs.len() - i,
    {
        if cs[i] == '\\' {
            out.push('/');
        } else {
            out.push(cs[i]);
        }
        assert(out@ =~= display_name(cs@.take(i + 1)));
        i = i + 1;
    }
    assert(cs@.take(cs.len() as int) =~= cs@);
    string_of(out.as_slice())
}

fn extension_is_markdown(ext: &Option<String>) -> (r: bool)
    ensures
        r == is_markdown(crate::trusted::opt_string_view(*ext)),
{
    match ext {
        None => false,
        Some(e) => {
            let cs = str_chars(e.as_str());
            cs.len() == 2 && crate::text::char_lower(cs[0]) == 'm' && crate::text::char_lower(cs[1])
                == 'd'
        },
    }
}

/// The discovery step of `parse_specs_directory`: walk diagnostics in walk
/// order, and the top-level markdown files sorted by name.
pub fn discover_spec_files(entries: &Vec<WalkEntry>) -> (r: SpecDiscovery)
    ensures
        ({
            let es = entries@.map_values(|e: WalkEntry| e@);
            &&& diags_view(r.diagnostics@) == walk_diags(es)
            &&& strings_view(r.file_names@) == stable_sort(walk_names(es), name_le())
        }),
{
    let ghost es = entries@.map_values(|e: WalkEntry| e@);
    let mut diagnostics: Vec<Diagnostic> = Vec::new();
    let mut names: Vec<String> = Vec::new();
    let mut i: usize = 0;
    while i < entries.len()
        invariant
            i <= entries.len(),
            es == entries@.map_values(|e: WalkEntry| e@),
            diags_view(diagnostics@) == walk_diags(es.take(i as int)),
            strings_view(names@) == walk_names(es.take(i as int)),
        decreases entries.len() - i,
    {
        assert(es.take(i + 1).drop_last() =~= es.take(i as int));
        assert(es.take(i + 1).last() == entries@[i as int]@);
        let ghost dv = diags_view(diagnostics@);
        let ghost nv = strings_view(names@);
        match &entries[i] {
            WalkEntry::Failed { message } => {
                let d = make_diag(
                    DiagnosticSeverity::Error,
                    DiagnosticCode::IoReadFailure,
                    cat4("Read directory entry failed: ", message.as_str(), "", ""),
                    None,
                );
                proof {
                    reveal_strlit("");
                    assert(d@.message =~= msg_walk_failed(message@));
                }
                diagnostics.push(d);
                assert(diags_view(diagnostics@) =~= dv.push(d@));
            },
            WalkEntry::Found { relative_path, depth, is_file, extension } => {
                if *is_file && extension_is_markdown(extension) {
                    let name = path_to_display_name(relative_path.as_str());
                    if *depth > 1 {
                        let d = make_diag(
                            DiagnosticSeverity::Error,
                            DiagnosticCode::NestedSpecFile,
                            cat3(
                                "Reject nested spec file '",
                                name.as_str(),
                                "' because specs/ must stay flat.",
                            ),
                            loc_in_file(name.as_str()),
                        );
                        diagnostics.push(d);
                        assert(diags_view(diagnostics@) =~= dv.push(d@));
                    } else {
                        names.push(name);
                        assert(strings_view(names@) =~= nv.push(display_name(relative_path@)));
                    }
                }
            },
        }
        i = i + 1;
    }
    assert(es.take(entries.len() as int) =~= es);
    let file_names = sort_names(names);
    SpecDiscovery { diagnostics, file_names }
}

// ---------------------------------------------------------------------------
// Graph
// ---------------------------------------------------------------------------
/// The address of a heading section.
pub open spec fn section_id(file: Seq<char>, slug: Seq<char>) -> Seq<char> {
    file + "#"@ + slug
}

/// Node candidates of one spec: its file node, then one per heading.
pub open spec fn spec_nodes(s: SpecView) -> Seq<NodeView> {
    seq![NodeView { id: s.file_name, kind: GraphNodeKind::File, file_name: s.file_name }]
        + s.headings.map_values(
        |h: HeadingView|
            NodeView {
                id: section_id(s.file_name, h.slug),
                kind: GraphNodeKind::Section,
                file_name: s.file_name,
            },
    )
}

/// Node candidates of all specs, in order.
pub open spec fn node_candidates(specs: Seq<SpecView>) -> Seq<NodeView>
    decreases specs.len(),
{
    if specs.len() == 0 {
        Seq::empty()
    } else {
        node_candidates(specs.drop_last()) + spec_nodes(specs.last())
    }
}

/// The first node of each id, in order.
pub open spec fn dedup_nodes(ns: Seq<NodeView>) -> Seq<NodeView>
    decreases ns.len(),
{
    if ns.len() == 0 {
        Seq::empty()
    } else {
        let prev = dedup_nodes(ns.drop_last());
        if prev.map_values(|n: NodeView| n.id).contains(ns.last().id) {
            prev
        } else {
            prev.push(ns.last())
        }
    }
}

/// `Contains` edges of one spec: each section to its file.
pub open spec fn spec_contains(s: SpecView) -> Seq<EdgeView> {
    s.headings.map_values(
        |h: HeadingView|
            EdgeView {
                source: section_id(s.file_name, h.slug),
                target: s.file_name,
                kind: GraphEdgeKind::Contains,
            },
    )
}

pub open spec fn contains_edges(specs: Seq<SpecView>) -> Seq<EdgeView>
    decreases specs.len(),
{
    if specs.len() == 0 {
        Seq::empty()
    } else {
        contains_edges(specs.drop_last()) + spec_contains(specs.last())
    }
}

/// Heading slugs of the last spec with the given name (none if there is none).
pub open spec fn slugs_in(specs: Seq<SpecView>, file: Seq<char>) -> Seq<Seq<char>>
    decreases specs.len(),
{
    if specs.len() == 0 {
        Seq::empty()
    } else if specs.last().file_name == file {
        slugs_of(specs.last().headings)
    } else {
        slugs_in(specs.drop_last(), file)
    }
}

pub open spec fn msg_broken_file(raw: Seq<char>, file: Seq<char>) -> Seq<char> {
    "Resolve Specifies target '"@ + raw + "' in '"@ + file + "' to an existing file."@
}

pub open spec fn msg_broken_heading(raw: Seq<char>, file: Seq<char>) -> Seq<char> {
    "Resolve Specifies target '"@ + raw + "' in '"@ + file + "' to an existing heading."@
}

/// Resolving one `Specifies` target of `file`: a `Specifies` edge, or the
/// diagnostic for a missing file or heading.
pub open spec fn resolve_target(
    specs: Seq<SpecView>,
    known: Seq<Seq<char>>,
    file: Seq<char>,
    t: TargetView,
) -> Result<EdgeView, DiagnosticView> {
    if !known.contains(t.file_name) {
        Err(
            diag(
                DiagnosticSeverity::Error,
                DiagnosticCode::BrokenTargetFile,
                msg_broken_file(t.raw, file),
                in_file(file),
            ),
        )
    } else if !slugs_in(specs, t.file_name).contains(t.heading_slug) {
        Err(
            diag(
                DiagnosticSeverity::Error,
                DiagnosticCode::BrokenTargetHeading,
                msg_broken_heading(t.raw, file),
                in_file(file),
            ),
        )
    } else {
        Ok(
            EdgeView {
                source: file,
                target: section_id(t.file_name, t.heading_slug),
                kind: GraphEdgeKind::Specifies,
            },
        )
    }
}

/// Resolutions of the targets `ts` of `file`, in order.
pub open spec fn resolutions(
    specs: Seq<SpecView>,
    known: Seq<Seq<char>>,
    file: Seq<char>,
    ts: Seq<TargetView>,
) -> Seq<Result<EdgeView, DiagnosticView>> {
    ts.map_values(|t: TargetView| resolve_target(specs, known, file, t))
}

pub open spec fn oks(rs: Seq<Result<EdgeView, DiagnosticView>>) -> Seq<EdgeView>
    decreases rs.len(),
{
    if rs.len() == 0 {
        Seq::empty()
    } else {
        match rs.last() {
            Ok(e) => oks(rs.drop_last()).push(e),
            Err(_) => oks(rs.drop_last()),
        }
    }
}

pub open spec fn errs(rs: Seq<Result<EdgeView, DiagnosticView>>) -> Seq<DiagnosticView>
    decreases rs.len(),
{
    if rs.len() == 0 {
        Seq::empty()
    } else {
        match rs.last() {
            Ok(_) => errs(rs.drop_last()),
            Err(d) => errs(rs.drop_last()).push(d),
        }
    }
}

/// Resolutions of all targets of the first `k` specs, spec by spec.
pub open spec fn all_resolutions(specs: Seq<SpecView>, known: Seq<Seq<char>>, k: int) -> Seq<
    Result<EdgeView, DiagnosticView>,
>
    decreases k,
{
    if k <= 0 {
        Seq::empty()
    } else {
        all_resolutions(specs, known, k - 1) + resolutions(
            specs,
            known,
            specs[k - 1].file_name,
            specs[k - 1].specifies,
        )
    }
}

pub open spec fn msg_cycle(c: Seq<Seq<char>>) -> Seq<char> {
    "Break directed cycle: "@ + join(c, " -> "@)
}

pub open spec fn cycle_diags(cs: Seq<Seq<Seq<char>>>) -> Seq<DiagnosticView> {
    cs.map_values(
        |c: Seq<Seq<char>>|
            diag(DiagnosticSeverity::Error, DiagnosticCode::CycleDetected, msg_cycle(c), None),
    )
}

/// The name exempt from the orphan rule.
pub open spec fn spec_format_name() -> Seq<char> {
    "spec-format.md"@
}

/// Kinds that must specify a parent section.
pub open spec fn needs_parent(k: Option<SpecKind>) -> bool {
    k == Some(SpecKind::Feature) || k == Some(SpecKind::Behavioural) || k == Some(
        SpecKind::Interface,
    )
}

pub open spec fn msg_orphan(file: Seq<char>) -> Seq<char> {
    "Add at least one valid Specifies target for '"@ + file
        + "', or change Kind if it should float."@
}

/// The orphan diagnostics of the first `k` specs.
pub open spec fn orphan_diags(specs: Seq<SpecView>, known: Seq<Seq<char>>, k: int) -> Seq<
    DiagnosticView,
>
    decreases k,
{
    if k <= 0 {
        Seq::empty()
    } else {
        let s = specs[k - 1];
        let prev = orphan_diags(specs, known, k - 1);
        if s.file_name != spec_format_name() && needs_parent(s.kind) && !s.is_root && oks(
            resolutions(specs, known, s.file_name, s.specifies),
        ).len() == 0 {
            prev.push(
                diag(
                    DiagnosticSeverity::Warning,
                    DiagnosticCode::OrphanSpec,
                    msg_orphan(s.file_name),
                    at_file_start(s.file_name),
                ),
            )
        } else {
            prev
        }
    }
}

/// `apply_warning_policy`: in strict mode, or when warnings count as errors,
/// every warning becomes an error.
pub open spec fn with_policy(ds: Seq<DiagnosticView>, options: ParseOptions) -> Seq<
    DiagnosticView,
> {
    ds.map_values(
        |d: DiagnosticView|
            if (options.strict || options.warnings_as_errors) && d.severity
                == DiagnosticSeverity::Warning {
                DiagnosticView { severity: DiagnosticSeverity::Error, ..d }
            } else {
                d
            },
    )
}

/// Under the strict or warnings-as-errors policy no warning is left;
/// otherwise the diagnostics are unchanged. Either way only severities
/// change, never the number, order, codes, messages or locations.
pub proof fn lemma_policy_effect(ds: Seq<DiagnosticView>, options: ParseOptions)
    ensures
        with_policy(ds, options).len() == ds.len(),
        forall|i: int|
            0 <= i < ds.len() ==> {
                let d = #[trigger] with_policy(ds, options)[i];
                &&& d.code == ds[i].code
                &&& d.message == ds[i].message
                &&& d.location == ds[i].location
            },
        (options.strict || options.warnings_as_errors) ==> forall|i: int|
            0 <= i < ds.len() ==> #[trigger] with_policy(ds, options)[i].severity
                == DiagnosticSeverity::Error,
        !(options.strict || options.warnings_as_errors) ==> with_policy(ds, options) == ds,
{
    if !(options.strict || options.warnings_as_errors) {
        assert(with_policy(ds, options) =~= ds);
    }
}

/// Diagnostics of the first `k` file outcomes, file by file.
pub open spec fn file_diags(outs: Seq<FileOutcome>, k: int) -> Seq<DiagnosticView>
    decreases k,
{
    if k <= 0 {
        Seq::empty()
    } else {
        file_diags(outs, k - 1) + outs[k - 1].diagnostics
    }
}

pub open spec fn known_names(files: Seq<SpecFileInputView>) -> Seq<Seq<char>> {
    files.map_values(|f: SpecFileInputView| f.file_name)
}

pub open spec fn outcomes(files: Seq<SpecFileInputView>) -> Seq<FileOutcome> {
    files.map_values(|f: SpecFileInputView| file_outcome(f, known_names(files)))
}

/// The parsed specs of the files, in file order.
pub open spec fn parsed_specs(files: Seq<SpecFileInputView>) -> Seq<SpecView> {
    Seq::new(
        files.len(),
        |i: int|
            SpecView {
                file_name: files[i].file_name,
                kind: outcomes(files)[i].kind,
                is_root: outcomes(files)[i].is_root,
                specifies: outcomes(files)[i].specifies,
                headings: outcomes(files)[i].headings,
            },
    )
}

/// The whole parse pass over the files a discovery found, after the walk
/// diagnostics `walk`.
pub open spec fn parse_result_of(
    walk: Seq<DiagnosticView>,
    files: Seq<SpecFileInputView>,
    options: ParseOptions,
) -> ParseResultView {
    let known = known_names(files);
    let specs = parsed_specs(files);
    let nodes = dedup_nodes(node_candidates(specs));
    let rs = all_resolutions(specs, known, specs.len() as int);
    let edges = contains_edges(specs) + oks(rs);
    let diagnostics = walk + file_diags(outcomes(files), files.len() as int) + errs(rs)
        + cycle_diags(cycles_of(nodes, edges)) + orphan_diags(specs, known, specs.len() as int);
    ParseResultView { specs, nodes, edges, diagnostics: with_policy(diagnostics, options) }
}

fn has_node_id(nodes: &Vec<GraphNode>, id: &str) -> (r: bool)
    ensures
        r == nodes_view(nodes@).map_values(|n: NodeView| n.id).contains(id@),
{
    let ghost ids = nodes_view(nodes@).map_values(|n: NodeView| n.id);
    let mut i: usize = 0;
    while i < nodes.len()
        invariant
            i <= nodes.len(),
            ids == nodes_view(nodes@).map_values(|n: NodeView| n.id),
            forall|j: int| 0 <= j < i ==> ids[j] != id@,
        decreases nodes.len() - i,
    {
        if str_eq(nodes[i].id.as_str(), id) {
            assert(ids[i as int] == id@);
            return true;
        }
        i = i + 1;
    }
    false
}

/// `insert_node`: adds a node unless one with its id is there.
fn insert_node(nodes: &mut Vec<GraphNode>, node: GraphNode)
    ensures
        ({
            let prev = nodes_view(old(nodes)@);
            nodes_view(final(nodes)@) == if prev.map_values(|n: NodeView| n.id).contains(node@.id) {
                prev
            } else {
                prev.push(node@)
            }
        }),
{
    if !has_node_id(nodes, node.id.as_str()) {
        let ghost prev = nodes_view(nodes@);
        nodes.push(node);
        assert(nodes_view(nodes@) =~= prev.push(node@));
    }
}

proof fn lemma_dedup_push(s: Seq<NodeView>, x: NodeView)
    ensures
        dedup_nodes(s.push(x)) == if dedup_nodes(s).map_values(|n: NodeView| n.id).contains(
            x.id,
        ) {
            dedup_nodes(s)
        } else {
            dedup_nodes(s).push(x)
        },
{
    assert(s.push(x).drop_last() =~= s);
}

fn section_id_exec(file: &str, slug: &str) -> (r: String)
    ensures
        r@ == section_id(file@, slug@),
{
    cat3(file, "#", slug)
}

proof fn lemma_take_push<T>(s: Seq<T>, a: Seq<T>, j: int)
    requires
        0 <= j < a.len(),
    ensures
        s + a.take(j + 1) == (s + a.take(j)).push(a[j]),
{
    assert(s + a.take(j + 1) =~= (s + a.take(j)).push(a[j]));
}

/// The graph nodes of the parsed specs.
fn build_nodes(specs: &Vec<ParsedSpec>) -> (r: Vec<GraphNode>)
    ensures
        nodes_view(r@) == dedup_nodes(node_candidates(specs_view(specs@))),
{
    let ghost sv = specs_view(specs@);
    let mut nodes: Vec<GraphNode> = Vec::new();
    let mut i: usize = 0;
    while i < specs.len()
        invariant
            i <= specs.len(),
            sv == specs_view(specs@),
            nodes_view(nodes@) == dedup_nodes(node_candidates(sv.take(i as int))),
        decreases specs.len() - i,
    {
        let spec = &specs[i];
        let ghost base = node_candidates(sv.take(i as int));
        let ghost mine = spec_nodes(sv[i as int]);
        assert(sv.take(i + 1).drop_last() =~= sv.take(i as int));
        assert(sv.take(i + 1).last() == spec@);
        let file_node = GraphNode {
            id: spec.file_name.clone(),
            kind: GraphNodeKind::File,
            file_name: spec.file_name.clone(),
        };
        assert(file_node@ == mine[0]);
        insert_node(&mut nodes, file_node);
        proof {
            lemma_take_push(base, mine, 0);
            assert(base + mine.take(0) =~= base);
            lemma_dedup_push(base, mine[0]);
        }
        let mut j: usize = 0;
        while j < spec.headings.len()
            invariant
                j <= spec.headings.len(),
                mine == spec_nodes(spec@),
                mine.len() == spec.headings.len() + 1,
                nodes_view(nodes@) == dedup_nodes(base + mine.take(j + 1)),
            decreases spec.headings.len() - j,
        {
            let h = &spec.headings[j];
            let node = GraphNode {
                id: section_id_exec(spec.file_name.as_str(), h.slug.as_str()),
                kind: GraphNodeKind::Section,
                file_name: spec.file_name.clone(),
            };
            assert(node@ == mine[j + 1]);
            insert_node(&mut nodes, node);
            proof {
                lemma_take_push(base, mine, j + 1);
                lemma_dedup_push(base + mine.take(j + 1), mine[j + 1]);
            }
            j = j + 1;
        }
        assert(mine.take(spec.headings.len() + 1) =~= mine);
        assert(node_candidates(sv.take(i + 1)) == base + mine);
        i = i + 1;
    }
    assert(sv.take(specs.len() as int) =~= sv);
    nodes
}

/// The `Contains` edges of the parsed specs.
fn build_contains(specs: &Vec<ParsedSpec>) -> (r: Vec<GraphEdge>)
    ensures
        edges_view(r@) == contains_edges(specs_view(specs@)),
{
    let ghost sv = specs_view(specs@);
    let mut edges: Vec<GraphEdge> = Vec::new();
    let mut i: usize = 0;
    while i < specs.len()
        invariant
            i <= specs.len(),
            sv == specs_view(specs@),
            edges_view(edges@) == contains_edges(sv.take(i as int)),
        decreases specs.len() - i,
    {
        let spec = &specs[i];
        let ghost base = contains_edges(sv.take(i as int));
        let ghost mine = spec_contains(sv[i as int]);
        assert(sv.take(i + 1).drop_last() =~= sv.take(i as int));
        assert(sv.take(i + 1).last() == spec@);
        let mut j: usize = 0;
        assert(base + mine.take(0) =~= base);
        while j < spec.headings.len()
            invariant
                j <= spec.headings.len(),
                mine == spec_contains(spec@),
                mine.len() == spec.headings.len(),
                edges_view(edges@) == base + mine.take(j as int),
            decreases spec.headings.len() - j,
        {
            let h = &spec.headings[j];
            let e = GraphEdge {
                source: section_id_exec(spec.file_name.as_str(), h.slug.as_str()),
                target: spec.file_name.clone(),
                kind: GraphEdgeKind::Contains,
            };
            assert(e@ == mine[j as int]);
            let ghost prev = edges_view(edges@);
            edges.push(e);
            assert(edges_view(edges@) =~= prev.push(e@));
            proof {
                lemma_take_push(base, mine, j as int);
            }
            j = j + 1;
        }
        assert(mine.take(spec.headings.len() as int) =~= mine);
        i = i + 1;
    }
    assert(sv.take(specs.len() as int) =~= sv);
    edges
}

/// Heading slugs of the last spec named `file`.
fn slugs_of_file(specs: &Vec<ParsedSpec>, file: &str) -> (r: Vec<String>)
    ensures
        strings_view(r@) == slugs_in(specs_view(specs@), file@),
{
    let ghost sv = specs_view(specs@);
    let mut k: usize = specs.len();
    assert(sv.take(k as int) =~= sv);
    while k > 0 && !str_eq(specs[k - 1].file_name.as_str(), file)
        invariant
            k <= specs.len(),
            sv == specs_view(specs@),
            slugs_in(sv, file@) == slugs_in(sv.take(k as int), file@),
        decreases k,
    {
        assert(sv.take(k as int).drop_last() =~= sv.take(k - 1));
        k = k - 1;
    }
    if k == 0 {
        assert(sv.take(0) =~= Seq::<SpecView>::empty());
        return Vec::new();
    }
    assert(sv.take(k as int).last() == specs@[k - 1]@);
    let hs = &specs[k - 1].headings;
    let mut out: Vec<String> = Vec::new();
    let mut j: usize = 0;
    while j < hs.len()
        invariant
            j <= hs.len(),
            strings_view(out@) == slugs_of(headings_view(hs@)).take(j as int),
        decreases hs.len() - j,
    {
        let ghost prev = strings_view(out@);
        let item = hs[j].slug.clone();
        out.push(item);
        assert(strings_view(out@) =~= prev.push(item@));
        assert(slugs_of(headings_view(hs@))[j as int] == item@);
        assert(strings_view(out@) =~= slugs_of(headings_view(hs@)).take(j + 1));
        j = j + 1;
    }
    assert(slugs_of(headings_view(hs@)).take(hs.len() as int) =~= slugs_of(headings_view(hs@)));
    out
}

proof fn lemma_oks_errs_push(rs: Seq<Result<EdgeView, DiagnosticView>>, x: Result<EdgeView, DiagnosticView>)
    ensures
        oks(rs.push(x)) == match x {
            Ok(e) => oks(rs).push(e),
            Err(_) => oks(rs),
        },
        errs(rs.push(x)) == match x {
            Ok(_) => errs(rs),
            Err(d) => errs(rs).push(d),
        },
{
    assert(rs.push(x).drop_last() =~= rs);
}

/// Resolves every `Specifies` target; the edges, the diagnostics, and per
/// spec the number of resolved targets.
fn resolve_all(specs: &Vec<ParsedSpec>, known: &Vec<String>) -> (r: (
    Vec<GraphEdge>,
    Vec<Diagnostic>,
    Vec<usize>,
))
    ensures
        ({
            let sv = specs_view(specs@);
            let rs = all_resolutions(sv, strings_view(known@), sv.len() as int);
            &&& edges_view(r.0@) == oks(rs)
            &&& diags_view(r.1@) == errs(rs)
            &&& r.2.len() == sv.len()
            &&& forall|i: int|
                0 <= i < sv.len() ==> #[trigger] r.2@[i] as nat == oks(
                    resolutions(sv, strings_view(known@), sv[i].file_name, sv[i].specifies),
                ).len()
        }),
{
    let ghost sv = specs_view(specs@);
    let ghost kv = strings_view(known@);
    let mut edges: Vec<GraphEdge> = Vec::new();
    let mut diags: Vec<Diagnostic> = Vec::new();
    let mut counts: Vec<usize> = Vec::new();
    let mut i: usize = 0;
    while i < specs.len()
        invariant
            i <= specs.len(),
            sv == specs_view(specs@),
            kv == strings_view(known@),
            edges_view(edges@) == oks(all_resolutions(sv, kv, i as int)),
            diags_view(diags@) == errs(all_resolutions(sv, kv, i as int)),
            counts.len() == i,
            forall|q: int|
                0 <= q < i ==> #[trigger] counts@[q] as nat == oks(
                    resolutions(sv, kv, sv[q].file_name, sv[q].specifies),
                ).len(),
        decreases specs.len() - i,
    {
        let spec = &specs[i];
        let file = spec.file_name.as_str();
        let ghost base = all_resolutions(sv, kv, i as int);
        let ghost mine = resolutions(sv, kv, sv[i as int].file_name, sv[i as int].specifies);
        let mut count: usize = 0;
        let mut j: usize = 0;
        assert(base + mine.take(0) =~= base);
        assert(mine.take(0) =~= Seq::<Result<EdgeView, DiagnosticView>>::empty());
        while j < spec.specifies.len()
            invariant
                j <= spec.specifies.len(),
                spec@ == sv[i as int],
                file@ == spec.file_name@,
                sv == specs_view(specs@),
                kv == strings_view(known@),
                mine == resolutions(sv, kv, sv[i as int].file_name, sv[i as int].specifies),
                mine.len() == spec.specifies.len(),
                edges_view(edges@) == oks(base + mine.take(j as int)),
                diags_view(diags@) == errs(base + mine.take(j as int)),
                count as nat == oks(mine.take(j as int)).len(),
                count <= j,
            decreases spec.specifies.len() - j,
        {
            let t = &spec.specifies[j];
            let ghost ev = edges_view(edges@);
            let ghost dv = diags_view(diags@);
            proof {
                lemma_take_push(base, mine, j as int);
                lemma_oks_errs_push(base + mine.take(j as int), mine[j as int]);
                assert(mine.take(j + 1) =~= mine.take(j as int).push(mine[j as int]));
                lemma_oks_errs_push(mine.take(j as int), mine[j as int]);
                assert(sv[i as int].specifies[j as int] == t@);
                assert(sv[i as int].file_name == file@);
                assert(mine[j as int] == resolve_target(sv, kv, file@, t@));
            }
            if !contains_name(known, t.file_name.as_str()) {
                let d = make_diag(
                    DiagnosticSeverity::Error,
                    DiagnosticCode::BrokenTargetFile,
                    crate::parse::file::cat5(
                        "Resolve Specifies target '",
                        t.raw.as_str(),
                        "' in '",
                        file,
                        "' to an existing file.",
                    ),
                    loc_in_file(file),
                );
                diags.push(d);
                assert(diags_view(diags@) =~= dv.push(d@));
            } else {
                let slugs = slugs_of_file(specs, t.file_name.as_str());
                if !contains_name(&slugs, t.heading_slug.as_str()) {
                    let d = make_diag(
                        DiagnosticSeverity::Error,
                        DiagnosticCode::BrokenTargetHeading,
                        crate::parse::file::cat5(
                            "Resolve Specifies target '",
                            t.raw.as_str(),
                            "' in '",
                            file,
                            "' to an existing heading.",
                        ),
                        loc_in_file(file),
                    );
                    diags.push(d);
                    assert(diags_view(diags@) =~= dv.push(d@));
                } else {
                    let e = GraphEdge {
                        source: spec.file_name.clone(),
                        target: section_id_exec(t.file_name.as_str(), t.heading_slug.as_str()),
                        kind: GraphEdgeKind::Specifies,
                    };
                    edges.push(e);
                    assert(edges_view(edges@) =~= ev.push(e@));
                    count = count + 1;
                }
            }
            j = j + 1;
        }
        assert(mine.take(spec.specifies.len() as int) =~= mine);
        assert(all_resolutions(sv, kv, i + 1) == base + mine);
        counts.push(count);
        i = i + 1;
    }
    (edges, diags, counts)
}

/// `apply_warning_policy`.
pub fn apply_warning_policy(diagnostics: &mut Vec<Diagnostic>, options: ParseOptions)
    ensures
        diags_view(final(diagnostics)@) == with_policy(diags_view(old(diagnostics)@), options),
{
    let ghost orig = diags_view(diagnostics@);
    let mut rest: Vec<Diagnostic> = Vec::new();
    std::mem::swap(&mut rest, diagnostics);
    let mut out: Vec<Diagnostic> = Vec::new();
    let ghost all = rest@;
    let mut n: usize = 0;
    assert(all.len() == rest.len());
    while rest.len() > 0
        invariant
            orig == diags_view(all),
            rest@ == all.skip(n as int),
            n + rest.len() == all.len(),
            all.len() <= usize::MAX,
            diags_view(out@) == with_policy(orig, options).take(n as int),
        decreases rest.len(),
    {
        let mut d = rest.remove(0);
        assert(rest@ =~= all.skip(n + 1));
        assert(d == all[n as int]);
        if (options.strict || options.warnings_as_errors) && d.severity == DiagnosticSeverity::Warning {
            d.severity = DiagnosticSeverity::Error;
        }
        let ghost prev = diags_view(out@);
        out.push(d);
        assert(diags_view(out@) =~= prev.push(d@));
        assert(with_policy(orig, options).take(n + 1) =~= with_policy(orig, options).take(n as int).push(d@));
        n = n + 1;
    }
    assert(with_policy(orig, options).take(n as int) =~= with_policy(orig, options));
    *diagnostics = out;
}

/// The parse pass after discovery: parses each file, builds the section
/// graph, resolves targets, reports cycles and orphans, and applies the
/// warning policy. `walk_diagnostics` come first in the result.
pub fn build_parse_result(
    walk_diagnostics: Vec<Diagnostic>,
    files: &Vec<SpecFileInput>,
    options: ParseOptions,
) -> (r: ParseResult)
    ensures
        r@ == parse_result_of(
            diags_view(walk_diagnostics@),
            files@.map_values(|f: SpecFileInput| f@),
            options,
        ),
{
    let ghost fv = files@.map_values(|f: SpecFileInput| f@);
    let ghost known_v = known_names(fv);
    let ghost outs = outcomes(fv);
    let ghost psv = parsed_specs(fv);
    let mut known: Vec<String> = Vec::new();
    let mut i: usize = 0;
    while i < files.len()
        invariant
            i <= files.len(),
            fv == files@.map_values(|f: SpecFileInput| f@),
            known_v == known_names(fv),
            strings_view(known@) == known_v.take(i as int),
        decreases files.len() - i,
    {
        let ghost prev = strings_view(known@);
        let item = files[i].file_name.clone();
        known.push(item);
        assert(strings_view(known@) =~= prev.push(item@));
        assert(known_v[i as int] == item@);
        assert(strings_view(known@) =~= known_v.take(i + 1));
        i = i + 1;
    }
    assert(known_v.take(files.len() as int) =~= known_v);
    let mut diagnostics = walk_diagnostics;
    let ghost walk = diags_view(diagnostics@);
    let mut specs: Vec<ParsedSpec> = Vec::new();
    let mut k: usize = 0;
    while k < files.len()
        invariant
            k <= files.len(),
            fv == files@.map_values(|f: SpecFileInput| f@),
            known_v == known_names(fv),
            outs == outcomes(fv),
            psv == parsed_specs(fv),
            strings_view(known@) == known_v,
            specs_view(specs@) == psv.take(k as int),
            diags_view(diagnostics@) == walk + file_diags(outs, k as int),
        decreases files.len() - k,
    {
        let (spec, ds) = parse_spec_file(&files[k], &known);
        assert(spec@ == psv[k as int]);
        let ghost sp = specs_view(specs@);
        specs.push(spec);
        assert(specs_view(specs@) =~= sp.push(psv[k as int]));
        assert(specs_view(specs@) =~= psv.take(k + 1));
        let ghost dprev = diags_view(diagnostics@);
        let mut ds2 = ds;
        diagnostics.append(&mut ds2);
        assert(diags_view(diagnostics@) =~= dprev + outs[k as int].diagnostics);
        k = k + 1;
    }
    assert(psv.take(files.len() as int) =~= psv);
    let nodes = build_nodes(&specs);
    let contains = build_contains(&specs);
    let (spec_edges, target_diags, counts) = resolve_all(&specs, &known);
    let mut edges = contains;
    let ghost ce = edges_view(edges@);
    let mut se = spec_edges;
    edges.append(&mut se);
    let ghost rs = all_resolutions(psv, known_v, psv.len() as int);
    assert(edges_view(edges@) =~= ce + oks(rs));
    let ghost d1 = diags_view(diagnostics@);
    let mut td = target_diags;
    diagnostics.append(&mut td);
    assert(diags_view(diagnostics@) =~= d1 + errs(rs));
    let cycles = find_cycles(&nodes, &edges);
    let ghost cv = cycles_view(cycles@);
    let ghost d2 = diags_view(diagnostics@);
    let mut c: usize = 0;
    while c < cycles.len()
        invariant
            c <= cycles.len(),
            cv == cycles_view(cycles@),
            diags_view(diagnostics@) == d2 + cycle_diags(cv.take(c as int)),
        decreases cycles.len() - c,
    {
        let mut parts: Vec<Vec<char>> = Vec::new();
        let mut q: usize = 0;
        while q < cycles[c].len()
            invariant
                c < cycles.len(),
                q <= cycles[c as int].len(),
                parts@.map_values(|p: Vec<char>| p@) == strings_view(cycles[c as int]@).take(q as int),
            decreases cycles[c as int].len() - q,
        {
            let ghost pv = parts@.map_values(|p: Vec<char>| p@);
            let item = str_chars(cycles[c][q].as_str());
            parts.push(item);
            assert(parts@.map_values(|p: Vec<char>| p@) =~= pv.push(item@));
            assert(strings_view(cycles[c as int]@).take(q + 1) =~= strings_view(cycles[c as int]@).take(q as int).push(cycles[c as int]@[q as int]@));
            q = q + 1;
        }
        assert(strings_view(cycles[c as int]@).take(cycles[c as int].len() as int) =~= strings_view(cycles[c as int]@));
        let sep = str_chars(" -> ");
        let path = join_chars(parts.as_slice(), sep.as_slice());
        let mut message = owned("Break directed cycle: ");
        crate::text::append_chars(&mut message, path.as_slice());
        let d = make_diag(DiagnosticSeverity::Error, DiagnosticCode::CycleDetected, message, None);
        assert(d@ == cycle_diags(cv)[c as int]);
        let ghost dp = diags_view(diagnostics@);
        diagnostics.push(d);
        assert(diags_view(diagnostics@) =~= dp.push(d@));
        assert(cycle_diags(cv.take(c + 1)) =~= cycle_diags(cv.take(c as int)).push(d@));
        c = c + 1;
    }
    assert(cv.take(cycles.len() as int) =~= cv);
    let ghost d3 = diags_view(diagnostics@);
    let mut o: usize = 0;
    while o < specs.len()
        invariant
            o <= specs.len(),
            specs_view(specs@) == psv,
            strings_view(known@) == known_v,
            counts.len() == psv.len(),
            forall|q: int|
                0 <= q < psv.len() ==> #[trigger] counts@[q] as nat == oks(
                    resolutions(psv, known_v, psv[q].file_name, psv[q].specifies),
                ).len(),
            diags_view(diagnostics@) == d3 + orphan_diags(psv, known_v, o as int),
        decreases specs.len() - o,
    {
        let spec = &specs[o];
        let is_format = str_eq(spec.file_name.as_str(), "spec-format.md");
        let needs = match spec.kind {
            Some(SpecKind::Feature) | Some(SpecKind::Behavioural) | Some(SpecKind::Interface) => true,
            _ => false,
        };
        assert(psv[o as int] == spec@);
        if !is_format && needs && !spec.is_root && counts[o] == 0 {
            let d = make_diag(
                DiagnosticSeverity::Warning,
                DiagnosticCode::OrphanSpec,
                cat3(
                    "Add at least one valid Specifies target for '",
                    spec.file_name.as_str(),
                    "', or change Kind if it should float.",
                ),
                loc_file_start(spec.file_name.as_str()),
            );
            let ghost dp = diags_view(diagnostics@);
            diagnostics.push(d);
            assert(diags_view(diagnostics@) =~= dp.push(d@));
        }
        o = o + 1;
    }
    apply_warning_policy(&mut diagnostics, options);
    ParseResult { specs, graph: SpecGraph { nodes, edges }, diagnostics }
}


// ---------------------------------------------------------------------------
// Cycles of the parse graph
// ---------------------------------------------------------------------------
proof fn lemma_push_contains(s: Seq<Seq<char>>, a: Seq<char>, x: Seq<char>)
    ensures
        s.push(a).contains(x) <==> (s.contains(x) || x == a),
{
    if s.push(a).contains(x) {
        let j = choose|j: int| 0 <= j < s.push(a).len() && s.push(a)[j] == x;
        if j < s.len() {
            assert(s[j] == x);
        }
    }
    if s.contains(x) {
        let j = choose|j: int| 0 <= j < s.len() && s[j] == x;
        assert(s.push(a)[j] == x);
    }
    if x == a {
        assert(s.push(a)[s.len() as int] == a);
    }
}

proof fn lemma_dedup_ids(ns: Seq<NodeView>, x: Seq<char>)
    ensures
        node_ids(dedup_nodes(ns)).contains(x) <==> node_ids(ns).contains(x),
    decreases ns.len(),
{
    if ns.len() > 0 {
        let prev = dedup_nodes(ns.drop_last());
        lemma_dedup_ids(ns.drop_last(), x);
        lemma_dedup_ids(ns.drop_last(), ns.last().id);
        assert(node_ids(ns) =~= node_ids(ns.drop_last()).push(ns.last().id));
        lemma_push_contains(node_ids(ns.drop_last()), ns.last().id, x);
        if !node_ids(prev).contains(ns.last().id) {
            assert(node_ids(prev.push(ns.last())) =~= node_ids(prev).push(ns.last().id));
            lemma_push_contains(node_ids(prev), ns.last().id, x);
        }
    } else {
        assert(node_ids(ns) =~= Seq::<Seq<char>>::empty());
        assert(node_ids(dedup_nodes(ns)) =~= Seq::<Seq<char>>::empty());
    }
}

/// The file node and the section nodes of each spec are node candidates.
proof fn lemma_candidate_ids(specs: Seq<SpecView>, i: int)
    requires
        0 <= i < specs.len(),
    ensures
        node_ids(node_candidates(specs)).contains(specs[i].file_name),
        forall|j: int|
            0 <= j < specs[i].headings.len() ==> node_ids(node_candidates(specs)).contains(
                section_id(specs[i].file_name, #[trigger] specs[i].headings[j].slug),
            ),
    decreases specs.len(),
{
    let prev = node_candidates(specs.drop_last());
    let mine = spec_nodes(specs.last());
    assert(node_ids(node_candidates(specs)) =~= node_ids(prev) + node_ids(mine));
    if i < specs.len() - 1 {
        assert(specs.drop_last()[i] == specs[i]);
        lemma_candidate_ids(specs.drop_last(), i);
        let a = choose|a: int| 0 <= a < node_ids(prev).len() && node_ids(prev)[a] == specs[i].file_name;
        assert(node_ids(node_candidates(specs))[a] == specs[i].file_name);
        assert forall|j: int| 0 <= j < specs[i].headings.len() implies node_ids(
            node_candidates(specs),
        ).contains(section_id(specs[i].file_name, #[trigger] specs[i].headings[j].slug)) by {
            let sid = section_id(specs[i].file_name, specs[i].headings[j].slug);
            assert(node_ids(prev).contains(sid));
            let b = choose|b: int| 0 <= b < node_ids(prev).len() && node_ids(prev)[b] == sid;
            assert(node_ids(node_candidates(specs))[b] == sid);
        }
    } else {
        assert(node_ids(node_candidates(specs))[node_ids(prev).len() as int] == specs[i].file_name);
        assert forall|j: int| 0 <= j < specs[i].headings.len() implies node_ids(
            node_candidates(specs),
        ).contains(section_id(specs[i].file_name, #[trigger] specs[i].headings[j].slug)) by {
            assert(node_ids(node_candidates(specs))[node_ids(prev).len() + 1 + j] == section_id(
                specs[i].file_name,
                specs[i].headings[j].slug,
            ));
        }
    }
}

/// Each `Contains` edge starts at a section of one of the specs.
proof fn lemma_contains_sources(specs: Seq<SpecView>, k: int)
    requires
        0 <= k < contains_edges(specs).len(),
    ensures
        exists|i: int, j: int|
            0 <= i < specs.len() && 0 <= j < specs[i].headings.len() && contains_edges(specs)[k].source
                == section_id(specs[i].file_name, #[trigger] specs[i].headings[j].slug),
    decreases specs.len(),
{
    let prev = contains_edges(specs.drop_last());
    let i = specs.len() - 1;
    if k < prev.len() {
        lemma_contains_sources(specs.drop_last(), k);
        let (a, b) = choose|a: int, b: int|
            0 <= a < specs.drop_last().len() && 0 <= b < specs.drop_last()[a].headings.len()
                && prev[k].source == section_id(
                specs.drop_last()[a].file_name,
                #[trigger] specs.drop_last()[a].headings[b].slug,
            );
        assert(specs.drop_last()[a] == specs[a]);
        assert(contains_edges(specs)[k] == prev[k]);
        assert(specs[a].headings[b].slug == specs.drop_last()[a].headings[b].slug);
    } else {
        let j = k - prev.len();
        assert(contains_edges(specs)[k] == spec_contains(specs[i])[j]);
        assert(specs[i].headings[j].slug == specs[i].headings[j].slug);
    }
}

proof fn lemma_resolution_sources(specs: Seq<SpecView>, known: Seq<Seq<char>>, n: int, k: int)
    requires
        0 <= n <= specs.len(),
        0 <= k < oks(all_resolutions(specs, known, n)).len(),
    ensures
        exists|i: int|
            0 <= i < n && oks(all_resolutions(specs, known, n))[k].source == #[trigger] specs[i].file_name,
    decreases n,
{
    let rs = all_resolutions(specs, known, n);
    lemma_oks_sources(rs, k);
    let q = choose|q: int| 0 <= q < rs.len() && rs[q] == Ok::<EdgeView, DiagnosticView>(oks(rs)[k]);
    if n > 0 {
        let before = all_resolutions(specs, known, n - 1);
        let mine = resolutions(specs, known, specs[n - 1].file_name, specs[n - 1].specifies);
        assert(rs =~= before + mine);
        if q < before.len() {
            assert(rs[q] == before[q]);
            lemma_ok_in_oks(before, q);
            let kk = choose|kk: int| 0 <= kk < oks(before).len() && oks(before)[kk] == oks(rs)[k];
            lemma_resolution_sources(specs, known, n - 1, kk);
        } else {
            let t = specs[n - 1].specifies[q - before.len()];
            assert(mine[q - before.len()] == resolve_target(specs, known, specs[n - 1].file_name, t));
        }
    }
}

proof fn lemma_oks_sources(rs: Seq<Result<EdgeView, DiagnosticView>>, k: int)
    requires
        0 <= k < oks(rs).len(),
    ensures
        exists|q: int| 0 <= q < rs.len() && rs[q] == Ok::<EdgeView, DiagnosticView>(oks(rs)[k]),
    decreases rs.len(),
{
    let prev = oks(rs.drop_last());
    match rs.last() {
        Ok(e) => {
            if k < prev.len() {
                lemma_oks_sources(rs.drop_last(), k);
                let q = choose|q: int|
                    0 <= q < rs.drop_last().len() && rs.drop_last()[q] == Ok::<EdgeView, DiagnosticView>(prev[k]);
                assert(rs[q] == rs.drop_last()[q]);
            } else {
                assert(rs[rs.len() - 1] == rs.last());
            }
        },
        Err(_) => {
            lemma_oks_sources(rs.drop_last(), k);
            let q = choose|q: int|
                0 <= q < rs.drop_last().len() && rs.drop_last()[q] == Ok::<EdgeView, DiagnosticView>(prev[k]);
            assert(rs[q] == rs.drop_last()[q]);
        },
    }
}

proof fn lemma_ok_in_oks(rs: Seq<Result<EdgeView, DiagnosticView>>, q: int)
    requires
        0 <= q < rs.len(),
        rs[q] is Ok,
    ensures
        oks(rs).contains(rs[q]->Ok_0),
    decreases rs.len(),
{
    if q < rs.len() - 1 {
        assert(rs.drop_last()[q] == rs[q]);
        lemma_ok_in_oks(rs.drop_last(), q);
        let prev = oks(rs.drop_last());
        let j = choose|j: int| 0 <= j < prev.len() && prev[j] == rs[q]->Ok_0;
        assert(oks(rs)[j] == prev[j]);
    } else {
        assert(oks(rs).last() == rs[q]->Ok_0);
    }
}

/// Every edge of the parse graph starts at one of its nodes.
pub proof fn lemma_parse_edges_start_at_nodes(
    walk: Seq<DiagnosticView>,
    files: Seq<SpecFileInputView>,
    options: ParseOptions,
)
    ensures
        ({
            let r = parse_result_of(walk, files, options);
            forall|k: int| 0 <= k < r.edges.len() ==> node_ids(r.nodes).contains(#[trigger] r.edges[k].source)
        }),
{
    let r = parse_result_of(walk, files, options);
    let specs = parsed_specs(files);
    let known = known_names(files);
    let ce = contains_edges(specs);
    let rs = all_resolutions(specs, known, specs.len() as int);
    assert forall|k: int| 0 <= k < r.edges.len() implies node_ids(r.nodes).contains(
        #[trigger] r.edges[k].source,
    ) by {
        let src = r.edges[k].source;
        if k < ce.len() {
            assert(r.edges[k] == ce[k]);
            lemma_contains_sources(specs, k);
            let (i, j) = choose|i: int, j: int|
                0 <= i < specs.len() && 0 <= j < specs[i].headings.len() && ce[k].source == section_id(
                    specs[i].file_name,
                    #[trigger] specs[i].headings[j].slug,
                );
            lemma_candidate_ids(specs, i);
            assert(node_ids(node_candidates(specs)).contains(
                section_id(specs[i].file_name, specs[i].headings[j].slug),
            ));
        } else {
            assert(r.edges[k] == oks(rs)[k - ce.len()]);
            lemma_resolution_sources(specs, known, specs.len() as int, k - ce.len());
            let i = choose|i: int| 0 <= i < specs.len() && oks(rs)[k - ce.len()].source == #[trigger] specs[i].file_name;
            lemma_candidate_ids(specs, i);
        }
        lemma_dedup_ids(node_candidates(specs), src);
    }
}

/// The search over a parse graph reports a cycle exactly when the graph has
/// a closed walk; each reported cycle is then a `CycleDetected` diagnostic.
pub proof fn lemma_parse_reports_cycle_iff_graph_has_one(
    walk: Seq<DiagnosticView>,
    files: Seq<SpecFileInputView>,
    options: ParseOptions,
)
    ensures
        ({
            let r = parse_result_of(walk, files, options);
            cycles_of(r.nodes, r.edges).len() > 0 <==> exists|w: Seq<Seq<char>>| is_closed_walk(r.edges, w)
        }),
{
    lemma_parse_edges_start_at_nodes(walk, files, options);
    let r = parse_result_of(walk, files, options);
    lemma_cycles_found_iff_closed_walk(r.nodes, r.edges);
}


// ---------------------------------------------------------------------------
// The shape of the parse graph
// ---------------------------------------------------------------------------
proof fn lemma_resolution_of_edge(specs: Seq<SpecView>, known: Seq<Seq<char>>, n: int, k: int)
    requires
        0 <= n <= specs.len(),
        0 <= k < oks(all_resolutions(specs, known, n)).len(),
    ensures
        exists|i: int, j: int|
            0 <= i < n && 0 <= j < specs[i].specifies.len() && resolve_target(
                specs,
                known,
                specs[i].file_name,
                #[trigger] specs[i].specifies[j],
            ) == Ok::<EdgeView, DiagnosticView>(oks(all_resolutions(specs, known, n))[k]),
    decreases n,
{
    let rs = all_resolutions(specs, known, n);
    lemma_oks_sources(rs, k);
    let q = choose|q: int| 0 <= q < rs.len() && rs[q] == Ok::<EdgeView, DiagnosticView>(oks(rs)[k]);
    if n > 0 {
        let before = all_resolutions(specs, known, n - 1);
        let mine = resolutions(specs, known, specs[n - 1].file_name, specs[n - 1].specifies);
        assert(rs =~= before + mine);
        if q < before.len() {
            assert(rs[q] == before[q]);
            lemma_ok_in_oks(before, q);
            let kk = choose|kk: int| 0 <= kk < oks(before).len() && oks(before)[kk] == oks(rs)[k];
            lemma_resolution_of_edge(specs, known, n - 1, kk);
        } else {
            let j = q - before.len();
            assert(mine[j] == resolve_target(specs, known, specs[n - 1].file_name, specs[n - 1].specifies[j]));
        }
    }
}

proof fn lemma_slugs_in_found(specs: Seq<SpecView>, file: Seq<char>, x: Seq<char>)
    requires
        slugs_in(specs, file).contains(x),
    ensures
        exists|i: int, j: int|
            0 <= i < specs.len() && 0 <= j < specs[i].headings.len() && specs[i].file_name == file
                && (#[trigger] specs[i].headings[j]).slug == x,
    decreases specs.len(),
{
    if specs.last().file_name == file {
        let hs = specs.last().headings;
        let j = choose|j: int| 0 <= j < slugs_of(hs).len() && slugs_of(hs)[j] == x;
        assert(specs[specs.len() - 1].headings[j].slug == x);
    } else {
        lemma_slugs_in_found(specs.drop_last(), file, x);
        let (i, j) = choose|i: int, j: int|
            0 <= i < specs.drop_last().len() && 0 <= j < specs.drop_last()[i].headings.len()
                && specs.drop_last()[i].file_name == file && (#[trigger] specs.drop_last()[i].headings[j]).slug == x;
        assert(specs[i] == specs.drop_last()[i]);
    }
}

proof fn lemma_candidate_ids_only(specs: Seq<SpecView>, x: Seq<char>)
    requires
        node_ids(node_candidates(specs)).contains(x),
    ensures
        (exists|i: int| 0 <= i < specs.len() && x == #[trigger] specs[i].file_name) || exists|i: int, j: int|
            0 <= i < specs.len() && 0 <= j < specs[i].headings.len() && x == section_id(
                specs[i].file_name,
                #[trigger] specs[i].headings[j].slug,
            ),
    decreases specs.len(),
{
    let prev = node_candidates(specs.drop_last());
    let mine = spec_nodes(specs.last());
    let i = specs.len() - 1;
    assert(node_ids(node_candidates(specs)) =~= node_ids(prev) + node_ids(mine));
    let a = choose|a: int| 0 <= a < node_ids(node_candidates(specs)).len() && node_ids(node_candidates(specs))[a] == x;
    if a < node_ids(prev).len() {
        assert(node_ids(prev)[a] == x);
        lemma_candidate_ids_only(specs.drop_last(), x);
        if exists|i: int| 0 <= i < specs.drop_last().len() && x == #[trigger] specs.drop_last()[i].file_name {
            let i = choose|i: int| 0 <= i < specs.drop_last().len() && x == #[trigger] specs.drop_last()[i].file_name;
            assert(specs[i] == specs.drop_last()[i]);
        } else {
            let (i, j) = choose|i: int, j: int|
                0 <= i < specs.drop_last().len() && 0 <= j < specs.drop_last()[i].headings.len() && x
                    == section_id(specs.drop_last()[i].file_name, #[trigger] specs.drop_last()[i].headings[j].slug);
            assert(specs[i] == specs.drop_last()[i]);
            assert(specs[i].headings[j].slug == specs.drop_last()[i].headings[j].slug);
        }
    } else {
        let b = a - node_ids(prev).len();
        if b == 0 {
            assert(x == specs[i].file_name);
        } else {
            assert(x == section_id(specs[i].file_name, specs[i].headings[b - 1].slug));
        }
    }
}

proof fn lemma_dedup_from(ns: Seq<NodeView>, k: int)
    requires
        0 <= k < dedup_nodes(ns).len(),
    ensures
        ns.contains(dedup_nodes(ns)[k]),
    decreases ns.len(),
{
    let prev = dedup_nodes(ns.drop_last());
    if k < prev.len() {
        assert(dedup_nodes(ns)[k] == prev[k]);
        lemma_dedup_from(ns.drop_last(), k);
        let j = choose|j: int| 0 <= j < ns.drop_last().len() && ns.drop_last()[j] == prev[k];
        assert(ns[j] == ns.drop_last()[j]);
    } else {
        assert(dedup_nodes(ns)[k] == ns.last());
        assert(ns[ns.len() - 1] == ns.last());
    }
}

proof fn lemma_dedup_distinct(ns: Seq<NodeView>)
    ensures
        node_ids(dedup_nodes(ns)).no_duplicates(),
    decreases ns.len(),
{
    if ns.len() > 0 {
        lemma_dedup_distinct(ns.drop_last());
        let prev = dedup_nodes(ns.drop_last());
        if !node_ids(prev).contains(ns.last().id) {
            let all = node_ids(prev.push(ns.last()));
            assert(all =~= node_ids(prev).push(ns.last().id));
            assert forall|p: int, q: int| 0 <= p < all.len() && 0 <= q < all.len() && p != q implies all[p]
                != all[q] by {
                if q == node_ids(prev).len() {
                    assert(node_ids(prev).contains(all[p]));
                } else if p == node_ids(prev).len() {
                    assert(node_ids(prev).contains(all[q]));
                } else {
                    assert(all[p] == node_ids(prev)[p] && all[q] == node_ids(prev)[q]);
                }
            }
        }
    } else {
        assert(node_ids(dedup_nodes(ns)) =~= Seq::<Seq<char>>::empty());
    }
}

/// A node is a file node exactly when its id is its file name.
pub open spec fn kind_matches(n: NodeView) -> bool {
    (n.kind == GraphNodeKind::File) == (n.id == n.file_name)
}

proof fn lemma_candidates_kind(specs: Seq<SpecView>, k: int)
    requires
        0 <= k < node_candidates(specs).len(),
    ensures
        kind_matches(node_candidates(specs)[k]),
    decreases specs.len(),
{
    let prev = node_candidates(specs.drop_last());
    let mine = spec_nodes(specs.last());
    assert(node_candidates(specs) =~= prev + mine);
    if k < prev.len() {
        lemma_candidates_kind(specs.drop_last(), k);
    } else {
        let b = k - prev.len();
        let sp = specs.last();
        if b > 0 {
            let h = sp.headings[b - 1];
            assert(mine[b] == NodeView {
                id: section_id(sp.file_name, h.slug),
                kind: GraphNodeKind::Section,
                file_name: sp.file_name,
            });
            reveal_strlit("#");
            assert(section_id(sp.file_name, h.slug).len() == sp.file_name.len() + 1 + h.slug.len());
        } else {
            assert(mine[0] == NodeView { id: sp.file_name, kind: GraphNodeKind::File, file_name: sp.file_name });
        }
    }
}

/// The Output Contract of the parse graph: node ids are pairwise distinct;
/// they are exactly the spec file names and the section addresses
/// `file#slug` of their headings; a node is a file node exactly when its id
/// is its file name; and every edge starts and ends at a node.
pub proof fn lemma_parse_graph_shape(
    walk: Seq<DiagnosticView>,
    files: Seq<SpecFileInputView>,
    options: ParseOptions,
)
    ensures
        ({
            let r = parse_result_of(walk, files, options);
            &&& node_ids(r.nodes).no_duplicates()
            &&& forall|x: Seq<char>|
                node_ids(r.nodes).contains(x) <==> ((exists|i: int|
                    0 <= i < r.specs.len() && x == #[trigger] r.specs[i].file_name) || exists|i: int, j: int|
                    0 <= i < r.specs.len() && 0 <= j < r.specs[i].headings.len() && x == section_id(
                        r.specs[i].file_name,
                        #[trigger] r.specs[i].headings[j].slug,
                    ))
            &&& forall|k: int| 0 <= k < r.nodes.len() ==> kind_matches(#[trigger] r.nodes[k])
            &&& forall|k: int|
                0 <= k < r.edges.len() ==> node_ids(r.nodes).contains(#[trigger] r.edges[k].source)
                    && node_ids(r.nodes).contains(r.edges[k].target)
        }),
{
    let r = parse_result_of(walk, files, options);
    let specs = parsed_specs(files);
    let known = known_names(files);
    let cands = node_candidates(specs);
    lemma_dedup_distinct(cands);
    assert forall|x: Seq<char>|
        node_ids(r.nodes).contains(x) <==> ((exists|i: int|
            0 <= i < r.specs.len() && x == #[trigger] r.specs[i].file_name) || exists|i: int, j: int|
            0 <= i < r.specs.len() && 0 <= j < r.specs[i].headings.len() && x == section_id(
                r.specs[i].file_name,
                #[trigger] r.specs[i].headings[j].slug,
            )) by {
        lemma_dedup_ids(cands, x);
        if node_ids(cands).contains(x) {
            lemma_candidate_ids_only(specs, x);
        }
        if exists|i: int| 0 <= i < r.specs.len() && x == #[trigger] r.specs[i].file_name {
            let i = choose|i: int| 0 <= i < r.specs.len() && x == #[trigger] r.specs[i].file_name;
            lemma_candidate_ids(specs, i);
        }
        if exists|i: int, j: int|
            0 <= i < r.specs.len() && 0 <= j < r.specs[i].headings.len() && x == section_id(
                r.specs[i].file_name,
                #[trigger] r.specs[i].headings[j].slug,
            ) {
            let (i, j) = choose|i: int, j: int|
                0 <= i < r.specs.len() && 0 <= j < r.specs[i].headings.len() && x == section_id(
                    r.specs[i].file_name,
                    #[trigger] r.specs[i].headings[j].slug,
                );
            lemma_candidate_ids(specs, i);
        }
    }
    assert forall|k: int| 0 <= k < r.nodes.len() implies kind_matches(#[trigger] r.nodes[k]) by {
        lemma_dedup_from(cands, k);
        let q = choose|q: int| 0 <= q < cands.len() && cands[q] == r.nodes[k];
        lemma_candidates_kind(specs, q);
    }
    lemma_parse_edges_start_at_nodes(walk, files, options);
    let ce = contains_edges(specs);
    let rs = all_resolutions(specs, known, specs.len() as int);
    assert forall|k: int| 0 <= k < r.edges.len() implies node_ids(r.nodes).contains(#[trigger] r.edges[k].source)
        && node_ids(r.nodes).contains(r.edges[k].target) by {
        let tgt = r.edges[k].target;
        if k < ce.len() {
            assert(r.edges[k] == ce[k]);
            lemma_contains_targets(specs, k);
            let i = choose|i: int| 0 <= i < specs.len() && ce[k].target == #[trigger] specs[i].file_name;
            lemma_candidate_ids(specs, i);
        } else {
            assert(r.edges[k] == oks(rs)[k - ce.len()]);
            lemma_resolution_of_edge(specs, known, specs.len() as int, k - ce.len());
            let (i, j) = choose|i: int, j: int|
                0 <= i < specs.len() && 0 <= j < specs[i].specifies.len() && resolve_target(
                    specs,
                    known,
                    specs[i].file_name,
                    #[trigger] specs[i].specifies[j],
                ) == Ok::<EdgeView, DiagnosticView>(oks(rs)[k - ce.len()]);
            let t = specs[i].specifies[j];
            lemma_slugs_in_found(specs, t.file_name, t.heading_slug);
            let (a, b) = choose|a: int, b: int|
                0 <= a < specs.len() && 0 <= b < specs[a].headings.len() && specs[a].file_name == t.file_name
                    && (#[trigger] specs[a].headings[b]).slug == t.heading_slug;
            lemma_candidate_ids(specs, a);
            assert(tgt == section_id(specs[a].file_name, specs[a].headings[b].slug));
        }
        lemma_dedup_ids(cands, tgt);
    }
}

proof fn lemma_contains_targets(specs: Seq<SpecView>, k: int)
    requires
        0 <= k < contains_edges(specs).len(),
    ensures
        exists|i: int| 0 <= i < specs.len() && contains_edges(specs)[k].target == #[trigger] specs[i].file_name,
    decreases specs.len(),
{
    let prev = contains_edges(specs.drop_last());
    if k < prev.len() {
        lemma_contains_targets(specs.drop_last(), k);
        let i = choose|i: int| 0 <= i < specs.drop_last().len() && prev[k].target == #[trigger] specs.drop_last()[i].file_name;
        assert(specs[i] == specs.drop_last()[i]);
        assert(contains_edges(specs)[k] == prev[k]);
    } else {
        let i = specs.len() - 1;
        assert(contains_edges(specs)[k] == spec_contains(specs[i])[k - prev.len()]);
    }
}

// ---------------------------------------------------------------------------
// The orphan rule
// ---------------------------------------------------------------------------
/// The last spec named `file` has a heading whose slug is `slug`: a
/// `Specifies` target `file#slug` names an existing section.
pub open spec fn section_exists(specs: Seq<SpecView>, file: Seq<char>, slug: Seq<char>) -> bool {
    exists|j: int|
        0 <= j < specs.len() && #[trigger] specs[j].file_name == file && (forall|k: int|
            j < k < specs.len() ==> specs[k].file_name != file) && exists|h: int|
            0 <= h < specs[j].headings.len() && (#[trigger] specs[j].headings[h]).slug == slug
}

/// The headings looked up for a target file are those of the last spec of
/// that name.
pub proof fn lemma_slugs_in_iff_section(specs: Seq<SpecView>, file: Seq<char>, slug: Seq<char>)
    ensures
        slugs_in(specs, file).contains(slug) <==> section_exists(specs, file, slug),
    decreases specs.len(),
{
    if specs.len() == 0 {
        return;
    }
    let last = specs.len() - 1;
    let t = specs.drop_last();
    if specs[last].file_name == file {
        let hs = specs[last].headings;
        if slugs_in(specs, file).contains(slug) {
            let h = choose|h: int| 0 <= h < slugs_of(hs).len() && slugs_of(hs)[h] == slug;
            assert(specs[last].headings[h].slug == slug);
            assert(section_exists(specs, file, slug));
        }
        if section_exists(specs, file, slug) {
            let j = choose|j: int|
                0 <= j < specs.len() && #[trigger] specs[j].file_name == file && (forall|k: int|
                    j < k < specs.len() ==> specs[k].file_name != file) && exists|h: int|
                    0 <= h < specs[j].headings.len() && (#[trigger] specs[j].headings[h]).slug == slug;
            assert(j == last);
            let h = choose|h: int| 0 <= h < specs[j].headings.len() && (#[trigger] specs[j].headings[h]).slug == slug;
            assert(slugs_of(hs)[h] == slug);
        }
    } else {
        lemma_slugs_in_iff_section(t, file, slug);
        if section_exists(t, file, slug) {
            let j = choose|j: int|
                0 <= j < t.len() && #[trigger] t[j].file_name == file && (forall|k: int|
                    j < k < t.len() ==> t[k].file_name != file) && exists|h: int|
                    0 <= h < t[j].headings.len() && (#[trigger] t[j].headings[h]).slug == slug;
            assert(specs[j] == t[j]);
            assert forall|k: int| j < k < specs.len() implies specs[k].file_name != file by {
                if k < last {
                    assert(specs[k] == t[k]);
                }
            }
            let h = choose|h: int| 0 <= h < t[j].headings.len() && (#[trigger] t[j].headings[h]).slug == slug;
            assert(specs[j].headings[h].slug == slug);
        }
        if section_exists(specs, file, slug) {
            let j = choose|j: int|
                0 <= j < specs.len() && #[trigger] specs[j].file_name == file && (forall|k: int|
                    j < k < specs.len() ==> specs[k].file_name != file) && exists|h: int|
                    0 <= h < specs[j].headings.len() && (#[trigger] specs[j].headings[h]).slug == slug;
            assert(j < last);
            assert(t[j] == specs[j]);
            assert forall|k: int| j < k < t.len() implies t[k].file_name != file by {
                assert(t[k] == specs[k]);
            }
            let h = choose|h: int| 0 <= h < specs[j].headings.len() && (#[trigger] specs[j].headings[h]).slug == slug;
            assert(t[j].headings[h].slug == slug);
        }
    }
}

/// A spec that must name a parent section: not `spec-format.md`, of kind
/// feature, behavioural or interface, and not the root.
pub open spec fn must_specify(s: SpecView) -> bool {
    &&& s.file_name != "spec-format.md"@
    &&& (s.kind == Some(SpecKind::Feature) || s.kind == Some(SpecKind::Behavioural) || s.kind
        == Some(SpecKind::Interface))
    &&& !s.is_root
}

/// The orphan diagnostic of a file, at the severity the policy gives a
/// warning.
pub open spec fn orphan_diagnostic(file: Seq<char>, options: ParseOptions) -> DiagnosticView {
    DiagnosticView {
        severity: if options.strict || options.warnings_as_errors {
            DiagnosticSeverity::Error
        } else {
            DiagnosticSeverity::Warning
        },
        code: DiagnosticCode::OrphanSpec,
        message: msg_orphan(file),
        location: Some(LocationView { file_name: file, line: Some(1), column: Some(1) }),
    }
}

proof fn lemma_no_oks(rs: Seq<Result<EdgeView, DiagnosticView>>)
    requires
        forall|i: int| 0 <= i < rs.len() ==> (#[trigger] rs[i]) is Err,
    ensures
        oks(rs).len() == 0,
    decreases rs.len(),
{
    if rs.len() > 0 {
        let t = rs.drop_last();
        assert forall|i: int| 0 <= i < t.len() implies (#[trigger] t[i]) is Err by {
            assert(t[i] == rs[i]);
        }
        lemma_no_oks(t);
        assert(rs[rs.len() - 1] is Err);
    }
}

proof fn lemma_orphan_diags_keep(specs: Seq<SpecView>, known: Seq<Seq<char>>, i: int, k: int)
    requires
        0 <= i < k <= specs.len(),
        must_specify(specs[i]),
        oks(resolutions(specs, known, specs[i].file_name, specs[i].specifies)).len() == 0,
    ensures
        orphan_diags(specs, known, k).contains(
            diag(
                DiagnosticSeverity::Warning,
                DiagnosticCode::OrphanSpec,
                msg_orphan(specs[i].file_name),
                at_file_start(specs[i].file_name),
            ),
        ),
    decreases k,
{
    let d = diag(
        DiagnosticSeverity::Warning,
        DiagnosticCode::OrphanSpec,
        msg_orphan(specs[i].file_name),
        at_file_start(specs[i].file_name),
    );
    let prev = orphan_diags(specs, known, k - 1);
    if k - 1 == i {
        assert(spec_format_name() == "spec-format.md"@);
        assert(needs_parent(specs[i].kind));
        assert(orphan_diags(specs, known, k) == prev.push(d));
        assert(orphan_diags(specs, known, k)[prev.len() as int] == d);
    } else {
        lemma_orphan_diags_keep(specs, known, i, k - 1);
        let q = choose|q: int| 0 <= q < prev.len() && prev[q] == d;
        assert(orphan_diags(specs, known, k)[q] == d);
    }
}

/// The orphan rule: a spec that must name a parent section (not
/// `spec-format.md`, of kind feature, behavioural or interface, not the
/// root) and none of whose `Specifies` targets names an existing section
/// gets an `OrphanSpec` diagnostic at line 1, column 1 of its file; a
/// warning, or an error under the strict or warnings-as-errors policy.
pub proof fn lemma_orphan_reported(
    walk: Seq<DiagnosticView>,
    files: Seq<SpecFileInputView>,
    options: ParseOptions,
    i: int,
)
    requires
        0 <= i < parsed_specs(files).len(),
        must_specify(parsed_specs(files)[i]),
        forall|t: TargetView|
            #[trigger] parsed_specs(files)[i].specifies.contains(t) ==> !section_exists(
                parsed_specs(files),
                t.file_name,
                t.heading_slug,
            ),
    ensures
        parse_result_of(walk, files, options).diagnostics.contains(
            orphan_diagnostic(parsed_specs(files)[i].file_name, options),
        ),
{
    let known = known_names(files);
    let specs = parsed_specs(files);
    let s = specs[i];
    let rs = resolutions(specs, known, s.file_name, s.specifies);
    assert forall|q: int| 0 <= q < rs.len() implies (#[trigger] rs[q]) is Err by {
        let t = s.specifies[q];
        assert(s.specifies.contains(t));
        lemma_slugs_in_iff_section(specs, t.file_name, t.heading_slug);
        assert(rs[q] == resolve_target(specs, known, s.file_name, t));
    }
    lemma_no_oks(rs);
    lemma_orphan_diags_keep(specs, known, i, specs.len() as int);
    let nodes = dedup_nodes(node_candidates(specs));
    let all = all_resolutions(specs, known, specs.len() as int);
    let edges = contains_edges(specs) + oks(all);
    let head = walk + file_diags(outcomes(files), files.len() as int) + errs(all) + cycle_diags(
        cycles_of(nodes, edges),
    );
    let od = orphan_diags(specs, known, specs.len() as int);
    let ds = head + od;
    let d = diag(
        DiagnosticSeverity::Warning,
        DiagnosticCode::OrphanSpec,
        msg_orphan(s.file_name),
        at_file_start(s.file_name),
    );
    let q = choose|q: int| 0 <= q < od.len() && od[q] == d;
    assert(ds[head.len() + q] == d);
    let r = parse_result_of(walk, files, options);
    assert(r.diagnostics == with_policy(ds, options));
    assert(r.diagnostics[head.len() + q] == orphan_diagnostic(s.file_name, options));
}

/// No diagnostic of `ds` is an orphan diagnostic.
pub open spec fn orphan_free(ds: Seq<DiagnosticView>) -> bool {
    forall|i: int| 0 <= i < ds.len() ==> (#[trigger] ds[i]).code != DiagnosticCode::OrphanSpec
}

proof fn lemma_orphan_free_concat(a: Seq<DiagnosticView>, b: Seq<DiagnosticView>)
    requires
        orphan_free(a),
        orphan_free(b),
    ensures
        orphan_free(a + b),
{
    assert forall|i: int| 0 <= i < (a + b).len() implies (#[trigger] (a + b)[i]).code
        != DiagnosticCode::OrphanSpec by {
        if i < a.len() {
            assert((a + b)[i] == a[i]);
        } else {
            assert((a + b)[i] == b[i - a.len()]);
        }
    }
}

proof fn lemma_entry_diags_free(file: Seq<char>, entries: Seq<Option<Seq<char>>>)
    ensures
        orphan_free(entry_diags(file, entries)),
    decreases entries.len(),
{
    if entries.len() > 0 {
        lemma_entry_diags_free(file, entries.drop_last());
        let prev = entry_diags(file, entries.drop_last());
        match entry_outcome(file, entries.last()) {
            Ok(_) => {},
            Err(d) => {
                assert(d.code != DiagnosticCode::OrphanSpec);
                assert forall|i: int| 0 <= i < prev.push(d).len() implies (#[trigger] prev.push(
                    d,
                )[i]).code != DiagnosticCode::OrphanSpec by {
                    if i < prev.len() {
                        assert(prev.push(d)[i] == prev[i]);
                    }
                }
            },
        }
    }
}

proof fn lemma_crossref_free(
    file: Seq<char>,
    events: Seq<Option<Seq<char>>>,
    local: Seq<Seq<char>>,
    known: Seq<Seq<char>>,
)
    ensures
        orphan_free(crossref_diags(file, events, local, known)),
    decreases events.len(),
{
    if events.len() > 0 {
        lemma_crossref_free(file, events.drop_last(), local, known);
        match events.last() {
            Some(dest) => {
                let l = link_diags(file, dest, local, known);
                assert(orphan_free(l));
                lemma_orphan_free_concat(crossref_diags(file, events.drop_last(), local, known), l);
            },
            None => {},
        }
    }
}

proof fn lemma_body_free(
    file: Seq<char>,
    body: Seq<char>,
    fm: Option<FrontMatterView>,
    fm_diags: Seq<DiagnosticView>,
    known: Seq<Seq<char>>,
)
    requires
        orphan_free(fm_diags),
    ensures
        orphan_free(body_outcome(file, body, fm, fm_diags, known).diagnostics),
{
    let headings = headings_of(body);
    let xref = crossref_diags(file, markdown_link_events(body), slugs_of(headings), known);
    lemma_crossref_free(file, markdown_link_events(body), slugs_of(headings), known);
    lemma_orphan_free_concat(fm_diags, xref);
    match fm {
        None => {},
        Some(f) => {
            let kd = kind_of(file, f.kind).1;
            let rd = root_of(file, f.root).1;
            let sd = specifies_of(file, f.specifies).1;
            match f.specifies {
                Some(SpecifiesView::List(entries)) => lemma_entry_diags_free(file, entries),
                _ => {},
            }
            assert(orphan_free(kd));
            assert(orphan_free(rd));
            assert(orphan_free(sd));
            lemma_orphan_free_concat(fm_diags + xref, kd);
            lemma_orphan_free_concat(fm_diags + xref + kd, sd);
            lemma_orphan_free_concat(fm_diags + xref + kd + sd, rd);
        },
    }
}

proof fn lemma_file_outcome_free(input: SpecFileInputView, known: Seq<Seq<char>>)
    ensures
        orphan_free(file_outcome(input, known).diagnostics),
{
    let file = input.file_name;
    match input.content {
        Err(e) => {},
        Ok(content) => match split_front_matter(content) {
            Split::Missing => {
                let d = seq![
                    diag(
                        DiagnosticSeverity::Error,
                        DiagnosticCode::InvalidFrontMatter,
                        msg_front_matter_missing(),
                        at_file_start(file),
                    ),
                ];
                assert(orphan_free(d));
                lemma_body_free(file, content, None, d, known);
            },
            Split::Unclosed => {
                let d = seq![
                    diag(
                        DiagnosticSeverity::Error,
                        DiagnosticCode::InvalidFrontMatter,
                        msg_front_matter_unclosed(),
                        at_file_start(file),
                    ),
                ];
                assert(orphan_free(d));
                lemma_body_free(file, content, None, d, known);
            },
            Split::Closed { body, .. } => match input.front_matter {
                Err(e) => {
                    let d = seq![
                        diag(
                            DiagnosticSeverity::Error,
                            DiagnosticCode::InvalidFrontMatter,
                            msg_front_matter_yaml(file, e),
                            at_file_start(file),
                        ),
                    ];
                    assert(orphan_free(d));
                    lemma_body_free(file, body, Some(empty_front_matter()), d, known);
                },
                Ok(f) => {
                    assert(orphan_free(Seq::<DiagnosticView>::empty()));
                    lemma_body_free(file, body, Some(f), Seq::empty(), known);
                },
            },
        },
    }
}

proof fn lemma_file_diags_free(files: Seq<SpecFileInputView>, k: int)
    requires
        0 <= k <= files.len(),
    ensures
        orphan_free(file_diags(outcomes(files), k)),
    decreases k,
{
    if k > 0 {
        lemma_file_diags_free(files, k - 1);
        lemma_file_outcome_free(files[k - 1], known_names(files));
        assert(outcomes(files)[k - 1] == file_outcome(files[k - 1], known_names(files)));
        lemma_orphan_free_concat(file_diags(outcomes(files), k - 1), outcomes(files)[k - 1].diagnostics);
    }
}

pub open spec fn err_not_orphan(r: Result<EdgeView, DiagnosticView>) -> bool {
    match r {
        Err(d) => d.code != DiagnosticCode::OrphanSpec,
        Ok(_) => true,
    }
}

proof fn lemma_errs_free(rs: Seq<Result<EdgeView, DiagnosticView>>)
    requires
        forall|i: int| 0 <= i < rs.len() ==> err_not_orphan(#[trigger] rs[i]),
    ensures
        orphan_free(errs(rs)),
    decreases rs.len(),
{
    if rs.len() > 0 {
        let t = rs.drop_last();
        assert forall|i: int| 0 <= i < t.len() implies err_not_orphan(#[trigger] t[i]) by {
            assert(t[i] == rs[i]);
        }
        lemma_errs_free(t);
        let prev = errs(t);
        match rs.last() {
            Ok(_) => {},
            Err(d) => {
                assert(rs[rs.len() - 1] == rs.last());
                assert forall|i: int| 0 <= i < prev.push(d).len() implies (#[trigger] prev.push(
                    d,
                )[i]).code != DiagnosticCode::OrphanSpec by {
                    if i < prev.len() {
                        assert(prev.push(d)[i] == prev[i]);
                    }
                }
            },
        }
    }
}

proof fn lemma_resolutions_free(specs: Seq<SpecView>, known: Seq<Seq<char>>, k: int)
    requires
        0 <= k <= specs.len(),
    ensures
        forall|i: int|
            0 <= i < all_resolutions(specs, known, k).len() ==> err_not_orphan(#[trigger] all_resolutions(specs, known, k)[i]),
    decreases k,
{
    if k > 0 {
        lemma_resolutions_free(specs, known, k - 1);
        let a = all_resolutions(specs, known, k - 1);
        let b = resolutions(specs, known, specs[k - 1].file_name, specs[k - 1].specifies);
        assert forall|i: int| 0 <= i < (a + b).len() implies err_not_orphan(#[trigger] (a + b)[i]) by {
            if i < a.len() {
                assert((a + b)[i] == a[i]);
            } else {
                assert((a + b)[i] == b[i - a.len()]);
            }
        }
    }
}

proof fn lemma_oks_empty(rs: Seq<Result<EdgeView, DiagnosticView>>)
    requires
        oks(rs).len() == 0,
    ensures
        forall|i: int| 0 <= i < rs.len() ==> (#[trigger] rs[i]) is Err,
    decreases rs.len(),
{
    if rs.len() > 0 {
        let t = rs.drop_last();
        assert(rs.last() is Err);
        lemma_oks_empty(t);
        assert forall|i: int| 0 <= i < rs.len() implies (#[trigger] rs[i]) is Err by {
            if i < t.len() {
                assert(rs[i] == t[i]);
            }
        }
    }
}

/// A spec the orphan rule reports: it must name a parent section and none
/// of its targets names an existing section.
pub open spec fn is_orphan(specs: Seq<SpecView>, s: SpecView) -> bool {
    &&& must_specify(s)
    &&& forall|q: int|
        0 <= q < s.specifies.len() ==> !section_exists(
            specs,
            (#[trigger] s.specifies[q]).file_name,
            s.specifies[q].heading_slug,
        )
}

proof fn lemma_orphan_diags_from(specs: Seq<SpecView>, files: Seq<SpecFileInputView>, k: int)
    requires
        specs == parsed_specs(files),
        0 <= k <= specs.len(),
    ensures
        forall|q: int|
            0 <= q < orphan_diags(specs, known_names(files), k).len() ==> exists|i: int|
                0 <= i < k && is_orphan(specs, specs[i]) && #[trigger] orphan_diags(
                    specs,
                    known_names(files),
                    k,
                )[q] == diag(
                    DiagnosticSeverity::Warning,
                    DiagnosticCode::OrphanSpec,
                    msg_orphan(specs[i].file_name),
                    at_file_start(specs[i].file_name),
                ),
    decreases k,
{
    let known = known_names(files);
    if k > 0 {
        lemma_orphan_diags_from(specs, files, k - 1);
        let prev = orphan_diags(specs, known, k - 1);
        let od = orphan_diags(specs, known, k);
        let s = specs[k - 1];
        assert forall|q: int| 0 <= q < od.len() implies exists|i: int|
            0 <= i < k && is_orphan(specs, specs[i]) && #[trigger] od[q] == diag(
                DiagnosticSeverity::Warning,
                DiagnosticCode::OrphanSpec,
                msg_orphan(specs[i].file_name),
                at_file_start(specs[i].file_name),
            ) by {
            if q < prev.len() {
                assert(od[q] == prev[q]);
            } else {
                let rs = resolutions(specs, known, s.file_name, s.specifies);
                lemma_oks_empty(rs);
                assert(spec_format_name() == "spec-format.md"@);
                assert forall|p: int| 0 <= p < s.specifies.len() implies !section_exists(
                    specs,
                    (#[trigger] s.specifies[p]).file_name,
                    s.specifies[p].heading_slug,
                ) by {
                    let t = s.specifies[p];
                    assert(rs[p] == resolve_target(specs, known, s.file_name, t));
                    lemma_slugs_in_iff_section(specs, t.file_name, t.heading_slug);
                    if section_exists(specs, t.file_name, t.heading_slug) {
                        let j = choose|j: int|
                            0 <= j < specs.len() && #[trigger] specs[j].file_name == t.file_name
                                && (forall|m: int| j < m < specs.len() ==> specs[m].file_name
                                != t.file_name) && exists|h: int|
                                0 <= h < specs[j].headings.len() && (
                                #[trigger] specs[j].headings[h]).slug == t.heading_slug;
                        assert(known[j] == t.file_name);
                    }
                }
                assert(od[q] == od[prev.len() as int]);
            }
        }
    }
}

/// The orphan rule, the other way: every `OrphanSpec` diagnostic of a parse
/// whose walk reported none is the one of a spec that must name a parent
/// section and none of whose targets names an existing section.
pub proof fn lemma_orphan_only_for_orphans(
    walk: Seq<DiagnosticView>,
    files: Seq<SpecFileInputView>,
    options: ParseOptions,
)
    requires
        orphan_free(walk),
    ensures
        forall|k: int|
            0 <= k < parse_result_of(walk, files, options).diagnostics.len() && (
            #[trigger] parse_result_of(walk, files, options).diagnostics[k]).code
                == DiagnosticCode::OrphanSpec ==> exists|i: int|
                0 <= i < parsed_specs(files).len() && is_orphan(
                    parsed_specs(files),
                    parsed_specs(files)[i],
                ) && parse_result_of(walk, files, options).diagnostics[k] == orphan_diagnostic(
                    parsed_specs(files)[i].file_name,
                    options,
                ),
{
    let known = known_names(files);
    let specs = parsed_specs(files);
    let nodes = dedup_nodes(node_candidates(specs));
    let all = all_resolutions(specs, known, specs.len() as int);
    let edges = contains_edges(specs) + oks(all);
    let fd = file_diags(outcomes(files), files.len() as int);
    let cd = cycle_diags(cycles_of(nodes, edges));
    let head = walk + fd + errs(all) + cd;
    let od = orphan_diags(specs, known, specs.len() as int);
    let ds = head + od;
    lemma_file_diags_free(files, files.len() as int);
    lemma_resolutions_free(specs, known, specs.len() as int);
    lemma_errs_free(all);
    assert(orphan_free(cd));
    lemma_orphan_free_concat(walk, fd);
    lemma_orphan_free_concat(walk + fd, errs(all));
    lemma_orphan_free_concat(walk + fd + errs(all), cd);
    lemma_orphan_diags_from(specs, files, specs.len() as int);
    let r = parse_result_of(walk, files, options);
    assert(r.diagnostics == with_policy(ds, options));
    assert forall|k: int|
        0 <= k < r.diagnostics.len() && (#[trigger] r.diagnostics[k]).code == DiagnosticCode::OrphanSpec
        implies exists|i: int|
        0 <= i < specs.len() && is_orphan(specs, specs[i]) && r.diagnostics[k] == orphan_diagnostic(
            specs[i].file_name,
            options,
        ) by {
        assert(r.diagnostics[k].code == ds[k].code);
        if k < head.len() {
            assert(ds[k] == head[k]);
        } else {
            let q = k - head.len();
            assert(ds[k] == od[q]);
            let i = choose|i: int|
                0 <= i < specs.len() && is_orphan(specs, specs[i]) && #[trigger] od[q] == diag(
                    DiagnosticSeverity::Warning,
                    DiagnosticCode::OrphanSpec,
                    msg_orphan(specs[i].file_name),
                    at_file_start(specs[i].file_name),
                );
            assert(r.diagnostics[k] == orphan_diagnostic(specs[i].file_name, options));
        }
    }
}

/// The files have pairwise distinct names.
pub open spec fn distinct_names(files: Seq<SpecFileInputView>) -> bool {
    forall|a: int, b: int|
        0 <= a < b < files.len() ==> (#[trigger] files[a]).file_name != (#[trigger] files[b]).file_name
}

proof fn lemma_orphan_diags_distinct(specs: Seq<SpecView>, files: Seq<SpecFileInputView>, k: int)
    requires
        specs == parsed_specs(files),
        distinct_names(files),
        0 <= k <= specs.len(),
    ensures
        forall|p: int, q: int|
            0 <= p < q < orphan_diags(specs, known_names(files), k).len() ==> (
            #[trigger] orphan_diags(specs, known_names(files), k)[p]).location != (
            #[trigger] orphan_diags(specs, known_names(files), k)[q]).location,
    decreases k,
{
    let known = known_names(files);
    if k > 0 {
        lemma_orphan_diags_distinct(specs, files, k - 1);
        lemma_orphan_diags_from(specs, files, k - 1);
        let prev = orphan_diags(specs, known, k - 1);
        let od = orphan_diags(specs, known, k);
        assert forall|p: int, q: int| 0 <= p < q < od.len() implies (#[trigger] od[p]).location != (
        #[trigger] od[q]).location by {
            if q < prev.len() {
                assert(od[p] == prev[p]);
                assert(od[q] == prev[q]);
            } else {
                assert(od[p] == prev[p]);
                let i = choose|i: int|
                    0 <= i < k - 1 && is_orphan(specs, specs[i]) && #[trigger] prev[p] == diag(
                        DiagnosticSeverity::Warning,
                        DiagnosticCode::OrphanSpec,
                        msg_orphan(specs[i].file_name),
                        at_file_start(specs[i].file_name),
                    );
                assert(files[i].file_name != files[k - 1].file_name);
                assert(od[q].location == at_file_start(specs[k - 1].file_name));
            }
        }
    }
}

/// With distinct file names, no two `OrphanSpec` diagnostics of a parse
/// whose walk reported none are at the same place: each orphan is
/// reported once.
pub proof fn lemma_orphan_reported_once(
    walk: Seq<DiagnosticView>,
    files: Seq<SpecFileInputView>,
    options: ParseOptions,
)
    requires
        orphan_free(walk),
        distinct_names(files),
    ensures
        forall|p: int, q: int|
            0 <= p < q < parse_result_of(walk, files, options).diagnostics.len() && (
            #[trigger] parse_result_of(walk, files, options).diagnostics[p]).code
                == DiagnosticCode::OrphanSpec && (#[trigger] parse_result_of(
                walk,
                files,
                options,
            ).diagnostics[q]).code == DiagnosticCode::OrphanSpec ==> parse_result_of(
                walk,
                files,
                options,
            ).diagnostics[p].location != parse_result_of(walk, files, options).diagnostics[q].location,
{
    let known = known_names(files);
    let specs = parsed_specs(files);
    let nodes = dedup_nodes(node_candidates(specs));
    let all = all_resolutions(specs, known, specs.len() as int);
    let edges = contains_edges(specs) + oks(all);
    let fd = file_diags(outcomes(files), files.len() as int);
    let cd = cycle_diags(cycles_of(nodes, edges));
    let head = walk + fd + errs(all) + cd;
    let od = orphan_diags(specs, known, specs.len() as int);
    let ds = head + od;
    lemma_file_diags_free(files, files.len() as int);
    lemma_resolutions_free(specs, known, specs.len() as int);
    lemma_errs_free(all);
    assert(orphan_free(cd));
    lemma_orphan_free_concat(walk, fd);
    lemma_orphan_free_concat(walk + fd, errs(all));
    lemma_orphan_free_concat(walk + fd + errs(all), cd);
    lemma_orphan_diags_distinct(specs, files, specs.len() as int);
    let r = parse_result_of(walk, files, options);
    assert(r.diagnostics == with_policy(ds, options));
    assert forall|p: int, q: int|
        0 <= p < q < r.diagnostics.len() && (#[trigger] r.diagnostics[p]).code
            == DiagnosticCode::OrphanSpec && (#[trigger] r.diagnostics[q]).code
            == DiagnosticCode::OrphanSpec implies r.diagnostics[p].location
        != r.diagnostics[q].location by {
        assert(r.diagnostics[p].code == ds[p].code);
        assert(r.diagnostics[q].code == ds[q].code);
        assert(r.diagnostics[p].location == ds[p].location);
        assert(r.diagnostics[q].location == ds[q].location);
        if p < head.len() {
            assert(ds[p] == head[p]);
        } else if q < head.len() {
            assert(ds[q] == head[q]);
        } else {
            assert(ds[p] == od[p - head.len()]);
            assert(ds[q] == od[q - head.len()]);
        }
    }
}

} // verus!
