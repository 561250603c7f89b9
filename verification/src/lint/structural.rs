//! Deterministic lint checks over a parsed corpus.
use vstd::prelude::*;
use crate::lint::scope::{diag_in_scope, diagnostic_in_scope};
use crate::lint::types::{
    IssueView, LintCategory, LintIssue, LintSeverity, clone_location, issues_view,
};
use crate::parse::corpus::{
    lemma_slugs_in_iff_section, must_specify, needs_parent, section_exists, slugs_in, spec_format_name,
};
use crate::parse::file::{cat3, contains_name, heading_slugs};
use crate::parse::types::{
    Diagnostic, DiagnosticCode, DiagnosticSeverity, DiagnosticView, LocationView, ParsedSpec,
    SpecKind, SpecView, TargetView, at_file_start, diags_view, loc_file_start, specs_view,
    strings_view,
};
use crate::text::{char_upper, push_char, push_str, str_chars, upper};

verus! {

/// The name `{:?}` prints for a diagnostic code.
pub open spec fn code_debug_name(code: DiagnosticCode) -> Seq<char> {
    match code {
        DiagnosticCode::IoReadFailure => "IoReadFailure"@,
        DiagnosticCode::InvalidFrontMatter => "InvalidFrontMatter"@,
        DiagnosticCode::InvalidKind => "InvalidKind"@,
        DiagnosticCode::InvalidRoot => "InvalidRoot"@,
        DiagnosticCode::InvalidSpecifies => "InvalidSpecifies"@,
        DiagnosticCode::InvalidSpecifiesTarget => "InvalidSpecifiesTarget"@,
        DiagnosticCode::NestedSpecFile => "NestedSpecFile"@,
        DiagnosticCode::InvalidCrossReference => "InvalidCrossReference"@,
        DiagnosticCode::BrokenTargetFile => "BrokenTargetFile"@,
        DiagnosticCode::BrokenTargetHeading => "BrokenTargetHeading"@,
        DiagnosticCode::BrokenCrossReferenceFile => "BrokenCrossReferenceFile"@,
        DiagnosticCode::BrokenCrossReferenceHeading => "BrokenCrossReferenceHeading"@,
        DiagnosticCode::CycleDetected => "CycleDetected"@,
        DiagnosticCode::OrphanSpec => "OrphanSpec"@,
    }
}

pub fn code_debug_name_str(code: DiagnosticCode) -> (r: &'static str)
    ensures
        r@ == code_debug_name(code),
{
    match code {
        DiagnosticCode::IoReadFailure => "IoReadFailure",
        DiagnosticCode::InvalidFrontMatter => "InvalidFrontMatter",
        DiagnosticCode::InvalidKind => "InvalidKind",
        DiagnosticCode::InvalidRoot => "InvalidRoot",
        DiagnosticCode::InvalidSpecifies => "InvalidSpecifies",
        DiagnosticCode::InvalidSpecifiesTarget => "InvalidSpecifiesTarget",
        DiagnosticCode::NestedSpecFile => "NestedSpecFile",
        DiagnosticCode::InvalidCrossReference => "InvalidCrossReference",
        DiagnosticCode::BrokenTargetFile => "BrokenTargetFile",
        DiagnosticCode::BrokenTargetHeading => "BrokenTargetHeading",
        DiagnosticCode::BrokenCrossReferenceFile => "BrokenCrossReferenceFile",
        DiagnosticCode::BrokenCrossReferenceHeading => "BrokenCrossReferenceHeading",
        DiagnosticCode::CycleDetected => "CycleDetected",
        DiagnosticCode::OrphanSpec => "OrphanSpec",
    }
}

pub open spec fn upper_seq(s: Seq<char>) -> Seq<char> {
    s.map_values(|c: char| upper(c))
}

/// Appends `s` in ASCII uppercase.
pub fn push_upper(out: &mut String, s: &str)
    ensures
        final(out)@ == old(out)@ + upper_seq(s@),
{
    let cs = str_chars(s);
    let mut i: usize = 0;
    while i < cs.len()
        invariant
            i <= cs.len(),
            cs@ == s@,
            out@ == old(out)@ + upper_seq(cs@.take(i as int)),
        decreases cs.len() - i,
    {
        push_char(out, char_upper(cs[i]));
        assert(upper_seq(cs@.take(i + 1)) =~= upper_seq(cs@.take(i as int)).push(upper(cs@[i as int])));
        i = i + 1;
    }
    assert(cs@.take(cs.len() as int) =~= cs@);
}

/// The lint code of a parser diagnostic: `STRUCT_` and the code's name in
/// uppercase.
pub open spec fn struct_code(code: DiagnosticCode) -> Seq<char> {
    "STRUCT_"@ + upper_seq(code_debug_name(code))
}

/// `parser_code_is_graph_integrity`: the parser codes the linter reports.
pub open spec fn is_graph_integrity(code: DiagnosticCode) -> bool {
    !(code == DiagnosticCode::NestedSpecFile || code == DiagnosticCode::OrphanSpec)
}

pub fn parser_code_is_graph_integrity(code: DiagnosticCode) -> (r: bool)
    ensures
        r == is_graph_integrity(code),
{
    match code {
        DiagnosticCode::IoReadFailure | DiagnosticCode::InvalidFrontMatter
        | DiagnosticCode::InvalidKind | DiagnosticCode::InvalidRoot
        | DiagnosticCode::InvalidSpecifies | DiagnosticCode::InvalidSpecifiesTarget
        | DiagnosticCode::InvalidCrossReference | DiagnosticCode::BrokenTargetFile
        | DiagnosticCode::BrokenTargetHeading | DiagnosticCode::BrokenCrossReferenceFile
        | DiagnosticCode::BrokenCrossReferenceHeading | DiagnosticCode::CycleDetected => true,
        DiagnosticCode::NestedSpecFile | DiagnosticCode::OrphanSpec => false,
    }
}

pub open spec fn lint_severity(s: DiagnosticSeverity) -> LintSeverity {
    match s {
        DiagnosticSeverity::Warning => LintSeverity::Warning,
        DiagnosticSeverity::Error => LintSeverity::Error,
    }
}

pub fn diagnostic_severity_to_lint(s: DiagnosticSeverity) -> (r: LintSeverity)
    ensures
        r == lint_severity(s),
{
    match s {
        DiagnosticSeverity::Warning => LintSeverity::Warning,
        DiagnosticSeverity::Error => LintSeverity::Error,
    }
}

/// The structural issue a parser diagnostic becomes.
pub open spec fn diag_issue(d: DiagnosticView) -> IssueView {
    IssueView {
        severity: lint_severity(d.severity),
        category: LintCategory::Structure,
        code: struct_code(d.code),
        message: d.message,
        location: d.location,
        confidence: None,
        evidence: Seq::empty(),
    }
}

/// The issues of the graph-integrity diagnostics in scope, in order.
pub open spec fn mapped_diagnostics(ds: Seq<DiagnosticView>, scope: Seq<Seq<char>>) -> Seq<
    IssueView,
>
    decreases ds.len(),
{
    if ds.len() == 0 {
        Seq::empty()
    } else {
        let prev = mapped_diagnostics(ds.drop_last(), scope);
        if is_graph_integrity(ds.last().code) && diag_in_scope(ds.last(), scope) {
            prev.push(diag_issue(ds.last()))
        } else {
            prev
        }
    }
}

/// `map_parser_diagnostics`.
pub fn map_parser_diagnostics(diagnostics: &Vec<Diagnostic>, scope: &Vec<String>) -> (r: Vec<
    LintIssue,
>)
    ensures
        issues_view(r@) == mapped_diagnostics(diags_view(diagnostics@), strings_view(scope@)),
{
    let ghost dv = diags_view(diagnostics@);
    let mut out: Vec<LintIssue> = Vec::new();
    let mut i: usize = 0;
    while i < diagnostics.len()
        invariant
            i <= diagnostics.len(),
            dv == diags_view(diagnostics@),
            issues_view(out@) == mapped_diagnostics(dv.take(i as int), strings_view(scope@)),
        decreases diagnostics.len() - i,
    {
        let d = &diagnostics[i];
        assert(dv.take(i + 1).drop_last() =~= dv.take(i as int));
        assert(dv.take(i + 1).last() == d@);
        if parser_code_is_graph_integrity(d.code) && diagnostic_in_scope(d, scope) {
            let mut code = String::new();
            push_str(&mut code, "STRUCT_");
            push_upper(&mut code, code_debug_name_str(d.code));
            assert(code@ =~= struct_code(d.code));
            let issue = LintIssue {
                severity: diagnostic_severity_to_lint(d.severity),
                category: LintCategory::Structure,
                code,
                message: d.message.clone(),
                location: clone_location(&d.location),
                confidence: None,
                evidence: Vec::new(),
            };
            assert(issue@.evidence =~= Seq::<Seq<char>>::empty());
            assert(issue@ == diag_issue(d@));
            let ghost prev = issues_view(out@);
            out.push(issue);
            assert(issues_view(out@) =~= prev.push(issue@));
        }
        i = i + 1;
    }
    assert(dv.take(diagnostics.len() as int) =~= dv);
    out
}

// ---------------------------------------------------------------------------
// Policy checks
// ---------------------------------------------------------------------------
pub open spec fn msg_root_multiple(file: Seq<char>) -> Seq<char> {
    "Declare Root: true in at most one spec; duplicate root in '"@ + file + "'."@
}

pub open spec fn msg_root_kind(file: Seq<char>) -> Seq<char> {
    "Use Root: true only on Kind: feature specs in '"@ + file + "'."@
}

pub open spec fn msg_missing_heading(file: Seq<char>) -> Seq<char> {
    "Add at least one markdown heading to provide required description structure in '"@ + file
        + "'."@
}

pub open spec fn msg_orphan_issue(file: Seq<char>) -> Seq<char> {
    "Add at least one valid Specifies target for '"@ + file
        + "', or change Kind if it should float."@
}

/// A structural policy issue at the head of a file.
pub open spec fn policy_issue(
    severity: LintSeverity,
    code: Seq<char>,
    message: Seq<char>,
    file: Seq<char>,
) -> IssueView {
    IssueView {
        severity,
        category: LintCategory::Structure,
        code,
        message,
        location: at_file_start(file),
        confidence: None,
        evidence: Seq::empty(),
    }
}

/// The specs in scope, in order.
pub open spec fn scoped(specs: Seq<SpecView>, scope: Seq<Seq<char>>) -> Seq<SpecView>
    decreases specs.len(),
{
    if specs.len() == 0 {
        Seq::empty()
    } else {
        let prev = scoped(specs.drop_last(), scope);
        if scope.contains(specs.last().file_name) {
            prev.push(specs.last())
        } else {
            prev
        }
    }
}

/// The names of the specs in scope, in spec order: the documents that the
/// semantic checks read.
pub fn scoped_file_names(specs: &Vec<ParsedSpec>, scope: &Vec<String>) -> (r: Vec<String>)
    ensures
        strings_view(r@) == scoped(specs_view(specs@), strings_view(scope@)).map_values(
            |s: SpecView| s.file_name,
        ),
{
    let ghost sv = specs_view(specs@);
    let ghost sc = strings_view(scope@);
    let mut out: Vec<String> = Vec::new();
    let mut i: usize = 0;
    while i < specs.len()
        invariant
            i <= specs.len(),
            sv == specs_view(specs@),
            sc == strings_view(scope@),
            strings_view(out@) == scoped(sv.take(i as int), sc).map_values(|s: SpecView| s.file_name),
        decreases specs.len() - i,
    {
        assert(sv.take(i + 1).drop_last() =~= sv.take(i as int));
        assert(sv.take(i + 1).last() == sv[i as int]);
        let ghost prev = strings_view(out@);
        if contains_name(scope, specs[i].file_name.as_str()) {
            out.push(specs[i].file_name.clone());
            assert(strings_view(out@) =~= prev.push(sv[i as int].file_name));
            assert(scoped(sv.take(i + 1), sc).map_values(|s: SpecView| s.file_name) =~= scoped(
                sv.take(i as int),
                sc,
            ).map_values(|s: SpecView| s.file_name).push(sv[i as int].file_name));
        }
        i = i + 1;
    }
    assert(sv.take(specs.len() as int) =~= sv);
    out
}

/// The root specs among `specs`, in order.
pub open spec fn roots(specs: Seq<SpecView>) -> Seq<SpecView>
    decreases specs.len(),
{
    if specs.len() == 0 {
        Seq::empty()
    } else {
        let prev = roots(specs.drop_last());
        if specs.last().is_root {
            prev.push(specs.last())
        } else {
            prev
        }
    }
}

/// A target is valid when its file is in scope and the scoped spec of that
/// name (the last one, in `lookup`) has a heading with the target's slug.
pub open spec fn valid_target(t: TargetView, scope: Seq<Seq<char>>, lookup: Seq<SpecView>) -> bool {
    scope.contains(t.file_name) && slugs_in(lookup, t.file_name).contains(t.heading_slug)
}

/// Number of valid targets.
pub open spec fn valid_targets(ts: Seq<TargetView>, scope: Seq<Seq<char>>, lookup: Seq<SpecView>) -> nat
    decreases ts.len(),
{
    if ts.len() == 0 {
        0
    } else {
        valid_targets(ts.drop_last(), scope, lookup) + if valid_target(ts.last(), scope, lookup) {
            1nat
        } else {
            0nat
        }
    }
}

/// The valid target count recorded for a file name: that of the last
/// scoped spec with the name.
pub open spec fn outgoing_of(
    ss: Seq<SpecView>,
    scope: Seq<Seq<char>>,
    file: Seq<char>,
    lookup: Seq<SpecView>,
) -> nat
    decreases ss.len(),
{
    if ss.len() == 0 {
        0
    } else if ss.last().file_name == file {
        valid_targets(ss.last().specifies, scope, lookup)
    } else {
        outgoing_of(ss.drop_last(), scope, file, lookup)
    }
}

pub open spec fn root_multiple_issues(rs: Seq<SpecView>) -> Seq<IssueView> {
    if rs.len() > 1 {
        rs.map_values(
            |s: SpecView|
                policy_issue(
                    LintSeverity::Error,
                    "STRUCT_ROOT_MULTIPLE"@,
                    msg_root_multiple(s.file_name),
                    s.file_name,
                ),
        )
    } else {
        Seq::empty()
    }
}

pub open spec fn root_kind_issues(rs: Seq<SpecView>) -> Seq<IssueView>
    decreases rs.len(),
{
    if rs.len() == 0 {
        Seq::empty()
    } else {
        let prev = root_kind_issues(rs.drop_last());
        if rs.last().kind != Some(SpecKind::Feature) {
            prev.push(
                policy_issue(
                    LintSeverity::Error,
                    "STRUCT_ROOT_KIND"@,
                    msg_root_kind(rs.last().file_name),
                    rs.last().file_name,
                ),
            )
        } else {
            prev
        }
    }
}

/// Issues of one scoped spec: a missing heading, then orphan status.
pub open spec fn spec_issues(s: SpecView, all: Seq<SpecView>, scope: Seq<Seq<char>>) -> Seq<
    IssueView,
> {
    let heading = if s.headings.len() == 0 {
        seq![
            policy_issue(
                LintSeverity::Error,
                "STRUCT_MISSING_HEADING"@,
                msg_missing_heading(s.file_name),
                s.file_name,
            ),
        ]
    } else {
        Seq::empty()
    };
    let orphan = if s.file_name != spec_format_name() && needs_parent(s.kind) && !s.is_root
        && outgoing_of(all, scope, s.file_name, all) == 0 {
        seq![
            policy_issue(
                LintSeverity::Warning,
                "STRUCT_ORPHAN_SPEC"@,
                msg_orphan_issue(s.file_name),
                s.file_name,
            ),
        ]
    } else {
        Seq::empty()
    };
    heading + orphan
}

pub open spec fn per_spec_issues(
    ss: Seq<SpecView>,
    all: Seq<SpecView>,
    scope: Seq<Seq<char>>,
) -> Seq<IssueView>
    decreases ss.len(),
{
    if ss.len() == 0 {
        Seq::empty()
    } else {
        per_spec_issues(ss.drop_last(), all, scope) + spec_issues(ss.last(), all, scope)
    }
}

/// `policy_checks`: root, heading and orphan policy over the specs in scope.
pub open spec fn policy_issues(specs: Seq<SpecView>, scope: Seq<Seq<char>>) -> Seq<IssueView> {
    let ss = scoped(specs, scope);
    let rs = roots(ss);
    root_multiple_issues(rs) + root_kind_issues(rs) + per_spec_issues(ss, ss, scope)
}

fn make_policy_issue(
    severity: LintSeverity,
    code: &str,
    message: String,
    file: &str,
) -> (r: LintIssue)
    ensures
        r@ == policy_issue(severity, code@, message@, file@),
{
    let i = LintIssue {
        severity,
        category: LintCategory::Structure,
        code: crate::text::owned(code),
        message,
        location: loc_file_start(file),
        confidence: None,
        evidence: Vec::new(),
    };
    assert(i@.evidence =~= Seq::<Seq<char>>::empty());
    i
}

/// Whether the last scoped spec named `file` has a heading with `slug`.
fn scoped_has_heading(
    specs: &Vec<ParsedSpec>,
    scoped_idx: &Vec<usize>,
    file: &str,
    slug: &str,
    Ghost(ss): Ghost<Seq<SpecView>>,
) -> (r: bool)
    requires
        scoped_idx.len() == ss.len(),
        forall|p: int|
            0 <= p < scoped_idx.len() ==> #[trigger] scoped_idx@[p] < specs.len() && specs_view(specs@)[scoped_idx@[p] as int]
                == ss[p],
    ensures
        r == slugs_in(ss, file@).contains(slug@),
{
    let mut j: usize = scoped_idx.len();
    assert(ss.take(j as int) =~= ss);
    while j > 0
        invariant
            j <= scoped_idx.len(),
            scoped_idx.len() == ss.len(),
            forall|p: int|
                0 <= p < scoped_idx.len() ==> #[trigger] scoped_idx@[p] < specs.len() && specs_view(specs@)[scoped_idx@[p] as int]
                    == ss[p],
            slugs_in(ss, file@) == slugs_in(ss.take(j as int), file@),
        decreases j,
    {
        let idx = scoped_idx[j - 1];
        assert(ss.take(j as int).last() == ss[j - 1]);
        assert(ss.take(j as int).drop_last() =~= ss.take(j - 1));
        if crate::text::str_eq(specs[idx].file_name.as_str(), file) {
            let names = heading_slugs(&specs[idx].headings);
            return contains_name(&names, slug);
        }
        j = j - 1;
    }
    false
}

fn count_valid(
    ts: &Vec<crate::parse::types::SpecTarget>,
    scope: &Vec<String>,
    specs: &Vec<ParsedSpec>,
    scoped_idx: &Vec<usize>,
    Ghost(ss): Ghost<Seq<SpecView>>,
) -> (r: usize)
    requires
        scoped_idx.len() == ss.len(),
        forall|p: int|
            0 <= p < scoped_idx.len() ==> #[trigger] scoped_idx@[p] < specs.len() && specs_view(specs@)[scoped_idx@[p] as int]
                == ss[p],
    ensures
        r as nat == valid_targets(crate::parse::types::targets_view(ts@), strings_view(scope@), ss),
{
    let ghost tv = crate::parse::types::targets_view(ts@);
    let mut n: usize = 0;
    let mut i: usize = 0;
    while i < ts.len()
        invariant
            i <= ts.len(),
            tv == crate::parse::types::targets_view(ts@),
            scoped_idx.len() == ss.len(),
            forall|p: int|
                0 <= p < scoped_idx.len() ==> #[trigger] scoped_idx@[p] < specs.len() && specs_view(specs@)[scoped_idx@[p] as int]
                    == ss[p],
            n as nat == valid_targets(tv.take(i as int), strings_view(scope@), ss),
            n <= i,
        decreases ts.len() - i,
    {
        assert(tv.take(i + 1).drop_last() =~= tv.take(i as int));
        assert(tv.take(i + 1).last() == ts@[i as int]@);
        if contains_name(scope, ts[i].file_name.as_str()) && scoped_has_heading(
            specs,
            scoped_idx,
            ts[i].file_name.as_str(),
            ts[i].heading_slug.as_str(),
            Ghost(ss),
        ) {
            n = n + 1;
        }
        i = i + 1;
    }
    assert(tv.take(ts.len() as int) =~= tv);
    n
}

/// `policy_checks`.
pub fn policy_checks(specs: &Vec<ParsedSpec>, scope: &Vec<String>) -> (r: Vec<LintIssue>)
    ensures
        issues_view(r@) == policy_issues(specs_view(specs@), strings_view(scope@)),
{
    let ghost sv = specs_view(specs@);
    let ghost sc = strings_view(scope@);
    // indices of the scoped specs, and of the roots among them
    let mut scoped_idx: Vec<usize> = Vec::new();
    let mut i: usize = 0;
    while i < specs.len()
        invariant
            i <= specs.len(),
            sv == specs_view(specs@),
            sc == strings_view(scope@),
            scoped_idx.len() == scoped(sv.take(i as int), sc).len(),
            forall|q: int|
                0 <= q < scoped_idx.len() ==> #[trigger] scoped_idx@[q] < specs.len() && sv[scoped_idx@[q] as int]
                    == scoped(sv.take(i as int), sc)[q],
        decreases specs.len() - i,
    {
        assert(sv.take(i + 1).drop_last() =~= sv.take(i as int));
        assert(sv.take(i + 1).last() == sv[i as int]);
        if contains_name(scope, specs[i].file_name.as_str()) {
            scoped_idx.push(i);
        }
        i = i + 1;
    }
    assert(sv.take(specs.len() as int) =~= sv);
    let ghost ss = scoped(sv, sc);
    let mut root_idx: Vec<usize> = Vec::new();
    let mut k: usize = 0;
    while k < scoped_idx.len()
        invariant
            k <= scoped_idx.len(),
            sv == specs_view(specs@),
            ss == scoped(sv, sc),
            scoped_idx.len() == ss.len(),
            forall|q: int|
                0 <= q < scoped_idx.len() ==> #[trigger] scoped_idx@[q] < specs.len() && sv[scoped_idx@[q] as int]
                    == ss[q],
            root_idx.len() == roots(ss.take(k as int)).len(),
            forall|q: int|
                0 <= q < root_idx.len() ==> #[trigger] root_idx@[q] < specs.len() && sv[root_idx@[q] as int]
                    == roots(ss.take(k as int))[q],
        decreases scoped_idx.len() - k,
    {
        assert(ss.take(k + 1).drop_last() =~= ss.take(k as int));
        assert(ss.take(k + 1).last() == ss[k as int]);
        let idx = scoped_idx[k];
        if specs[idx].is_root {
            root_idx.push(idx);
        }
        k = k + 1;
    }
    assert(ss.take(scoped_idx.len() as int) =~= ss);
    let ghost rs = roots(ss);
    let mut issues: Vec<LintIssue> = Vec::new();
    if root_idx.len() > 1 {
        let mut q: usize = 0;
        while q < root_idx.len()
            invariant
                q <= root_idx.len(),
                root_idx.len() > 1,
                sv == specs_view(specs@),
                root_idx.len() == rs.len(),
                forall|p: int|
                    0 <= p < root_idx.len() ==> #[trigger] root_idx@[p] < specs.len() && sv[root_idx@[p] as int]
                        == rs[p],
                issues_view(issues@) == root_multiple_issues(rs).take(q as int),
            decreases root_idx.len() - q,
        {
            let spec = &specs[root_idx[q]];
            let issue = make_policy_issue(
                LintSeverity::Error,
                "STRUCT_ROOT_MULTIPLE",
                cat3(
                    "Declare Root: true in at most one spec; duplicate root in '",
                    spec.file_name.as_str(),
                    "'.",
                ),
                spec.file_name.as_str(),
            );
            let ghost prev = issues_view(issues@);
            issues.push(issue);
            assert(issues_view(issues@) =~= prev.push(issue@));
            assert(spec@ == rs[q as int]);
            assert(root_multiple_issues(rs)[q as int] == issue@);
            assert(issues_view(issues@) =~= root_multiple_issues(rs).take(q + 1));
            q = q + 1;
        }
        assert(root_multiple_issues(rs).take(root_idx.len() as int) =~= root_multiple_issues(rs));
    } else {
        assert(issues_view(issues@) =~= root_multiple_issues(rs));
    }
    let ghost base1 = issues_view(issues@);
    let mut q: usize = 0;
    while q < root_idx.len()
        invariant
            q <= root_idx.len(),
            sv == specs_view(specs@),
            root_idx.len() == rs.len(),
            forall|p: int|
                0 <= p < root_idx.len() ==> #[trigger] root_idx@[p] < specs.len() && sv[root_idx@[p] as int]
                    == rs[p],
            issues_view(issues@) == base1 + root_kind_issues(rs.take(q as int)),
        decreases root_idx.len() - q,
    {
        assert(rs.take(q + 1).drop_last() =~= rs.take(q as int));
        assert(rs.take(q + 1).last() == rs[q as int]);
        let spec = &specs[root_idx[q]];
        if spec.kind != Some(SpecKind::Feature) {
            let issue = make_policy_issue(
                LintSeverity::Error,
                "STRUCT_ROOT_KIND",
                cat3(
                    "Use Root: true only on Kind: feature specs in '",
                    spec.file_name.as_str(),
                    "'.",
                ),
                spec.file_name.as_str(),
            );
            let ghost prev = issues_view(issues@);
            issues.push(issue);
            assert(issues_view(issues@) =~= prev.push(issue@));
        }
        q = q + 1;
    }
    assert(rs.take(root_idx.len() as int) =~= rs);
    // in-scope target counts of the scoped specs
    let mut counts: Vec<usize> = Vec::new();
    let mut c: usize = 0;
    while c < scoped_idx.len()
        invariant
            c <= scoped_idx.len(),
            sv == specs_view(specs@),
            sc == strings_view(scope@),
            scoped_idx.len() == ss.len(),
            forall|p: int|
                0 <= p < scoped_idx.len() ==> #[trigger] scoped_idx@[p] < specs.len() && sv[scoped_idx@[p] as int]
                    == ss[p],
            counts.len() == c,
            forall|p: int| 0 <= p < c ==> #[trigger] counts@[p] as nat == valid_targets(ss[p].specifies, sc, ss),
        decreases scoped_idx.len() - c,
    {
        counts.push(count_valid(&specs[scoped_idx[c]].specifies, scope, specs, &scoped_idx, Ghost(ss)));
        c = c + 1;
    }
    let ghost base2 = issues_view(issues@);
    let mut m: usize = 0;
    while m < scoped_idx.len()
        invariant
            m <= scoped_idx.len(),
            sv == specs_view(specs@),
            sc == strings_view(scope@),
            scoped_idx.len() == ss.len(),
            forall|p: int|
                0 <= p < scoped_idx.len() ==> #[trigger] scoped_idx@[p] < specs.len() && sv[scoped_idx@[p] as int]
                    == ss[p],
            counts.len() == ss.len(),
            forall|p: int| 0 <= p < ss.len() ==> #[trigger] counts@[p] as nat == valid_targets(ss[p].specifies, sc, ss),
            issues_view(issues@) == base2 + per_spec_issues(ss.take(m as int), ss, sc),
        decreases scoped_idx.len() - m,
    {
        assert(ss.take(m + 1).drop_last() =~= ss.take(m as int));
        assert(ss.take(m + 1).last() == ss[m as int]);
        let spec = &specs[scoped_idx[m]];
        let ghost before = issues_view(issues@);
        if spec.headings.len() == 0 {
            let issue = make_policy_issue(
                LintSeverity::Error,
                "STRUCT_MISSING_HEADING",
                cat3(
                    "Add at least one markdown heading to provide required description structure in '",
                    spec.file_name.as_str(),
                    "'.",
                ),
                spec.file_name.as_str(),
            );
            issues.push(issue);
        }
        let ghost mid = issues_view(issues@);
        let is_format = crate::text::str_eq(spec.file_name.as_str(), "spec-format.md");
        let needs = match spec.kind {
            Some(SpecKind::Feature) | Some(SpecKind::Behavioural) | Some(SpecKind::Interface) => true,
            _ => false,
        };
        if !is_format && needs && !spec.is_root {
            let out = outgoing_count(specs, &scoped_idx, &counts, spec.file_name.as_str(), Ghost(ss), Ghost(sc));
            if out == 0 {
                let issue = make_policy_issue(
                    LintSeverity::Warning,
                    "STRUCT_ORPHAN_SPEC",
                    cat3(
                        "Add at least one valid Specifies target for '",
                        spec.file_name.as_str(),
                        "', or change Kind if it should float.",
                    ),
                    spec.file_name.as_str(),
                );
                issues.push(issue);
            }
        }
        assert(issues_view(issues@) =~= before + spec_issues(ss[m as int], ss, sc));
        m = m + 1;
    }
    assert(ss.take(scoped_idx.len() as int) =~= ss);
    issues
}

/// The in-scope target count of the last scoped spec named `file`.
fn outgoing_count(
    specs: &Vec<ParsedSpec>,
    scoped_idx: &Vec<usize>,
    counts: &Vec<usize>,
    file: &str,
    Ghost(ss): Ghost<Seq<SpecView>>,
    Ghost(sc): Ghost<Seq<Seq<char>>>,
) -> (r: usize)
    requires
        scoped_idx.len() == ss.len(),
        counts.len() == ss.len(),
        forall|p: int|
            0 <= p < scoped_idx.len() ==> #[trigger] scoped_idx@[p] < specs.len() && specs_view(specs@)[scoped_idx@[p] as int]
                == ss[p],
        forall|p: int| 0 <= p < ss.len() ==> #[trigger] counts@[p] as nat == valid_targets(ss[p].specifies, sc, ss),
    ensures
        r as nat == outgoing_of(ss, sc, file@, ss),
{
    let mut k: usize = scoped_idx.len();
    assert(ss.take(k as int) =~= ss);
    while k > 0 && !crate::text::str_eq(specs[scoped_idx[k - 1]].file_name.as_str(), file)
        invariant
            k <= scoped_idx.len(),
            scoped_idx.len() == ss.len(),
            forall|p: int|
                0 <= p < scoped_idx.len() ==> #[trigger] scoped_idx@[p] < specs.len() && specs_view(specs@)[scoped_idx@[p] as int]
                    == ss[p],
            outgoing_of(ss, sc, file@, ss) == outgoing_of(ss.take(k as int), sc, file@, ss),
        decreases k,
    {
        assert(ss.take(k as int).drop_last() =~= ss.take(k - 1));
        k = k - 1;
    }
    if k == 0 {
        return 0;
    }
    assert(ss.take(k as int).last() == ss[k - 1]);
    counts[k - 1]
}

// ---------------------------------------------------------------------------
// The orphan policy
// ---------------------------------------------------------------------------
/// A `Specifies` target that resolves within a lint scope: its file is in
/// the scope and the last scoped spec of that name has a heading with the
/// target's slug.
pub open spec fn resolves_in_scope(t: TargetView, ss: Seq<SpecView>, scope: Seq<Seq<char>>) -> bool {
    scope.contains(t.file_name) && section_exists(ss, t.file_name, t.heading_slug)
}

/// `ss[j]` is the last spec of `ss` named `file`.
pub open spec fn last_named(ss: Seq<SpecView>, j: int, file: Seq<char>) -> bool {
    &&& 0 <= j < ss.len()
    &&& ss[j].file_name == file
    &&& forall|k: int| j < k < ss.len() ==> #[trigger] ss[k].file_name != file
}

/// An issue reports `file` as an orphan.
pub open spec fn is_orphan_issue(i: IssueView, file: Seq<char>) -> bool {
    i.code == "STRUCT_ORPHAN_SPEC"@ && i.location == at_file_start(file)
}

proof fn lemma_valid_target_iff(t: TargetView, ss: Seq<SpecView>, scope: Seq<Seq<char>>)
    ensures
        valid_target(t, scope, ss) <==> resolves_in_scope(t, ss, scope),
{
    lemma_slugs_in_iff_section(ss, t.file_name, t.heading_slug);
}

proof fn lemma_valid_targets_count(ts: Seq<TargetView>, ss: Seq<SpecView>, scope: Seq<Seq<char>>)
    ensures
        valid_targets(ts, scope, ss) > 0 <==> exists|q: int|
            0 <= q < ts.len() && resolves_in_scope(#[trigger] ts[q], ss, scope),
    decreases ts.len(),
{
    if ts.len() > 0 {
        let t = ts.drop_last();
        lemma_valid_targets_count(t, ss, scope);
        lemma_valid_target_iff(ts.last(), ss, scope);
        if exists|q: int| 0 <= q < t.len() && resolves_in_scope(#[trigger] t[q], ss, scope) {
            let q = choose|q: int| 0 <= q < t.len() && resolves_in_scope(#[trigger] t[q], ss, scope);
            assert(ts[q] == t[q]);
        }
        if exists|q: int| 0 <= q < ts.len() && resolves_in_scope(#[trigger] ts[q], ss, scope) {
            let q = choose|q: int| 0 <= q < ts.len() && resolves_in_scope(#[trigger] ts[q], ss, scope);
            if q < t.len() {
                assert(t[q] == ts[q]);
            }
        }
    }
}

proof fn lemma_outgoing_last(
    ss: Seq<SpecView>,
    scope: Seq<Seq<char>>,
    file: Seq<char>,
    lookup: Seq<SpecView>,
    j: int,
)
    requires
        last_named(ss, j, file),
    ensures
        outgoing_of(ss, scope, file, lookup) == valid_targets(ss[j].specifies, scope, lookup),
    decreases ss.len(),
{
    if j < ss.len() - 1 {
        let t = ss.drop_last();
        assert(ss[ss.len() - 1].file_name != file);
        assert(t[j] == ss[j]);
        assert forall|k: int| j < k < t.len() implies #[trigger] t[k].file_name != file by {
            assert(t[k] == ss[k]);
        }
        lemma_outgoing_last(t, scope, file, lookup, j);
    }
}

proof fn lemma_root_issues_codes(rs: Seq<SpecView>)
    ensures
        forall|k: int|
            0 <= k < root_multiple_issues(rs).len() ==> (#[trigger] root_multiple_issues(rs)[k]).code
                == "STRUCT_ROOT_MULTIPLE"@,
        forall|k: int|
            0 <= k < root_kind_issues(rs).len() ==> (#[trigger] root_kind_issues(rs)[k]).code
                == "STRUCT_ROOT_KIND"@,
    decreases rs.len(),
{
    if rs.len() > 0 {
        lemma_root_issues_codes(rs.drop_last());
    }
}

proof fn lemma_per_spec_member(ss: Seq<SpecView>, all: Seq<SpecView>, scope: Seq<Seq<char>>, k: int)
    requires
        0 <= k < per_spec_issues(ss, all, scope).len(),
    ensures
        exists|m: int|
            0 <= m < ss.len() && spec_issues(ss[m], all, scope).contains(
                #[trigger] per_spec_issues(ss, all, scope)[k],
            ),
    decreases ss.len(),
{
    let t = ss.drop_last();
    let p = per_spec_issues(t, all, scope);
    let last = spec_issues(ss.last(), all, scope);
    assert(per_spec_issues(ss, all, scope) == p + last);
    if k < p.len() {
        lemma_per_spec_member(t, all, scope, k);
        let m = choose|m: int| 0 <= m < t.len() && spec_issues(t[m], all, scope).contains(#[trigger] p[k]);
        assert(ss[m] == t[m]);
        assert(per_spec_issues(ss, all, scope)[k] == p[k]);
    } else {
        assert(per_spec_issues(ss, all, scope)[k] == last[k - p.len()]);
        assert(ss[ss.len() - 1] == ss.last());
    }
}

proof fn lemma_per_spec_has(ss: Seq<SpecView>, all: Seq<SpecView>, scope: Seq<Seq<char>>, m: int, x: IssueView)
    requires
        0 <= m < ss.len(),
        spec_issues(ss[m], all, scope).contains(x),
    ensures
        per_spec_issues(ss, all, scope).contains(x),
    decreases ss.len(),
{
    let t = ss.drop_last();
    let p = per_spec_issues(t, all, scope);
    let last = spec_issues(ss.last(), all, scope);
    assert(per_spec_issues(ss, all, scope) == p + last);
    if m < t.len() {
        assert(t[m] == ss[m]);
        lemma_per_spec_has(t, all, scope, m, x);
        let q = choose|q: int| 0 <= q < p.len() && p[q] == x;
        assert((p + last)[q] == x);
    } else {
        let q = choose|q: int| 0 <= q < last.len() && last[q] == x;
        assert((p + last)[p.len() + q] == x);
    }
}

/// The orphan policy of the structural lint, one way: when the last scoped
/// spec named `file` has a `Specifies` target whose file is in scope and
/// whose heading exists there, no issue reports `file` as an orphan.
pub proof fn lemma_no_orphan_when_target_resolves(
    specs: Seq<SpecView>,
    scope: Seq<Seq<char>>,
    file: Seq<char>,
    j: int,
    t: TargetView,
)
    requires
        last_named(scoped(specs, scope), j, file),
        scoped(specs, scope)[j].specifies.contains(t),
        resolves_in_scope(t, scoped(specs, scope), scope),
    ensures
        forall|k: int|
            0 <= k < policy_issues(specs, scope).len() ==> !is_orphan_issue(
                #[trigger] policy_issues(specs, scope)[k],
                file,
            ),
{
    let ss = scoped(specs, scope);
    let rs = roots(ss);
    let a = root_multiple_issues(rs);
    let b = root_kind_issues(rs);
    let c = per_spec_issues(ss, ss, scope);
    reveal_strlit("STRUCT_ORPHAN_SPEC");
    reveal_strlit("STRUCT_ROOT_MULTIPLE");
    reveal_strlit("STRUCT_ROOT_KIND");
    reveal_strlit("STRUCT_MISSING_HEADING");
    lemma_root_issues_codes(rs);
    lemma_outgoing_last(ss, scope, file, ss, j);
    let q = choose|q: int| 0 <= q < ss[j].specifies.len() && ss[j].specifies[q] == t;
    lemma_valid_targets_count(ss[j].specifies, ss, scope);
    assert(outgoing_of(ss, scope, file, ss) > 0);
    assert(policy_issues(specs, scope) == a + b + c);
    assert forall|k: int| 0 <= k < policy_issues(specs, scope).len() implies !is_orphan_issue(
        #[trigger] policy_issues(specs, scope)[k],
        file,
    ) by {
        let x = policy_issues(specs, scope)[k];
        if k < a.len() {
            assert(x == a[k]);
            assert(a[k].code.len() != "STRUCT_ORPHAN_SPEC"@.len());
        } else if k < a.len() + b.len() {
            assert(x == b[k - a.len()]);
            assert(b[k - a.len()].code.len() != "STRUCT_ORPHAN_SPEC"@.len());
        } else {
            assert(x == c[k - a.len() - b.len()]);
            lemma_per_spec_member(ss, ss, scope, k - a.len() - b.len());
            let m = choose|m: int| 0 <= m < ss.len() && spec_issues(ss[m], ss, scope).contains(
                #[trigger] c[k - a.len() - b.len()],
            );
            let si = spec_issues(ss[m], ss, scope);
            let r = choose|r: int| 0 <= r < si.len() && si[r] == x;
            if is_orphan_issue(x, file) {
                if ss[m].headings.len() == 0 && r == 0 {
                    assert(x.code.len() != "STRUCT_ORPHAN_SPEC"@.len());
                } else {
                    assert(ss[m].file_name == file);
                }
            }
        }
    }
}

/// The orphan policy of the structural lint, the other way: a scoped spec
/// that must name a parent section (not `spec-format.md`, of kind feature,
/// behavioural or interface, not the root) gets an orphan warning when the
/// last scoped spec of its name has no target that resolves in scope.
pub proof fn lemma_orphan_issue_when_no_target_resolves(
    specs: Seq<SpecView>,
    scope: Seq<Seq<char>>,
    i: int,
    j: int,
)
    requires
        0 <= i < scoped(specs, scope).len(),
        must_specify(scoped(specs, scope)[i]),
        last_named(scoped(specs, scope), j, scoped(specs, scope)[i].file_name),
        forall|q: int|
            0 <= q < scoped(specs, scope)[j].specifies.len() ==> !resolves_in_scope(
                #[trigger] scoped(specs, scope)[j].specifies[q],
                scoped(specs, scope),
                scope,
            ),
    ensures
        policy_issues(specs, scope).contains(
            IssueView {
                severity: LintSeverity::Warning,
                category: LintCategory::Structure,
                code: "STRUCT_ORPHAN_SPEC"@,
                message: msg_orphan_issue(scoped(specs, scope)[i].file_name),
                location: at_file_start(scoped(specs, scope)[i].file_name),
                confidence: None,
                evidence: Seq::empty(),
            },
        ),
{
    let ss = scoped(specs, scope);
    let s = ss[i];
    let f = s.file_name;
    let rs = roots(ss);
    let a = root_multiple_issues(rs);
    let b = root_kind_issues(rs);
    let c = per_spec_issues(ss, ss, scope);
    lemma_outgoing_last(ss, scope, f, ss, j);
    lemma_valid_targets_count(ss[j].specifies, ss, scope);
    assert(outgoing_of(ss, scope, f, ss) == 0);
    assert(spec_format_name() == "spec-format.md"@);
    let x = policy_issue(LintSeverity::Warning, "STRUCT_ORPHAN_SPEC"@, msg_orphan_issue(f), f);
    let si = spec_issues(s, ss, scope);
    assert(si[si.len() - 1] == x);
    lemma_per_spec_has(ss, ss, scope, i, x);
    let q = choose|q: int| 0 <= q < c.len() && c[q] == x;
    assert(policy_issues(specs, scope) == a + b + c);
    assert((a + b + c)[a.len() + b.len() + q] == x);
}

} // verus!
