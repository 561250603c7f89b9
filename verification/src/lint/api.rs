//! The structural lint pass and the properties of its report.
use vstd::prelude::*;
use crate::lint::ordering::{
    dedupe, dedupe_issues, dedupe_key, loc_column, loc_file, loc_line, issue_le, lemma_issue_le_total_preorder, sort_issues,
};
use crate::lint::scope::{diag_in_scope, focus_path_of, in_focus_scope, is_scope, resolve_scope, spec_names};
use crate::lint::structural::{
    diag_issue, is_graph_integrity, map_parser_diagnostics, struct_code, mapped_diagnostics, per_spec_issues, policy_checks,
    policy_issue, policy_issues, root_kind_issues, root_multiple_issues, roots, scoped, scoped_file_names, spec_issues,
};
use crate::lint::types::{IssueView, LintError, LintIssue, LintOptions, LintResult, issues_view};
use crate::order::{lemma_stable_sort, sorted_by, stable_sort};
use crate::lint::types::LintCategory;
use crate::trusted::opt_string_view;
use crate::parse::types::{
    ParserError, DiagnosticCode, DiagnosticView, ParseResult, ParseResultView, SpecView, at_file_start, specs_view,
    strings_view,
};

verus! {

/// Issues in report order, the first of each de-duplication key kept.
pub open spec fn finalized(issues: Seq<IssueView>) -> Seq<IssueView> {
    dedupe(stable_sort(issues, issue_le()))
}

/// The structural issues of a parse over a scope, before ordering: parser
/// graph-integrity findings, then policy findings.
pub open spec fn structural_of(parsed: ParseResultView, scope: Seq<Seq<char>>) -> Seq<IssueView> {
    mapped_diagnostics(parsed.diagnostics, scope) + policy_issues(parsed.specs, scope)
}

/// Which names a lint scope holds: every spec without a focus, the focus
/// and its direct relationships with one.
pub open spec fn scope_member(specs: Seq<SpecView>, focus: Option<Seq<char>>) -> spec_fn(
    Seq<char>,
) -> bool {
    match focus {
        None => |x: Seq<char>| spec_names(specs).contains(x),
        Some(n) => |x: Seq<char>| in_focus_scope(specs, n, x),
    }
}

/// `sort_issues` then `dedupe_issues`.
pub fn finalize_issues(issues: Vec<LintIssue>) -> (r: Vec<LintIssue>)
    ensures
        issues_view(r@) == finalized(issues_view(issues@)),
{
    let sorted = sort_issues(issues);
    dedupe_issues(sorted)
}

/// The structural issues of a parse over a scope, unordered.
pub fn structural_issues(parsed: &ParseResult, scope: &Vec<String>) -> (r: Vec<LintIssue>)
    ensures
        issues_view(r@) == structural_of(parsed@, strings_view(scope@)),
{
    let mut issues = map_parser_diagnostics(&parsed.diagnostics, scope);
    let ghost a = issues_view(issues@);
    let mut more = policy_checks(&parsed.specs, scope);
    issues.append(&mut more);
    assert(issues_view(issues@) =~= a + policy_issues(specs_view(parsed.specs@), strings_view(scope@)));
    issues
}

/// What the structural lint of a parse result gives for a focus: an
/// invalid focus and a focus on no spec are refused; else the report holds
/// the structural issues of the focus's scope (every spec without a
/// focus), in report order without duplicates.
pub open spec fn structural_lint_outcome(
    parsed: ParseResultView,
    focus: Option<Seq<char>>,
    r: Result<LintResult, LintError>,
) -> bool {
    let sv = parsed.specs;
    match focus {
        None => r matches Ok(res) && exists|v: Seq<Seq<char>>|
            is_scope(v, scope_member(sv, None)) && issues_view(res.issues@) == finalized(
                structural_of(parsed, v),
            ),
        Some(f) => match focus_path_of(f) {
            None => r matches Err(LintError::InvalidFocus { focus: e }) && e@ == f,
            Some(n) => if !spec_names(sv).contains(n) {
                r matches Err(LintError::FocusNotFound { focus: e }) && e@ == n
            } else {
                r matches Ok(res) && exists|v: Seq<Seq<char>>|
                    is_scope(v, scope_member(sv, Some(n))) && issues_view(res.issues@)
                        == finalized(structural_of(parsed, v))
            },
        },
    }
}

/// `lint_specs_directory_structural` over a parse result: the scope of the
/// focus, then the structural issues in report order without duplicates.
pub fn lint_specs_directory_structural(parsed: &ParseResult, options: &LintOptions) -> (r: Result<
    LintResult,
    LintError,
>)
    ensures
        structural_lint_outcome(parsed@, opt_string_view(options.focus), r),
{
    let scope = match resolve_scope(&parsed.specs, &options.focus) {
        Ok(s) => s,
        Err(e) => return Err(e),
    };
    let issues = structural_issues(parsed, &scope);
    let issues = finalize_issues(issues);
    proof {
        let sv = parsed@.specs;
        let v = strings_view(scope@);
        if options.focus.is_none() {
            assert(is_scope(v, scope_member(sv, None)));
        } else {
            let n = focus_path_of(options.focus.unwrap()@).unwrap();
            assert(is_scope(v, scope_member(sv, Some(n))));
        }
    }
    Ok(LintResult { issues })
}

/// `lint_specs_directory_structural` on the outcome of parsing the specs
/// directory: a parse failure is reported as `LintError::Parse`, a parse
/// result is linted as above.
pub fn lint_parse_outcome_structural(
    outcome: Result<ParseResult, ParserError>,
    options: &LintOptions,
) -> (r: Result<LintResult, LintError>)
    ensures
        match outcome {
            Err(e) => r matches Err(LintError::Parse(x)) && x == e,
            Ok(p) => structural_lint_outcome(p@, opt_string_view(options.focus), r),
        },
{
    match outcome {
        Err(e) => Err(LintError::Parse(e)),
        Ok(parsed) => lint_specs_directory_structural(&parsed, options),
    }
}

/// The names, in spec order, of the specs in a scope.
pub open spec fn scoped_names(specs: Seq<SpecView>, scope: Seq<Seq<char>>) -> Seq<Seq<char>> {
    scoped(specs, scope).map_values(|s: SpecView| s.file_name)
}

/// Which spec files the semantic checks of a parse result read for a
/// focus: an invalid focus and a focus on no spec are refused; else the
/// specs of the focus's scope (every spec without a focus), in spec order.
pub open spec fn semantic_files_outcome(
    parsed: ParseResultView,
    focus: Option<Seq<char>>,
    r: Result<Vec<String>, LintError>,
) -> bool {
    let sv = parsed.specs;
    match focus {
        None => r matches Ok(v) && exists|sc: Seq<Seq<char>>|
            is_scope(sc, scope_member(sv, None)) && strings_view(v@) == scoped_names(sv, sc),
        Some(f) => match focus_path_of(f) {
            None => r matches Err(LintError::InvalidFocus { focus: e }) && e@ == f,
            Some(n) => if !spec_names(sv).contains(n) {
                r matches Err(LintError::FocusNotFound { focus: e }) && e@ == n
            } else {
                r matches Ok(v) && exists|sc: Seq<Seq<char>>|
                    is_scope(sc, scope_member(sv, Some(n))) && strings_view(v@) == scoped_names(
                        sv,
                        sc,
                    )
            },
        },
    }
}

/// The spec files whose documents `lint_semantic_prompts_for_directory`
/// reads, on the outcome of parsing the specs directory: none for a
/// structural-only run; a parse failure is reported as `LintError::Parse`;
/// else the specs in the scope of the focus, in spec order.
pub fn semantic_spec_files(
    outcome: Result<ParseResult, ParserError>,
    options: &LintOptions,
) -> (r: Result<Vec<String>, LintError>)
    ensures
        options.structural_only ==> (r matches Ok(v) && v@.len() == 0),
        !options.structural_only ==> match outcome {
            Err(e) => r matches Err(LintError::Parse(x)) && x == e,
            Ok(p) => semantic_files_outcome(p@, opt_string_view(options.focus), r),
        },
{
    if options.structural_only {
        return Ok(Vec::new());
    }
    let parsed = match outcome {
        Err(e) => {
            return Err(LintError::Parse(e));
        },
        Ok(p) => p,
    };
    let scope = match resolve_scope(&parsed.specs, &options.focus) {
        Ok(s) => s,
        Err(e) => return Err(e),
    };
    let files = scoped_file_names(&parsed.specs, &scope);
    proof {
        let sv = parsed@.specs;
        let sc = strings_view(scope@);
        if options.focus.is_none() {
            assert(is_scope(sc, scope_member(sv, None)));
        } else {
            let n = focus_path_of(options.focus.unwrap()@).unwrap();
            assert(is_scope(sc, scope_member(sv, Some(n))));
        }
        assert(strings_view(files@) == scoped_names(sv, sc));
    }
    Ok(files)
}

// ---------------------------------------------------------------------------
// Laws
// ---------------------------------------------------------------------------
/// Two scopes with the same members are the same sequence: a sorted,
/// duplicate-free list is determined by its members.
pub proof fn lemma_scope_unique(
    v1: Seq<Seq<char>>,
    v2: Seq<Seq<char>>,
    member: spec_fn(Seq<char>) -> bool,
)
    requires
        is_scope(v1, member),
        is_scope(v2, member),
    ensures
        v1 == v2,
    decreases v1.len(),
{
    crate::lint::scope::lemma_name_le_total_preorder();
    if v1.len() == 0 {
        if v2.len() > 0 {
            assert(v2.contains(v2[0]));
            assert(member(v2[0]));
            assert(!v1.contains(v2[0]));
        }
        assert(v1 =~= v2);
    } else {
        if v2.len() == 0 {
            assert(v1.contains(v1[0]));
            assert(member(v1[0]));
            assert(!v2.contains(v1[0]));
            return;
        }
        let a = v1[0];
        let b = v2[0];
        assert(v1.contains(a));
        assert(v2.contains(b));
        assert(member(a) && member(b));
        let i = choose|i: int| 0 <= i < v2.len() && v2[i] == a;
        let j = choose|j: int| 0 <= j < v1.len() && v1[j] == b;
        if i > 0 {
            assert(crate::parse::corpus::name_le()(b, a));
        }
        if j > 0 {
            assert(crate::parse::corpus::name_le()(a, b));
        }
        assert(crate::parse::corpus::name_le()(a, b) && crate::parse::corpus::name_le()(b, a)
            ==> a == b) by {
            crate::text::lemma_seq_lt_total(a, b);
        }
        assert(a == b);
        let t1 = v1.drop_first();
        let t2 = v2.drop_first();
        let m2 = |x: Seq<char>| member(x) && x != a;
        assert forall|x: Seq<char>| t1.contains(x) <==> #[trigger] m2(x) by {
            if t1.contains(x) {
                let k = choose|k: int| 0 <= k < t1.len() && t1[k] == x;
                assert(v1[k + 1] == x);
                assert(v1.contains(x));
            }
            if m2(x) {
                assert(v1.contains(x));
                let k = choose|k: int| 0 <= k < v1.len() && v1[k] == x;
                assert(k != 0);
                assert(t1[k - 1] == x);
            }
        }
        assert forall|x: Seq<char>| t2.contains(x) <==> #[trigger] m2(x) by {
            if t2.contains(x) {
                let k = choose|k: int| 0 <= k < t2.len() && t2[k] == x;
                assert(v2[k + 1] == x);
                assert(v2.contains(x));
            }
            if m2(x) {
                assert(v2.contains(x));
                let k = choose|k: int| 0 <= k < v2.len() && v2[k] == x;
                assert(k != 0);
                assert(t2[k - 1] == x);
            }
        }
        assert(sorted_by(t1, crate::parse::corpus::name_le())) by {
            assert forall|p: int, q: int| 0 <= p < q < t1.len() implies crate::parse::corpus::name_le()(
                #[trigger] t1[p],
                #[trigger] t1[q],
            ) by {
                assert(t1[p] == v1[p + 1] && t1[q] == v1[q + 1]);
            }
        }
        assert(sorted_by(t2, crate::parse::corpus::name_le())) by {
            assert forall|p: int, q: int| 0 <= p < q < t2.len() implies crate::parse::corpus::name_le()(
                #[trigger] t2[p],
                #[trigger] t2[q],
            ) by {
                assert(t2[p] == v2[p + 1] && t2[q] == v2[q + 1]);
            }
        }
        lemma_scope_unique(t1, t2, m2);
        assert(v1 =~= seq![a] + t1);
        assert(v2 =~= seq![b] + t2);
    }
}

/// `idx` picks `d` out of `s` at increasing positions.
pub open spec fn picks(idx: Seq<int>, s: Seq<IssueView>, d: Seq<IssueView>) -> bool {
    &&& idx.len() == d.len()
    &&& forall|k: int| 0 <= k < idx.len() ==> 0 <= #[trigger] idx[k] < s.len() && s[idx[k]] == d[k]
    &&& forall|k: int, l: int| 0 <= k < l < idx.len() ==> idx[k] < idx[l]
}

proof fn lemma_dedupe_subseq(s: Seq<IssueView>)
    ensures
        forall|i: int| 0 <= i < dedupe(s).len() ==> s.contains(#[trigger] dedupe(s)[i]),
        exists|idx: Seq<int>| #[trigger] picks(idx, s, dedupe(s)),
    decreases s.len(),
{
    if s.len() > 0 {
        lemma_dedupe_subseq(s.drop_last());
        let prev = dedupe(s.drop_last());
        let idx0 = choose|idx: Seq<int>| #[trigger] picks(idx, s.drop_last(), prev);
        if prev.map_values(|i: IssueView| dedupe_key(i)).contains(dedupe_key(s.last())) {
            assert forall|i: int| 0 <= i < dedupe(s).len() implies s.contains(#[trigger] dedupe(s)[i]) by {
                assert(s.drop_last().contains(prev[i]));
                let k = choose|k: int| 0 <= k < s.drop_last().len() && s.drop_last()[k] == prev[i];
                assert(s[k] == prev[i]);
            }
            assert forall|k: int| 0 <= k < idx0.len() implies 0 <= #[trigger] idx0[k] < s.len()
                && s[idx0[k]] == dedupe(s)[k] by {
                assert(s[idx0[k]] == s.drop_last()[idx0[k]]);
            }
            assert(picks(idx0, s, dedupe(s)));
        } else {
            let idx = idx0.push(s.len() - 1);
            assert forall|i: int| 0 <= i < dedupe(s).len() implies s.contains(#[trigger] dedupe(s)[i]) by {
                if i < prev.len() {
                    assert(s.drop_last().contains(prev[i]));
                    let k = choose|k: int| 0 <= k < s.drop_last().len() && s.drop_last()[k] == prev[i];
                    assert(s[k] == prev[i]);
                } else {
                    assert(s[s.len() - 1] == s.last());
                }
            }
            assert forall|k: int| 0 <= k < idx.len() implies 0 <= #[trigger] idx[k] < s.len()
                && s[idx[k]] == dedupe(s)[k] by {
                if k < idx0.len() {
                    assert(s[idx0[k]] == s.drop_last()[idx0[k]]);
                }
            }
            assert(picks(idx, s, dedupe(s)));
        }
    } else {
        let idx = Seq::<int>::empty();
        assert(picks(idx, s, dedupe(s)));
    }
}

/// The report is in order: sorted by file, line, column, category name,
/// code and message.
pub proof fn lemma_finalized_sorted(issues: Seq<IssueView>)
    ensures
        sorted_by(finalized(issues), issue_le()),
{
    lemma_issue_le_total_preorder();
    lemma_stable_sort(issues, issue_le());
    let s = stable_sort(issues, issue_le());
    lemma_dedupe_subseq(s);
    let d = dedupe(s);
    let idx = choose|idx: Seq<int>| #[trigger] picks(idx, s, d);
    assert forall|p: int, q: int| 0 <= p < q < d.len() implies issue_le()(#[trigger] d[p], #[trigger] d[q]) by {
        assert(idx[p] < idx[q]);
        assert(s[idx[p]] == d[p] && s[idx[q]] == d[q]);
    }
}

/// No two reported issues share a de-duplication key.
pub proof fn lemma_dedupe_unique(s: Seq<IssueView>)
    ensures
        forall|p: int, q: int|
            0 <= p < q < dedupe(s).len() ==> dedupe_key(#[trigger] dedupe(s)[p]) != dedupe_key(
                #[trigger] dedupe(s)[q],
            ),
    decreases s.len(),
{
    if s.len() > 0 {
        lemma_dedupe_unique(s.drop_last());
        let prev = dedupe(s.drop_last());
        let keys = prev.map_values(|i: IssueView| dedupe_key(i));
        if !keys.contains(dedupe_key(s.last())) {
            assert forall|p: int, q: int| 0 <= p < q < dedupe(s).len() implies dedupe_key(
                #[trigger] dedupe(s)[p],
            ) != dedupe_key(#[trigger] dedupe(s)[q]) by {
                if q == prev.len() {
                    assert(keys[p] == dedupe_key(prev[p]));
                }
            }
        }
    }
}

/// Two issues report the same finding: same category, code, message, and
/// location (file, line, column; a missing location, line or column
/// counting as an empty file name and the largest line or column).
pub open spec fn same_finding(a: IssueView, b: IssueView) -> bool {
    &&& a.category == b.category
    &&& a.code == b.code
    &&& a.message == b.message
    &&& loc_file(a.location) == loc_file(b.location)
    &&& loc_line(a.location) == loc_line(b.location)
    &&& loc_column(a.location) == loc_column(b.location)
}

/// No issue before position `i` of `s` reports the same finding as `s[i]`.
pub open spec fn first_of_finding(s: Seq<IssueView>, i: int) -> bool {
    forall|m: int| 0 <= m < i ==> !same_finding(#[trigger] s[m], s[i])
}

/// What de-duplicating `s` into `d` must do: every issue that is the first
/// of its finding is kept, every kept issue is the first of its finding,
/// and no two kept issues report the same finding.
pub open spec fn dedupe_law(s: Seq<IssueView>, d: Seq<IssueView>) -> bool {
    &&& forall|i: int| 0 <= i < s.len() && first_of_finding(s, i) ==> d.contains(#[trigger] s[i])
    &&& forall|k: int|
        0 <= k < d.len() ==> exists|j: int|
            0 <= j < s.len() && #[trigger] d[k] == s[j] && first_of_finding(s, j)
    &&& forall|p: int, q: int| 0 <= p < q < d.len() ==> !same_finding(#[trigger] d[p], #[trigger] d[q])
}

proof fn lemma_same_finding_key(a: IssueView, b: IssueView)
    ensures
        same_finding(a, b) <==> dedupe_key(a) == dedupe_key(b),
{
}

proof fn lemma_first_in_prefix(s: Seq<IssueView>, j: int)
    requires
        0 <= j < s.len() - 1,
    ensures
        first_of_finding(s, j) == first_of_finding(s.drop_last(), j),
{
    let t = s.drop_last();
    assert(t[j] == s[j]);
    if first_of_finding(t, j) {
        assert forall|m: int| 0 <= m < j implies !same_finding(#[trigger] s[m], s[j]) by {
            assert(t[m] == s[m]);
        }
    }
    if first_of_finding(s, j) {
        assert forall|m: int| 0 <= m < j implies !same_finding(#[trigger] t[m], t[j]) by {
            assert(t[m] == s[m]);
        }
    }
}

/// Every kept issue is an input issue that is the first of its finding.
proof fn lemma_dedupe_from(s: Seq<IssueView>)
    ensures
        forall|k: int|
            0 <= k < dedupe(s).len() ==> exists|j: int|
                0 <= j < s.len() && #[trigger] dedupe(s)[k] == s[j] && first_of_finding(s, j),
    decreases s.len(),
{
    if s.len() == 0 {
        return;
    }
    let d = dedupe(s);
    let t = s.drop_last();
    lemma_dedupe_from(t);
    let prev = dedupe(t);
    let keys = prev.map_values(|x: IssueView| dedupe_key(x));
    let last = s.len() - 1;
    assert forall|k: int| 0 <= k < d.len() implies exists|j: int|
        0 <= j < s.len() && #[trigger] d[k] == s[j] && first_of_finding(s, j) by {
        if k < prev.len() {
            assert(d[k] == prev[k]);
            let j = choose|j: int| 0 <= j < t.len() && prev[k] == t[j] && first_of_finding(t, j);
            assert(s[j] == t[j]);
            lemma_first_in_prefix(s, j);
        } else {
            assert(!keys.contains(dedupe_key(s[last])));
            assert(d[k] == s[last]);
            assert forall|m: int| 0 <= m < last implies !same_finding(#[trigger] s[m], s[last]) by {
                if same_finding(s[m], s[last]) {
                    lemma_dedupe_keeps_keys(t, m);
                    let q = choose|q: int|
                        0 <= q < prev.len() && dedupe_key(#[trigger] prev[q]) == dedupe_key(t[m]);
                    assert(t[m] == s[m]);
                    lemma_same_finding_key(s[m], s[last]);
                    assert(keys[q] == dedupe_key(s[last]));
                }
            }
        }
    }
}

/// Every input issue that is the first of its finding is kept.
proof fn lemma_dedupe_keeps_first(s: Seq<IssueView>)
    ensures
        forall|i: int|
            0 <= i < s.len() && first_of_finding(s, i) ==> dedupe(s).contains(#[trigger] s[i]),
    decreases s.len(),
{
    if s.len() == 0 {
        return;
    }
    let d = dedupe(s);
    let t = s.drop_last();
    lemma_dedupe_keeps_first(t);
    lemma_dedupe_from(t);
    let prev = dedupe(t);
    let keys = prev.map_values(|x: IssueView| dedupe_key(x));
    let last = s.len() - 1;
    assert forall|i: int| 0 <= i < s.len() && first_of_finding(s, i) implies d.contains(
        #[trigger] s[i],
    ) by {
        if i < last {
            assert(t[i] == s[i]);
            lemma_first_in_prefix(s, i);
            assert(prev.contains(t[i]));
            let k = choose|k: int| 0 <= k < prev.len() && prev[k] == t[i];
            assert(d[k] == prev[k]);
        } else {
            if keys.contains(dedupe_key(s[last])) {
                let q = choose|q: int| 0 <= q < keys.len() && keys[q] == dedupe_key(s[last]);
                assert(keys[q] == dedupe_key(prev[q]));
                let j = choose|j: int|
                    0 <= j < t.len() && #[trigger] prev[q] == t[j] && first_of_finding(t, j);
                assert(s[j] == t[j]);
                lemma_same_finding_key(s[j], s[last]);
                assert(!same_finding(s[j], s[last]));
            }
            assert(d[prev.len() as int] == s[last]);
        }
    }
}

/// De-duplication keeps exactly the first issue of each finding: an issue
/// is dropped only when an earlier one has the same category, code,
/// message and location, so two issues that differ in any of these are
/// both kept.
pub proof fn lemma_dedupe_law(s: Seq<IssueView>)
    ensures
        dedupe_law(s, dedupe(s)),
{
    let d = dedupe(s);
    lemma_dedupe_unique(s);
    assert forall|p: int, q: int| 0 <= p < q < d.len() implies !same_finding(
        #[trigger] d[p],
        #[trigger] d[q],
    ) by {
        lemma_same_finding_key(d[p], d[q]);
    }
    lemma_dedupe_from(s);
    lemma_dedupe_keeps_first(s);
    assert(forall|i: int| 0 <= i < s.len() && first_of_finding(s, i) ==> d.contains(#[trigger] s[i]));
    assert(forall|k: int|
        0 <= k < d.len() ==> exists|j: int|
            0 <= j < s.len() && #[trigger] d[k] == s[j] && first_of_finding(s, j));
    assert(forall|p: int, q: int| 0 <= p < q < d.len() ==> !same_finding(#[trigger] d[p], #[trigger] d[q]));
}

/// Every key of the input is kept: for each issue, one with its key is
/// reported.
pub proof fn lemma_dedupe_keeps_keys(s: Seq<IssueView>, i: int)
    requires
        0 <= i < s.len(),
    ensures
        exists|k: int| 0 <= k < dedupe(s).len() && dedupe_key(#[trigger] dedupe(s)[k]) == dedupe_key(s[i]),
    decreases s.len(),
{
    let prev = dedupe(s.drop_last());
    let keys = prev.map_values(|x: IssueView| dedupe_key(x));
    if i < s.len() - 1 {
        lemma_dedupe_keeps_keys(s.drop_last(), i);
        let k = choose|k: int| 0 <= k < prev.len() && dedupe_key(#[trigger] prev[k]) == dedupe_key(s.drop_last()[i]);
        if !keys.contains(dedupe_key(s.last())) {
            assert(dedupe(s)[k] == prev[k]);
        }
    } else {
        if keys.contains(dedupe_key(s.last())) {
            let k = choose|k: int| 0 <= k < keys.len() && keys[k] == dedupe_key(s.last());
            assert(dedupe_key(dedupe(s)[k]) == dedupe_key(s[i]));
        } else {
            assert(dedupe(s)[prev.len() as int] == s.last());
        }
    }
}

/// An issue is within a scope when it has no location or its file is in
/// the scope.
pub open spec fn within(i: IssueView, scope: Seq<Seq<char>>) -> bool {
    match i.location {
        Some(l) => scope.contains(l.file_name),
        None => true,
    }
}

proof fn lemma_mapped_within(ds: Seq<DiagnosticView>, scope: Seq<Seq<char>>)
    ensures
        forall|k: int|
            0 <= k < mapped_diagnostics(ds, scope).len() ==> within(
                #[trigger] mapped_diagnostics(ds, scope)[k],
                scope,
            ),
    decreases ds.len(),
{
    if ds.len() > 0 {
        lemma_mapped_within(ds.drop_last(), scope);
        let prev = mapped_diagnostics(ds.drop_last(), scope);
        let cur = mapped_diagnostics(ds, scope);
        assert forall|k: int| 0 <= k < cur.len() implies within(#[trigger] cur[k], scope) by {
            if k < prev.len() {
                assert(cur[k] == prev[k]);
            } else {
                assert(cur[k] == diag_issue(ds.last()));
            }
        }
    }
}

proof fn lemma_scoped_in(specs: Seq<SpecView>, scope: Seq<Seq<char>>)
    ensures
        forall|k: int|
            0 <= k < scoped(specs, scope).len() ==> scope.contains(
                (#[trigger] scoped(specs, scope)[k]).file_name,
            ),
    decreases specs.len(),
{
    if specs.len() > 0 {
        lemma_scoped_in(specs.drop_last(), scope);
    }
}

proof fn lemma_roots_in(rs: Seq<SpecView>, scope: Seq<Seq<char>>)
    requires
        forall|k: int| 0 <= k < rs.len() ==> scope.contains((#[trigger] rs[k]).file_name),
    ensures
        forall|k: int| 0 <= k < roots(rs).len() ==> scope.contains((#[trigger] roots(rs)[k]).file_name),
        forall|k: int|
            0 <= k < root_kind_issues(rs).len() ==> within(#[trigger] root_kind_issues(rs)[k], scope),
    decreases rs.len(),
{
    if rs.len() > 0 {
        assert forall|k: int| 0 <= k < rs.drop_last().len() implies scope.contains(
            (#[trigger] rs.drop_last()[k]).file_name,
        ) by {
            assert(rs.drop_last()[k] == rs[k]);
        }
        assert(scope.contains(rs[rs.len() - 1].file_name));
        lemma_roots_in(rs.drop_last(), scope);
        let prev = root_kind_issues(rs.drop_last());
        let cur = root_kind_issues(rs);
        assert forall|k: int| 0 <= k < cur.len() implies within(#[trigger] cur[k], scope) by {
            if k < prev.len() {
                assert(cur[k] == prev[k]);
            }
        }
        let rp = roots(rs.drop_last());
        let rc = roots(rs);
        assert forall|k: int| 0 <= k < rc.len() implies scope.contains((#[trigger] rc[k]).file_name) by {
            if k < rp.len() {
                assert(rc[k] == rp[k]);
            }
        }
    }
}

proof fn lemma_per_spec_within(ss: Seq<SpecView>, all: Seq<SpecView>, scope: Seq<Seq<char>>)
    requires
        forall|k: int| 0 <= k < ss.len() ==> scope.contains((#[trigger] ss[k]).file_name),
    ensures
        forall|k: int|
            0 <= k < per_spec_issues(ss, all, scope).len() ==> within(
                #[trigger] per_spec_issues(ss, all, scope)[k],
                scope,
            ),
    decreases ss.len(),
{
    if ss.len() > 0 {
        assert forall|k: int| 0 <= k < ss.drop_last().len() implies scope.contains(
            (#[trigger] ss.drop_last()[k]).file_name,
        ) by {
            assert(ss.drop_last()[k] == ss[k]);
        }
        assert(scope.contains(ss[ss.len() - 1].file_name));
        lemma_per_spec_within(ss.drop_last(), all, scope);
        let a = per_spec_issues(ss.drop_last(), all, scope);
        let b = spec_issues(ss.last(), all, scope);
        assert forall|k: int| 0 <= k < (a + b).len() implies within(#[trigger] (a + b)[k], scope) by {
            if k >= a.len() {
                assert((a + b)[k] == b[k - a.len()]);
            }
        }
    }
}

/// Structural issues stay within the lint scope: each names no file or a
/// file of the scope.
pub proof fn lemma_structural_within_scope(parsed: ParseResultView, scope: Seq<Seq<char>>)
    ensures
        forall|k: int|
            0 <= k < structural_of(parsed, scope).len() ==> within(
                #[trigger] structural_of(parsed, scope)[k],
                scope,
            ),
{
    lemma_mapped_within(parsed.diagnostics, scope);
    let ss = scoped(parsed.specs, scope);
    lemma_scoped_in(parsed.specs, scope);
    lemma_roots_in(ss, scope);
    let rs = roots(ss);
    lemma_roots_in(rs, scope);
    lemma_per_spec_within(ss, ss, scope);
    let a = mapped_diagnostics(parsed.diagnostics, scope);
    let m = root_multiple_issues(rs);
    let kd = root_kind_issues(rs);
    let p = per_spec_issues(ss, ss, scope);
    assert forall|k: int| 0 <= k < m.len() implies within(#[trigger] m[k], scope) by {
        assert(scope.contains(rs[k].file_name));
    }
    assert(policy_issues(parsed.specs, scope) == m + kd + p);
    let all = a + (m + kd + p);
    assert forall|k: int| 0 <= k < all.len() implies within(#[trigger] all[k], scope) by {
        if k < a.len() {
        } else if k < a.len() + m.len() {
            assert(all[k] == m[k - a.len()]);
        } else if k < a.len() + m.len() + kd.len() {
            assert(all[k] == kd[k - a.len() - m.len()]);
        } else {
            assert(all[k] == p[k - a.len() - m.len() - kd.len()]);
        }
    }
}

/// Ordering and de-duplication keep only issues of the input, so a report
/// of issues within a scope stays within it.
pub proof fn lemma_finalized_within(issues: Seq<IssueView>, scope: Seq<Seq<char>>)
    requires
        forall|k: int| 0 <= k < issues.len() ==> within(#[trigger] issues[k], scope),
    ensures
        forall|k: int| 0 <= k < finalized(issues).len() ==> within(#[trigger] finalized(issues)[k], scope),
{
    lemma_issue_le_total_preorder();
    lemma_stable_sort(issues, issue_le());
    let s = stable_sort(issues, issue_le());
    lemma_dedupe_subseq(s);
    broadcast use vstd::seq_lib::group_to_multiset_ensures;

    assert forall|k: int| 0 <= k < finalized(issues).len() implies within(#[trigger] finalized(issues)[k], scope) by {
        let x = finalized(issues)[k];
        assert(s.contains(x));
        assert(s.to_multiset().count(x) > 0);
        assert(issues.to_multiset().count(x) > 0);
        assert(issues.contains(x));
        let j = choose|j: int| 0 <= j < issues.len() && issues[j] == x;
    }
}


// ---------------------------------------------------------------------------
// The stable code set
// ---------------------------------------------------------------------------
/// The stable set of structural issue codes: four policy codes and one per
/// graph-integrity parser code.
pub open spec fn is_structural_code(c: Seq<char>) -> bool {
    ||| c == "STRUCT_ROOT_MULTIPLE"@
    ||| c == "STRUCT_ROOT_KIND"@
    ||| c == "STRUCT_MISSING_HEADING"@
    ||| c == "STRUCT_ORPHAN_SPEC"@
    ||| c == "STRUCT_IOREADFAILURE"@
    ||| c == "STRUCT_INVALIDFRONTMATTER"@
    ||| c == "STRUCT_INVALIDKIND"@
    ||| c == "STRUCT_INVALIDROOT"@
    ||| c == "STRUCT_INVALIDSPECIFIES"@
    ||| c == "STRUCT_INVALIDSPECIFIESTARGET"@
    ||| c == "STRUCT_INVALIDCROSSREFERENCE"@
    ||| c == "STRUCT_BROKENTARGETFILE"@
    ||| c == "STRUCT_BROKENTARGETHEADING"@
    ||| c == "STRUCT_BROKENCROSSREFERENCEFILE"@
    ||| c == "STRUCT_BROKENCROSSREFERENCEHEADING"@
    ||| c == "STRUCT_CYCLEDETECTED"@
}

/// A structural issue with a code of the stable set.
pub open spec fn stable_structural(i: IssueView) -> bool {
    i.category == LintCategory::Structure && is_structural_code(i.code)
}

proof fn lemma_struct_code_listed(code: DiagnosticCode)
    requires
        is_graph_integrity(code),
    ensures
        is_structural_code(struct_code(code)),
{
    reveal_strlit("STRUCT_");
    match code {
        DiagnosticCode::IoReadFailure => {
            reveal_strlit("IoReadFailure");
            reveal_strlit("STRUCT_IOREADFAILURE");
            assert(struct_code(code) =~= "STRUCT_IOREADFAILURE"@);
        },
        DiagnosticCode::InvalidFrontMatter => {
            reveal_strlit("InvalidFrontMatter");
            reveal_strlit("STRUCT_INVALIDFRONTMATTER");
            assert(struct_code(code) =~= "STRUCT_INVALIDFRONTMATTER"@);
        },
        DiagnosticCode::InvalidKind => {
            reveal_strlit("InvalidKind");
            reveal_strlit("STRUCT_INVALIDKIND");
            assert(struct_code(code) =~= "STRUCT_INVALIDKIND"@);
        },
        DiagnosticCode::InvalidRoot => {
            reveal_strlit("InvalidRoot");
            reveal_strlit("STRUCT_INVALIDROOT");
            assert(struct_code(code) =~= "STRUCT_INVALIDROOT"@);
        },
        DiagnosticCode::InvalidSpecifies => {
            reveal_strlit("InvalidSpecifies");
            reveal_strlit("STRUCT_INVALIDSPECIFIES");
            assert(struct_code(code) =~= "STRUCT_INVALIDSPECIFIES"@);
        },
        DiagnosticCode::InvalidSpecifiesTarget => {
            reveal_strlit("InvalidSpecifiesTarget");
            reveal_strlit("STRUCT_INVALIDSPECIFIESTARGET");
            assert(struct_code(code) =~= "STRUCT_INVALIDSPECIFIESTARGET"@);
        },
        DiagnosticCode::InvalidCrossReference => {
            reveal_strlit("InvalidCrossReference");
            reveal_strlit("STRUCT_INVALIDCROSSREFERENCE");
            assert(struct_code(code) =~= "STRUCT_INVALIDCROSSREFERENCE"@);
        },
        DiagnosticCode::BrokenTargetFile => {
            reveal_strlit("BrokenTargetFile");
            reveal_strlit("STRUCT_BROKENTARGETFILE");
            assert(struct_code(code) =~= "STRUCT_BROKENTARGETFILE"@);
        },
        DiagnosticCode::BrokenTargetHeading => {
            reveal_strlit("BrokenTargetHeading");
            reveal_strlit("STRUCT_BROKENTARGETHEADING");
            assert(struct_code(code) =~= "STRUCT_BROKENTARGETHEADING"@);
        },
        DiagnosticCode::BrokenCrossReferenceFile => {
            reveal_strlit("BrokenCrossReferenceFile");
            reveal_strlit("STRUCT_BROKENCROSSREFERENCEFILE");
            assert(struct_code(code) =~= "STRUCT_BROKENCROSSREFERENCEFILE"@);
        },
        DiagnosticCode::BrokenCrossReferenceHeading => {
            reveal_strlit("BrokenCrossReferenceHeading");
            reveal_strlit("STRUCT_BROKENCROSSREFERENCEHEADING");
            assert(struct_code(code) =~= "STRUCT_BROKENCROSSREFERENCEHEADING"@);
        },
        DiagnosticCode::CycleDetected => {
            reveal_strlit("CycleDetected");
            reveal_strlit("STRUCT_CYCLEDETECTED");
            assert(struct_code(code) =~= "STRUCT_CYCLEDETECTED"@);
        },
        _ => {},
    }
}

proof fn lemma_mapped_stable(ds: Seq<DiagnosticView>, scope: Seq<Seq<char>>)
    ensures
        forall|k: int|
            0 <= k < mapped_diagnostics(ds, scope).len() ==> stable_structural(
                #[trigger] mapped_diagnostics(ds, scope)[k],
            ),
    decreases ds.len(),
{
    if ds.len() > 0 {
        lemma_mapped_stable(ds.drop_last(), scope);
        let prev = mapped_diagnostics(ds.drop_last(), scope);
        let cur = mapped_diagnostics(ds, scope);
        if is_graph_integrity(ds.last().code) {
            lemma_struct_code_listed(ds.last().code);
        }
        assert forall|k: int| 0 <= k < cur.len() implies stable_structural(#[trigger] cur[k]) by {
            if k < prev.len() {
                assert(cur[k] == prev[k]);
            } else {
                assert(cur[k] == diag_issue(ds.last()));
            }
        }
    }
}

proof fn lemma_root_kind_stable(rs: Seq<SpecView>)
    ensures
        forall|k: int| 0 <= k < root_kind_issues(rs).len() ==> stable_structural(#[trigger] root_kind_issues(rs)[k]),
    decreases rs.len(),
{
    if rs.len() > 0 {
        lemma_root_kind_stable(rs.drop_last());
        let prev = root_kind_issues(rs.drop_last());
        let cur = root_kind_issues(rs);
        assert forall|k: int| 0 <= k < cur.len() implies stable_structural(#[trigger] cur[k]) by {
            if k < prev.len() {
                assert(cur[k] == prev[k]);
            }
        }
    }
}

proof fn lemma_per_spec_stable(ss: Seq<SpecView>, all: Seq<SpecView>, scope: Seq<Seq<char>>)
    ensures
        forall|k: int|
            0 <= k < per_spec_issues(ss, all, scope).len() ==> stable_structural(
                #[trigger] per_spec_issues(ss, all, scope)[k],
            ),
    decreases ss.len(),
{
    if ss.len() > 0 {
        lemma_per_spec_stable(ss.drop_last(), all, scope);
        let a = per_spec_issues(ss.drop_last(), all, scope);
        let b = spec_issues(ss.last(), all, scope);
        assert forall|k: int| 0 <= k < (a + b).len() implies stable_structural(#[trigger] (a + b)[k]) by {
            if k >= a.len() {
                assert((a + b)[k] == b[k - a.len()]);
            }
        }
    }
}

/// Every structural issue of a parse has category `Structural` and a code
/// of the stable set.
pub proof fn lemma_structural_codes_stable(parsed: ParseResultView, scope: Seq<Seq<char>>)
    ensures
        forall|k: int|
            0 <= k < structural_of(parsed, scope).len() ==> stable_structural(
                #[trigger] structural_of(parsed, scope)[k],
            ),
{
    lemma_mapped_stable(parsed.diagnostics, scope);
    let ss = scoped(parsed.specs, scope);
    let rs = roots(ss);
    lemma_root_kind_stable(rs);
    lemma_per_spec_stable(ss, ss, scope);
    let a = mapped_diagnostics(parsed.diagnostics, scope);
    let m = root_multiple_issues(rs);
    let kd = root_kind_issues(rs);
    let p = per_spec_issues(ss, ss, scope);
    assert(policy_issues(parsed.specs, scope) == m + kd + p);
    let all = a + (m + kd + p);
    assert forall|k: int| 0 <= k < all.len() implies stable_structural(#[trigger] all[k]) by {
        if k < a.len() {
        } else if k < a.len() + m.len() {
            assert(all[k] == m[k - a.len()]);
        } else if k < a.len() + m.len() + kd.len() {
            assert(all[k] == kd[k - a.len() - m.len()]);
        } else {
            assert(all[k] == p[k - a.len() - m.len() - kd.len()]);
        }
    }
}

/// Ordering and de-duplication report only issues of their input.
pub proof fn lemma_finalized_from_input(issues: Seq<IssueView>)
    ensures
        forall|k: int| 0 <= k < finalized(issues).len() ==> issues.contains(#[trigger] finalized(issues)[k]),
{
    lemma_issue_le_total_preorder();
    lemma_stable_sort(issues, issue_le());
    let s = stable_sort(issues, issue_le());
    lemma_dedupe_subseq(s);
    broadcast use vstd::seq_lib::group_to_multiset_ensures;

    assert forall|k: int| 0 <= k < finalized(issues).len() implies issues.contains(#[trigger] finalized(issues)[k]) by {
        let x = finalized(issues)[k];
        assert(s.contains(x));
        assert(s.to_multiset().count(x) > 0);
        assert(issues.to_multiset().count(x) > 0);
    }
}

/// A structural lint report holds only issues of the stable code set.
pub proof fn lemma_report_codes_stable(parsed: ParseResultView, scope: Seq<Seq<char>>)
    ensures
        forall|k: int|
            0 <= k < finalized(structural_of(parsed, scope)).len() ==> stable_structural(
                #[trigger] finalized(structural_of(parsed, scope))[k],
            ),
{
    let issues = structural_of(parsed, scope);
    lemma_structural_codes_stable(parsed, scope);
    lemma_finalized_from_input(issues);
    assert forall|k: int| 0 <= k < finalized(issues).len() implies stable_structural(#[trigger] finalized(issues)[k]) by {
        let x = finalized(issues)[k];
        assert(issues.contains(x));
        let j = choose|j: int| 0 <= j < issues.len() && issues[j] == x;
        assert(stable_structural(issues[j]));
    }
}


// ---------------------------------------------------------------------------
// Nothing found is lost
// ---------------------------------------------------------------------------
/// Ordering and de-duplication lose no finding: every input issue has one
/// with its de-duplication key in the report.
pub proof fn lemma_report_keeps_every_finding(issues: Seq<IssueView>, i: int)
    requires
        0 <= i < issues.len(),
    ensures
        exists|j: int|
            0 <= j < finalized(issues).len() && dedupe_key(#[trigger] finalized(issues)[j])
                == dedupe_key(issues[i]),
{
    lemma_issue_le_total_preorder();
    lemma_stable_sort(issues, issue_le());
    let s = stable_sort(issues, issue_le());
    broadcast use vstd::seq_lib::group_to_multiset_ensures;

    assert(issues.to_multiset().count(issues[i]) > 0);
    assert(s.to_multiset().count(issues[i]) > 0);
    assert(s.contains(issues[i]));
    let q = choose|q: int| 0 <= q < s.len() && s[q] == issues[i];
    lemma_dedupe_keeps_keys(s, q);
    let k = choose|k: int| 0 <= k < dedupe(s).len() && dedupe_key(#[trigger] dedupe(s)[k]) == dedupe_key(s[q]);
    assert(finalized(issues)[k] == dedupe(s)[k]);
}

proof fn lemma_mapped_has(ds: Seq<DiagnosticView>, scope: Seq<Seq<char>>, k: int)
    requires
        0 <= k < ds.len(),
        is_graph_integrity(ds[k].code),
        diag_in_scope(ds[k], scope),
    ensures
        mapped_diagnostics(ds, scope).contains(diag_issue(ds[k])),
    decreases ds.len(),
{
    let prev = mapped_diagnostics(ds.drop_last(), scope);
    if k < ds.len() - 1 {
        assert(ds.drop_last()[k] == ds[k]);
        lemma_mapped_has(ds.drop_last(), scope, k);
        let j = choose|j: int| 0 <= j < prev.len() && prev[j] == diag_issue(ds[k]);
        assert(mapped_diagnostics(ds, scope)[j] == prev[j]);
    } else {
        assert(mapped_diagnostics(ds, scope) == prev.push(diag_issue(ds[k])));
        assert(mapped_diagnostics(ds, scope)[prev.len() as int] == diag_issue(ds[k]));
    }
}

/// Every graph-integrity diagnostic of the parser that falls in the lint
/// scope is reported: the report has an issue with its de-duplication key.
pub proof fn lemma_report_keeps_parser_findings(parsed: ParseResultView, scope: Seq<Seq<char>>, k: int)
    requires
        0 <= k < parsed.diagnostics.len(),
        is_graph_integrity(parsed.diagnostics[k].code),
        diag_in_scope(parsed.diagnostics[k], scope),
    ensures
        exists|j: int|
            0 <= j < finalized(structural_of(parsed, scope)).len() && dedupe_key(
                #[trigger] finalized(structural_of(parsed, scope))[j],
            ) == dedupe_key(diag_issue(parsed.diagnostics[k])),
{
    let a = mapped_diagnostics(parsed.diagnostics, scope);
    lemma_mapped_has(parsed.diagnostics, scope, k);
    let i = choose|i: int| 0 <= i < a.len() && a[i] == diag_issue(parsed.diagnostics[k]);
    let all = structural_of(parsed, scope);
    assert(all[i] == a[i]);
    lemma_report_keeps_every_finding(all, i);
}


/// A structural lint report is in report order and no two of its issues
/// share a de-duplication key.
pub proof fn lemma_lint_report_sorted_unique(parsed: ParseResultView, scope: Seq<Seq<char>>)
    ensures
        sorted_by(finalized(structural_of(parsed, scope)), issue_le()),
        forall|p: int, q: int|
            0 <= p < q < finalized(structural_of(parsed, scope)).len() ==> dedupe_key(
                #[trigger] finalized(structural_of(parsed, scope))[p],
            ) != dedupe_key(#[trigger] finalized(structural_of(parsed, scope))[q]),
{
    let issues = structural_of(parsed, scope);
    lemma_finalized_sorted(issues);
    lemma_dedupe_unique(stable_sort(issues, issue_le()));
}

} // verus!
