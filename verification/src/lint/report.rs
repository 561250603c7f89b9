//! Summaries, exit codes and one-line renderings of issues and diagnostics.
use vstd::prelude::*;
use crate::lint::ordering::{
    IssueKey, category_name, category_name_str, key_lt, lemma_issue_le_total_preorder, loc_column,
    loc_file, loc_line, or_max,
};
use crate::lint::structural::{code_debug_name, code_debug_name_str, push_upper, upper_seq};
use crate::lint::types::{Confidence, IssueView, LintIssue, LintSeverity, issues_view};
use crate::order::{lemma_stable_sort, lemma_stable_sort_map, sort_stable, sorted_by, stable_sort, total_preorder};
use crate::parse::types::{
    Diagnostic, DiagnosticSeverity, DiagnosticView, LocationView, SourceLocation, diags_view,
    location_view,
};
use crate::text::{append_chars, chars_eq, chars_lt, decimal, decimal_chars, ends_with, push_str, starts_with, str_chars};

verus! {

/// Number of issues of a severity.
pub open spec fn count_severity(s: Seq<IssueView>, sev: LintSeverity) -> nat
    decreases s.len(),
{
    if s.len() == 0 {
        0
    } else {
        count_severity(s.drop_last(), sev) + if s.last().severity == sev {
            1nat
        } else {
            0nat
        }
    }
}

/// `summarize_severities`: (warnings, errors).
pub fn summarize_severities(issues: &Vec<LintIssue>) -> (r: (usize, usize))
    ensures
        r.0 as nat == count_severity(issues_view(issues@), LintSeverity::Warning),
        r.1 as nat == count_severity(issues_view(issues@), LintSeverity::Error),
{
    let ghost iv = issues_view(issues@);
    let mut w: usize = 0;
    let mut e: usize = 0;
    let mut i: usize = 0;
    while i < issues.len()
        invariant
            i <= issues.len(),
            iv == issues_view(issues@),
            w as nat == count_severity(iv.take(i as int), LintSeverity::Warning),
            e as nat == count_severity(iv.take(i as int), LintSeverity::Error),
            w + e <= i,
        decreases issues.len() - i,
    {
        assert(iv.take(i + 1).drop_last() =~= iv.take(i as int));
        assert(iv.take(i + 1).last() == issues@[i as int]@);
        match issues[i].severity {
            LintSeverity::Warning => w = w + 1,
            LintSeverity::Error => e = e + 1,
        }
        i = i + 1;
    }
    assert(iv.take(issues.len() as int) =~= iv);
    (w, e)
}

/// The exit code a lint run suggests: 2 with any error, 1 with only
/// warnings, 0 with no issue.
pub open spec fn exit_code_of(s: Seq<IssueView>) -> i32 {
    if count_severity(s, LintSeverity::Error) > 0 {
        2
    } else if count_severity(s, LintSeverity::Warning) > 0 {
        1
    } else {
        0
    }
}

/// `suggested_exit_code`.
pub fn suggested_exit_code(issues: &Vec<LintIssue>) -> (r: i32)
    ensures
        r == exit_code_of(issues_view(issues@)),
{
    let (warnings, errors) = summarize_severities(issues);
    if errors > 0 {
        2
    } else if warnings > 0 {
        1
    } else {
        0
    }
}

/// Every issue is a warning or an error, so the two counts add up.
pub proof fn lemma_counts_cover(s: Seq<IssueView>)
    ensures
        count_severity(s, LintSeverity::Warning) + count_severity(s, LintSeverity::Error) == s.len(),
    decreases s.len(),
{
    if s.len() > 0 {
        lemma_counts_cover(s.drop_last());
    }
}

/// The exit code is 0 exactly when there is no issue.
pub proof fn lemma_exit_code_zero_iff_empty(s: Seq<IssueView>)
    ensures
        exit_code_of(s) == 0 <==> s.len() == 0,
{
    lemma_counts_cover(s);
}

proof fn lemma_count_positive(s: Seq<IssueView>, sev: LintSeverity)
    ensures
        count_severity(s, sev) > 0 <==> exists|i: int| 0 <= i < s.len() && (#[trigger] s[i]).severity == sev,
    decreases s.len(),
{
    if s.len() > 0 {
        lemma_count_positive(s.drop_last(), sev);
        if exists|i: int| 0 <= i < s.len() && (#[trigger] s[i]).severity == sev {
            let i = choose|i: int| 0 <= i < s.len() && (#[trigger] s[i]).severity == sev;
            if i < s.len() - 1 {
                assert(s.drop_last()[i] == s[i]);
            }
        }
        if exists|i: int| 0 <= i < s.len() - 1 && (#[trigger] s.drop_last()[i]).severity == sev {
            let i = choose|i: int| 0 <= i < s.len() - 1 && (#[trigger] s.drop_last()[i]).severity == sev;
            assert(s[i] == s.drop_last()[i]);
        }
    }
}

/// The exit code follows the severities: 2 when any issue is an error, 1
/// when there are warnings and no error, 0 when there is no issue.
pub proof fn lemma_exit_code_matches_severity(s: Seq<IssueView>)
    ensures
        exit_code_of(s) == 2 <==> exists|i: int| 0 <= i < s.len() && (#[trigger] s[i]).severity == LintSeverity::Error,
        exit_code_of(s) == 1 <==> (exists|i: int| 0 <= i < s.len() && (#[trigger] s[i]).severity == LintSeverity::Warning)
            && !(exists|i: int| 0 <= i < s.len() && (#[trigger] s[i]).severity == LintSeverity::Error),
        exit_code_of(s) == 0 <==> s.len() == 0,
{
    lemma_count_positive(s, LintSeverity::Error);
    lemma_count_positive(s, LintSeverity::Warning);
    lemma_exit_code_zero_iff_empty(s);
}

pub open spec fn severity_word(s: LintSeverity) -> Seq<char> {
    match s {
        LintSeverity::Warning => "WARNING"@,
        LintSeverity::Error => "ERROR"@,
    }
}

pub open spec fn diag_severity_word(s: DiagnosticSeverity) -> Seq<char> {
    match s {
        DiagnosticSeverity::Warning => "WARNING"@,
        DiagnosticSeverity::Error => "ERROR"@,
    }
}

/// How a location prints: `file:line:column`, `file:line`, `file`, or
/// `<unknown>` without a location.
pub open spec fn location_text(l: Option<LocationView>) -> Seq<char> {
    match l {
        None => "<unknown>"@,
        Some(x) => match (x.line, x.column) {
            (Some(line), Some(column)) => x.file_name + ":"@ + decimal(line as nat) + ":"@
                + decimal(column as nat),
            (Some(line), None) => x.file_name + ":"@ + decimal(line as nat),
            _ => x.file_name,
        },
    }
}

pub open spec fn confidence_name(c: Confidence) -> Seq<char> {
    match c {
        Confidence::High => "high"@,
        Confidence::Medium => "medium"@,
        Confidence::Low => "low"@,
    }
}

pub open spec fn confidence_suffix(c: Option<Confidence>) -> Seq<char> {
    match c {
        None => Seq::empty(),
        Some(x) => " [confidence="@ + confidence_name(x) + "]"@,
    }
}

/// One line for an issue: severity, code, category, location, message and
/// an optional confidence note.
pub open spec fn issue_line(i: IssueView) -> Seq<char> {
    severity_word(i.severity) + " "@ + i.code + " "@ + category_name(i.category) + " "@
        + location_text(i.location) + " "@ + i.message + confidence_suffix(i.confidence)
}

/// How a formatted line ends: with the issue's message when it has no
/// confidence, else with a note naming its own confidence in lowercase.
pub open spec fn confidence_note_law(i: IssueView, line: Seq<char>) -> bool {
    match i.confidence {
        None => ends_with(line, i.message),
        Some(Confidence::High) => ends_with(line, " [confidence=high]"@),
        Some(Confidence::Medium) => ends_with(line, " [confidence=medium]"@),
        Some(Confidence::Low) => ends_with(line, " [confidence=low]"@),
    }
}

/// How a formatted line starts: `WARNING ` or `ERROR ` after the issue's
/// own severity, then its code and a space.
pub open spec fn line_head_law(i: IssueView, line: Seq<char>) -> bool {
    match i.severity {
        LintSeverity::Warning => starts_with(line, "WARNING "@ + i.code + " "@),
        LintSeverity::Error => starts_with(line, "ERROR "@ + i.code + " "@),
    }
}

/// The line of an issue starts with its severity in capitals, then its
/// code.
pub proof fn lemma_issue_line_head(i: IssueView)
    ensures
        line_head_law(i, issue_line(i)),
{
    reveal_strlit("WARNING ");
    reveal_strlit("ERROR ");
    reveal_strlit("WARNING");
    reveal_strlit("ERROR");
    reveal_strlit(" ");
    let h = severity_word(i.severity) + " "@ + i.code + " "@;
    let rest = category_name(i.category) + " "@ + location_text(i.location) + " "@ + i.message
        + confidence_suffix(i.confidence);
    assert(issue_line(i) =~= h + rest);
    assert((h + rest).take(h.len() as int) =~= h);
    match i.severity {
        LintSeverity::Warning => assert(h =~= "WARNING "@ + i.code + " "@),
        LintSeverity::Error => assert(h =~= "ERROR "@ + i.code + " "@),
    }
}

proof fn lemma_ends_with_concat(a: Seq<char>, b: Seq<char>)
    ensures
        ends_with(a + b, b),
{
    assert((a + b).skip((a + b).len() - b.len()) =~= b);
}

/// The line of an issue ends with its message, or, when the issue has a
/// confidence, with ` [confidence=high]`, ` [confidence=medium]` or
/// ` [confidence=low]` after its own confidence; the three notes differ.
pub proof fn lemma_issue_line_confidence(i: IssueView)
    ensures
        confidence_note_law(i, issue_line(i)),
        " [confidence=high]"@ != " [confidence=medium]"@,
        " [confidence=high]"@ != " [confidence=low]"@,
        " [confidence=medium]"@ != " [confidence=low]"@,
{
    reveal_strlit(" [confidence=high]");
    reveal_strlit(" [confidence=medium]");
    reveal_strlit(" [confidence=low]");
    reveal_strlit(" [confidence=");
    reveal_strlit("]");
    reveal_strlit("high");
    reveal_strlit("medium");
    reveal_strlit("low");
    let head = severity_word(i.severity) + " "@ + i.code + " "@ + category_name(i.category) + " "@
        + location_text(i.location) + " "@ + i.message;
    assert(issue_line(i) == head + confidence_suffix(i.confidence));
    match i.confidence {
        None => {
            assert(head + confidence_suffix(i.confidence) =~= head);
            let h0 = severity_word(i.severity) + " "@ + i.code + " "@ + category_name(i.category)
                + " "@ + location_text(i.location) + " "@;
            assert(head == h0 + i.message);
            lemma_ends_with_concat(h0, i.message);
        },
        Some(c) => {
            lemma_ends_with_concat(head, confidence_suffix(i.confidence));
            match c {
                Confidence::High => assert(confidence_suffix(i.confidence) =~= " [confidence=high]"@),
                Confidence::Medium => assert(confidence_suffix(i.confidence)
                    =~= " [confidence=medium]"@),
                Confidence::Low => assert(confidence_suffix(i.confidence) =~= " [confidence=low]"@),
            }
        },
    }
    assert(" [confidence=high]"@.len() != " [confidence=medium]"@.len());
    assert(" [confidence=high]"@[13] != " [confidence=low]"@[13]);
    assert(" [confidence=medium]"@.len() != " [confidence=low]"@.len());
}

fn push_location(out: &mut String, l: &Option<SourceLocation>)
    ensures
        final(out)@ == old(out)@ + location_text(location_view(*l)),
{
    match l {
        None => push_str(out, "<unknown>"),
        Some(x) => match (x.line, x.column) {
            (Some(line), Some(column)) => {
                push_str(out, x.file_name.as_str());
                push_str(out, ":");
                append_chars(out, decimal_chars(line).as_slice());
                push_str(out, ":");
                append_chars(out, decimal_chars(column).as_slice());
            },
            (Some(line), None) => {
                push_str(out, x.file_name.as_str());
                push_str(out, ":");
                append_chars(out, decimal_chars(line).as_slice());
            },
            _ => {
                push_str(out, x.file_name.as_str());
            },
        },
    }
}

/// `format_issue`.
pub fn format_issue(issue: &LintIssue) -> (r: String)
    ensures
        r@ == issue_line(issue@),
        confidence_note_law(issue@, r@),
        line_head_law(issue@, r@),
{
    let mut out = String::new();
    match issue.severity {
        LintSeverity::Warning => push_str(&mut out, "WARNING"),
        LintSeverity::Error => push_str(&mut out, "ERROR"),
    }
    push_str(&mut out, " ");
    push_str(&mut out, issue.code.as_str());
    push_str(&mut out, " ");
    push_str(&mut out, category_name_str(issue.category));
    push_str(&mut out, " ");
    push_location(&mut out, &issue.location);
    push_str(&mut out, " ");
    push_str(&mut out, issue.message.as_str());
    match issue.confidence {
        None => {},
        Some(c) => {
            push_str(&mut out, " [confidence=");
            match c {
                Confidence::High => push_str(&mut out, "high"),
                Confidence::Medium => push_str(&mut out, "medium"),
                Confidence::Low => push_str(&mut out, "low"),
            }
            push_str(&mut out, "]");
        },
    }
    proof {
        assert(Seq::<char>::empty() + severity_word(issue@.severity) =~= severity_word(
            issue@.severity,
        ));
        if issue.confidence.is_none() {
            assert(out@ =~= issue_line(issue@));
        } else {
            assert(out@ =~= issue_line(issue@));
        }
        lemma_issue_line_confidence(issue@);
        lemma_issue_line_head(issue@);
    }
    out
}

/// One line for a parser diagnostic: severity, code in uppercase, location
/// and message.
pub open spec fn diagnostic_line(d: DiagnosticView) -> Seq<char> {
    diag_severity_word(d.severity) + " "@ + upper_seq(code_debug_name(d.code)) + " "@
        + location_text(d.location) + " "@ + d.message
}

/// `format_diagnostic`.
pub fn format_diagnostic(d: &Diagnostic) -> (r: String)
    ensures
        r@ == diagnostic_line(d@),
{
    let mut out = String::new();
    match d.severity {
        DiagnosticSeverity::Warning => push_str(&mut out, "WARNING"),
        DiagnosticSeverity::Error => push_str(&mut out, "ERROR"),
    }
    push_str(&mut out, " ");
    push_upper(&mut out, code_debug_name_str(d.code));
    push_str(&mut out, " ");
    push_location(&mut out, &d.location);
    push_str(&mut out, " ");
    push_str(&mut out, d.message.as_str());
    assert(Seq::<char>::empty() + diag_severity_word(d.severity) =~= diag_severity_word(
        d.severity,
    ));
    assert(out@ =~= diagnostic_line(d@));
    out
}

/// Number of diagnostics of a severity.
pub open spec fn count_diag_severity(s: Seq<DiagnosticView>, sev: DiagnosticSeverity) -> nat
    decreases s.len(),
{
    if s.len() == 0 {
        0
    } else {
        count_diag_severity(s.drop_last(), sev) + if s.last().severity == sev {
            1nat
        } else {
            0nat
        }
    }
}

/// (warnings, errors) among parser diagnostics.
pub fn count_diagnostic_severities(ds: &Vec<Diagnostic>) -> (r: (usize, usize))
    ensures
        r.0 as nat == count_diag_severity(diags_view(ds@), DiagnosticSeverity::Warning),
        r.1 as nat == count_diag_severity(diags_view(ds@), DiagnosticSeverity::Error),
{
    let ghost dv = diags_view(ds@);
    let mut w: usize = 0;
    let mut e: usize = 0;
    let mut i: usize = 0;
    while i < ds.len()
        invariant
            i <= ds.len(),
            dv == diags_view(ds@),
            w as nat == count_diag_severity(dv.take(i as int), DiagnosticSeverity::Warning),
            e as nat == count_diag_severity(dv.take(i as int), DiagnosticSeverity::Error),
            w + e <= i,
        decreases ds.len() - i,
    {
        assert(dv.take(i + 1).drop_last() =~= dv.take(i as int));
        assert(dv.take(i + 1).last() == ds@[i as int]@);
        match ds[i].severity {
            DiagnosticSeverity::Warning => w = w + 1,
            DiagnosticSeverity::Error => e = e + 1,
        }
        i = i + 1;
    }
    assert(dv.take(ds.len() as int) =~= dv);
    (w, e)
}

/// `diagnostic_sort_key`: file, line, column, message; placed in the issue
/// key shape with empty category and code.
pub open spec fn diagnostic_key(d: DiagnosticView) -> IssueKey {
    (
        loc_file(d.location),
        loc_line(d.location),
        loc_column(d.location),
        Seq::empty(),
        Seq::empty(),
        d.message,
    )
}

pub open spec fn diagnostic_le() -> spec_fn(DiagnosticView, DiagnosticView) -> bool {
    |a: DiagnosticView, b: DiagnosticView| !key_lt(diagnostic_key(b), diagnostic_key(a))
}

pub open spec fn diag_le() -> spec_fn(Diagnostic, Diagnostic) -> bool {
    |a: Diagnostic, b: Diagnostic| diagnostic_le()(a@, b@)
}

fn diag_key_lt(a: &Diagnostic, b: &Diagnostic) -> (r: bool)
    ensures
        r == key_lt(diagnostic_key(a@), diagnostic_key(b@)),
{
    let (fa, la, ca) = match &a.location {
        Some(l) => (str_chars(l.file_name.as_str()), or_max_exec(l.line), or_max_exec(l.column)),
        None => (Vec::new(), usize::MAX, usize::MAX),
    };
    let (fb, lb, cb) = match &b.location {
        Some(l) => (str_chars(l.file_name.as_str()), or_max_exec(l.line), or_max_exec(l.column)),
        None => (Vec::new(), usize::MAX, usize::MAX),
    };
    proof {
        if a.location.is_none() {
            assert(fa@ =~= Seq::<char>::empty());
        }
        if b.location.is_none() {
            assert(fb@ =~= Seq::<char>::empty());
        }
    }
    let ma = str_chars(a.message.as_str());
    let mb = str_chars(b.message.as_str());
    if !chars_eq(fa.as_slice(), fb.as_slice()) {
        chars_lt(fa.as_slice(), fb.as_slice())
    } else if la != lb {
        la < lb
    } else if ca != cb {
        ca < cb
    } else {
        chars_lt(ma.as_slice(), mb.as_slice())
    }
}

fn or_max_exec(o: Option<usize>) -> (r: usize)
    ensures
        r as int == or_max(o),
{
    match o {
        Some(v) => v,
        None => usize::MAX,
    }
}

fn diag_le_exec(a: &Diagnostic, b: &Diagnostic) -> (r: bool)
    ensures
        r == diag_le()(*a, *b),
{
    !diag_key_lt(b, a)
}

pub proof fn lemma_diagnostic_le_total_preorder()
    ensures
        total_preorder(diagnostic_le()),
{
    lemma_issue_le_total_preorder();
    assert forall|a: DiagnosticView, b: DiagnosticView| #[trigger] diagnostic_le()(a, b)
        || #[trigger] diagnostic_le()(b, a) by {
        let ia = key_view(a);
        let ib = key_view(b);
        assert(crate::lint::ordering::issue_le()(ia, ib) || crate::lint::ordering::issue_le()(ib, ia));
    }
    assert forall|a: DiagnosticView, b: DiagnosticView, c: DiagnosticView| #[trigger] diagnostic_le()(
        a,
        b,
    ) && #[trigger] diagnostic_le()(b, c) implies diagnostic_le()(a, c) by {
        let (ia, ib, ic) = (key_view(a), key_view(b), key_view(c));
        assert(crate::lint::ordering::issue_le()(ia, ib));
        assert(crate::lint::ordering::issue_le()(ib, ic));
    }
}

/// An issue whose sort key is the diagnostic's key.
spec fn key_view(d: DiagnosticView) -> IssueView {
    IssueView {
        severity: LintSeverity::Error,
        category: crate::lint::types::LintCategory::Structure,
        code: Seq::empty(),
        message: d.message,
        location: d.location,
        confidence: None,
        evidence: Seq::empty(),
    }
}

/// Sorting diagnostics yields them in order of file, line, column and
/// message, as a rearrangement of the input.
pub proof fn lemma_sorted_diagnostics(ds: Seq<DiagnosticView>)
    ensures
        sorted_by(stable_sort(ds, diagnostic_le()), diagnostic_le()),
        stable_sort(ds, diagnostic_le()).to_multiset() == ds.to_multiset(),
{
    lemma_diagnostic_le_total_preorder();
    lemma_stable_sort(ds, diagnostic_le());
}

/// Sorts parser diagnostics stably by file, line, column and message, a
/// missing location sorting as an empty file name and a missing line or
/// column as `usize::MAX`.
pub fn sort_diagnostics(ds: Vec<Diagnostic>) -> (r: Vec<Diagnostic>)
    ensures
        diags_view(r@) == stable_sort(diags_view(ds@), diagnostic_le()),
{
    let r = sort_stable(ds, diag_le_exec, Ghost(diag_le()));
    proof {
        lemma_stable_sort_map(ds@, diag_le(), diagnostic_le(), |d: Diagnostic| d@);
    }
    r
}

} // verus!
