//! Turning the findings of the semantic checks into lint issues.
use vstd::prelude::*;
use crate::lint::types::{Confidence, IssueView, LintCategory, LintIssue, LintSeverity, issues_view};
use crate::llm::error::InvocationError;
use crate::parse::types::{LocationView, SourceLocation, in_file};
use crate::text::{chars_trim, owned, push_str, str_chars, string_of, trim};

verus! {

/// One finding of the contradiction check.
#[derive(Debug, Clone)]
pub struct ContradictionFinding {
    pub is_contradiction: bool,
    pub confidence: Confidence,
    pub file_a: String,
    pub file_b: String,
    pub message: String,
    pub evidence_a: String,
    pub evidence_b: String,
}

/// One finding of the gap check.
#[derive(Debug, Clone)]
pub struct GapFinding {
    pub has_gap: bool,
    pub confidence: Confidence,
    pub message: String,
    pub location_file: String,
    pub evidence: String,
}

/// One finding of the ambiguity check.
#[derive(Debug, Clone)]
pub struct AmbiguityFinding {
    pub confidence: Confidence,
    pub location_file: String,
    pub message: String,
    pub evidence: String,
}

/// A location naming a file, or none for an empty name.
pub open spec fn file_location(file: Seq<char>) -> Option<LocationView> {
    if file.len() == 0 {
        None
    } else {
        in_file(file)
    }
}

fn file_location_exec(file: &String) -> (r: Option<SourceLocation>)
    ensures
        crate::parse::types::location_view(r) == file_location(file@),
{
    if str_chars(file.as_str()).len() == 0 {
        None
    } else {
        Some(SourceLocation { file_name: file.clone(), line: None, column: None })
    }
}

pub open spec fn evidence_line(file: Seq<char>, text: Seq<char>) -> Seq<char> {
    file + ": "@ + text
}

/// The issue a contradiction finding becomes, if it reports one.
pub open spec fn contradiction_issue(f: ContradictionFinding) -> Option<IssueView> {
    if !f.is_contradiction {
        None
    } else {
        Some(
            IssueView {
                severity: LintSeverity::Error,
                category: LintCategory::Contradiction,
                code: "SEM_CONTRADICTION"@,
                message: f.message@,
                location: in_file(f.file_a@),
                confidence: Some(f.confidence),
                evidence: seq![
                    evidence_line(f.file_a@, f.evidence_a@),
                    evidence_line(f.file_b@, f.evidence_b@),
                ],
            },
        )
    }
}

/// The issue a gap finding becomes, if it reports one.
pub open spec fn gap_issue(f: GapFinding) -> Option<IssueView> {
    if !f.has_gap {
        None
    } else {
        Some(
            IssueView {
                severity: LintSeverity::Warning,
                category: LintCategory::Gap,
                code: "SEM_GAP"@,
                message: f.message@,
                location: file_location(f.location_file@),
                confidence: Some(f.confidence),
                evidence: seq![f.evidence@],
            },
        )
    }
}

/// The issue an ambiguity finding becomes.
pub open spec fn ambiguity_issue(f: AmbiguityFinding) -> IssueView {
    IssueView {
        severity: LintSeverity::Warning,
        category: LintCategory::Ambiguity,
        code: "SEM_AMBIGUITY"@,
        message: f.message@,
        location: file_location(f.location_file@),
        confidence: Some(f.confidence),
        evidence: seq![f.evidence@],
    }
}

pub open spec fn present(s: Seq<Option<IssueView>>) -> Seq<IssueView>
    decreases s.len(),
{
    if s.len() == 0 {
        Seq::empty()
    } else {
        match s.last() {
            Some(i) => present(s.drop_last()).push(i),
            None => present(s.drop_last()),
        }
    }
}

proof fn lemma_present_from(s: Seq<Option<IssueView>>)
    ensures
        forall|k: int|
            0 <= k < present(s).len() ==> exists|j: int|
                0 <= j < s.len() && s[j] == Some(#[trigger] present(s)[k]),
    decreases s.len(),
{
    if s.len() > 0 {
        let p = s.drop_last();
        lemma_present_from(p);
        assert forall|k: int| 0 <= k < present(s).len() implies exists|j: int|
            0 <= j < s.len() && s[j] == Some(#[trigger] present(s)[k]) by {
            if k < present(p).len() {
                assert(present(s)[k] == present(p)[k]);
                let j = choose|j: int| 0 <= j < p.len() && p[j] == Some(present(p)[k]);
                assert(s[j] == p[j]);
            } else {
                assert(s[s.len() - 1] == Some(present(s)[k]));
            }
        }
    }
}

/// The severity of a semantic finding's issue: a contradiction is an error,
/// a gap or an ambiguity a warning; each issue carries its check's category
/// and the finding's message and confidence.
pub proof fn lemma_semantic_severities(c: ContradictionFinding, g: GapFinding, a: AmbiguityFinding)
    ensures
        contradiction_issue(c) is Some <==> c.is_contradiction,
        contradiction_issue(c) matches Some(i) ==> i.severity == LintSeverity::Error && i.category
            == LintCategory::Contradiction && i.message == c.message@ && i.confidence == Some(
            c.confidence,
        ),
        gap_issue(g) is Some <==> g.has_gap,
        gap_issue(g) matches Some(i) ==> i.severity == LintSeverity::Warning && i.category
            == LintCategory::Gap && i.message == g.message@ && i.confidence == Some(g.confidence),
        ambiguity_issue(a).severity == LintSeverity::Warning,
        ambiguity_issue(a).category == LintCategory::Ambiguity,
        ambiguity_issue(a).message == a.message@,
        ambiguity_issue(a).confidence == Some(a.confidence),
{
}

fn evidence_text(file: &str, text: &str) -> (r: String)
    ensures
        r@ == evidence_line(file@, text@),
{
    crate::parse::file::cat3(file, ": ", text)
}

/// The issues of the contradiction findings that report one, in order.
pub fn contradiction_issues(findings: &Vec<ContradictionFinding>) -> (r: Vec<LintIssue>)
    ensures
        issues_view(r@) == present(
            findings@.map_values(|f: ContradictionFinding| contradiction_issue(f)),
        ),
        forall|k: int|
            0 <= k < r.len() ==> (#[trigger] r@[k]).severity == LintSeverity::Error
                && r@[k].category == LintCategory::Contradiction,
{
    let ghost fs = findings@.map_values(|f: ContradictionFinding| contradiction_issue(f));
    let mut out: Vec<LintIssue> = Vec::new();
    let mut i: usize = 0;
    while i < findings.len()
        invariant
            i <= findings.len(),
            fs == findings@.map_values(|f: ContradictionFinding| contradiction_issue(f)),
            issues_view(out@) == present(fs.take(i as int)),
        decreases findings.len() - i,
    {
        let f = &findings[i];
        assert(fs.take(i + 1).drop_last() =~= fs.take(i as int));
        assert(fs.take(i + 1).last() == contradiction_issue(*f));
        if f.is_contradiction {
            let mut evidence: Vec<String> = Vec::new();
            evidence.push(evidence_text(f.file_a.as_str(), f.evidence_a.as_str()));
            evidence.push(evidence_text(f.file_b.as_str(), f.evidence_b.as_str()));
            let issue = LintIssue {
                severity: LintSeverity::Error,
                category: LintCategory::Contradiction,
                code: owned("SEM_CONTRADICTION"),
                message: f.message.clone(),
                location: Some(
                    SourceLocation { file_name: f.file_a.clone(), line: None, column: None },
                ),
                confidence: Some(f.confidence),
                evidence,
            };
            assert(issue@.evidence =~= seq![
                evidence_line(f.file_a@, f.evidence_a@),
                evidence_line(f.file_b@, f.evidence_b@),
            ]);
            assert(contradiction_issue(*f) == Some(issue@));
            let ghost prev = issues_view(out@);
            out.push(issue);
            assert(issues_view(out@) =~= prev.push(issue@));
        }
        i = i + 1;
    }
    assert(fs.take(findings.len() as int) =~= fs);
    proof {
        lemma_present_from(fs);
        assert forall|k: int| 0 <= k < out.len() implies (#[trigger] out@[k]).severity
            == LintSeverity::Error && out@[k].category == LintCategory::Contradiction by {
            assert(issues_view(out@)[k] == out@[k]@);
            let j = choose|j: int| 0 <= j < fs.len() && fs[j] == Some(present(fs)[k]);
            assert(fs[j] == contradiction_issue(findings@[j]));
        }
    }
    out
}

/// The issues of the gap findings that report one, in order.
pub fn gap_issues(findings: &Vec<GapFinding>) -> (r: Vec<LintIssue>)
    ensures
        issues_view(r@) == present(findings@.map_values(|f: GapFinding| gap_issue(f))),
        forall|k: int|
            0 <= k < r.len() ==> (#[trigger] r@[k]).severity == LintSeverity::Warning
                && r@[k].category == LintCategory::Gap,
{
    let ghost fs = findings@.map_values(|f: GapFinding| gap_issue(f));
    let mut out: Vec<LintIssue> = Vec::new();
    let mut i: usize = 0;
    while i < findings.len()
        invariant
            i <= findings.len(),
            fs == findings@.map_values(|f: GapFinding| gap_issue(f)),
            issues_view(out@) == present(fs.take(i as int)),
        decreases findings.len() - i,
    {
        let f = &findings[i];
        assert(fs.take(i + 1).drop_last() =~= fs.take(i as int));
        assert(fs.take(i + 1).last() == gap_issue(*f));
        if f.has_gap {
            let mut evidence: Vec<String> = Vec::new();
            evidence.push(f.evidence.clone());
            let issue = LintIssue {
                severity: LintSeverity::Warning,
                category: LintCategory::Gap,
                code: owned("SEM_GAP"),
                message: f.message.clone(),
                location: file_location_exec(&f.location_file),
                confidence: Some(f.confidence),
                evidence,
            };
            assert(issue@.evidence =~= seq![f.evidence@]);
            assert(gap_issue(*f) == Some(issue@));
            let ghost prev = issues_view(out@);
            out.push(issue);
            assert(issues_view(out@) =~= prev.push(issue@));
        }
        i = i + 1;
    }
    assert(fs.take(findings.len() as int) =~= fs);
    proof {
        lemma_present_from(fs);
        assert forall|k: int| 0 <= k < out.len() implies (#[trigger] out@[k]).severity
            == LintSeverity::Warning && out@[k].category == LintCategory::Gap by {
            assert(issues_view(out@)[k] == out@[k]@);
            let j = choose|j: int| 0 <= j < fs.len() && fs[j] == Some(present(fs)[k]);
            assert(fs[j] == gap_issue(findings@[j]));
        }
    }
    out
}

/// The issues of the ambiguity findings, in order.
pub fn ambiguity_issues(findings: &Vec<AmbiguityFinding>) -> (r: Vec<LintIssue>)
    ensures
        issues_view(r@) == findings@.map_values(|f: AmbiguityFinding| ambiguity_issue(f)),
        r.len() == findings.len(),
        forall|k: int|
            0 <= k < r.len() ==> {
                &&& (#[trigger] r@[k]).severity == LintSeverity::Warning
                &&& r@[k].category == LintCategory::Ambiguity
                &&& r@[k].message@ == findings@[k].message@
                &&& r@[k].confidence == Some(findings@[k].confidence)
            },
{
    let ghost fs = findings@.map_values(|f: AmbiguityFinding| ambiguity_issue(f));
    let mut out: Vec<LintIssue> = Vec::new();
    let mut i: usize = 0;
    while i < findings.len()
        invariant
            i <= findings.len(),
            fs == findings@.map_values(|f: AmbiguityFinding| ambiguity_issue(f)),
            issues_view(out@) == fs.take(i as int),
        decreases findings.len() - i,
    {
        let f = &findings[i];
        let mut evidence: Vec<String> = Vec::new();
        evidence.push(f.evidence.clone());
        let issue = LintIssue {
            severity: LintSeverity::Warning,
            category: LintCategory::Ambiguity,
            code: owned("SEM_AMBIGUITY"),
            message: f.message.clone(),
            location: file_location_exec(&f.location_file),
            confidence: Some(f.confidence),
            evidence,
        };
        assert(issue@.evidence =~= seq![f.evidence@]);
        assert(fs[i as int] == issue@);
        let ghost prev = issues_view(out@);
        out.push(issue);
        assert(issues_view(out@) =~= prev.push(issue@));
        assert(fs.take(i + 1) =~= fs.take(i as int).push(fs[i as int]));
        assert(issues_view(out@) =~= fs.take(i + 1));
        i = i + 1;
    }
    assert(fs.take(findings.len() as int) =~= fs);
    proof {
        assert forall|k: int| 0 <= k < out.len() implies {
            &&& (#[trigger] out@[k]).severity == LintSeverity::Warning
            &&& out@[k].category == LintCategory::Ambiguity
            &&& out@[k].message@ == findings@[k].message@
            &&& out@[k].confidence == Some(findings@[k].confidence)
        } by {
            assert(issues_view(out@)[k] == out@[k]@);
            assert(fs[k] == ambiguity_issue(findings@[k]));
        }
    }
    out
}

pub open spec fn msg_missing_content() -> Seq<char> {
    "missing assistant content"@
}

/// The JSON text of a structured reply: the first choice's content,
/// trimmed, or an invalid-response error when there is none.
pub fn structured_content(content: Option<&str>) -> (r: Result<String, InvocationError>)
    ensures
        match content {
            None => r matches Err(InvocationError::InvalidResponse(m)) && m@ == msg_missing_content(),
            Some(c) => r matches Ok(s) && s@ == trim(c@),
        },
{
    match content {
        None => Err(InvocationError::InvalidResponse(owned("missing assistant content"))),
        Some(c) => {
            let cs = str_chars(c);
            let t = chars_trim(cs.as_slice());
            Ok(string_of(t.as_slice()))
        },
    }
}

} // verus!
