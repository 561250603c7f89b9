//! Report order and de-duplication of lint issues.
use vstd::prelude::*;
use crate::lint::types::{IssueView, LintCategory, LintIssue, issues_view};
use crate::order::{lemma_stable_sort, lemma_stable_sort_map, sort_stable, sorted_by, stable_sort, total_preorder};
use crate::parse::types::LocationView;
use crate::text::{
    chars_eq, chars_lt, lemma_seq_lt_asymmetric, lemma_seq_lt_irreflexive, lemma_seq_lt_total,
    lemma_seq_lt_transitive, seq_lt, str_chars,
};

verus! {

/// The name `{:?}` prints for a category.
pub open spec fn category_name(c: LintCategory) -> Seq<char> {
    match c {
        LintCategory::Structure => "Structural"@,
        LintCategory::Contradiction => "Contradiction"@,
        LintCategory::Gap => "Gap"@,
        LintCategory::Ambiguity => "Ambiguity"@,
    }
}

pub fn category_name_str(c: LintCategory) -> (r: &'static str)
    ensures
        r@ == category_name(c),
{
    match c {
        LintCategory::Structure => "Structural",
        LintCategory::Contradiction => "Contradiction",
        LintCategory::Gap => "Gap",
        LintCategory::Ambiguity => "Ambiguity",
    }
}

/// A missing line or column sorts last.
pub open spec fn or_max(o: Option<usize>) -> int {
    match o {
        Some(v) => v as int,
        None => usize::MAX as int,
    }
}

pub open spec fn loc_file(l: Option<LocationView>) -> Seq<char> {
    match l {
        Some(x) => x.file_name,
        None => Seq::empty(),
    }
}

pub open spec fn loc_line(l: Option<LocationView>) -> int {
    match l {
        Some(x) => or_max(x.line),
        None => usize::MAX as int,
    }
}

pub open spec fn loc_column(l: Option<LocationView>) -> int {
    match l {
        Some(x) => or_max(x.column),
        None => usize::MAX as int,
    }
}

/// The sort key of an issue: file, line, column, category name, code,
/// message.
pub type IssueKey = (Seq<char>, int, int, Seq<char>, Seq<char>, Seq<char>);

pub open spec fn issue_key(i: IssueView) -> IssueKey {
    (
        loc_file(i.location),
        loc_line(i.location),
        loc_column(i.location),
        category_name(i.category),
        i.code,
        i.message,
    )
}

/// Lexicographic order of sort keys.
pub open spec fn key_lt(a: IssueKey, b: IssueKey) -> bool {
    if a.0 != b.0 {
        seq_lt(a.0, b.0)
    } else if a.1 != b.1 {
        a.1 < b.1
    } else if a.2 != b.2 {
        a.2 < b.2
    } else if a.3 != b.3 {
        seq_lt(a.3, b.3)
    } else if a.4 != b.4 {
        seq_lt(a.4, b.4)
    } else {
        seq_lt(a.5, b.5)
    }
}

/// Issue order: by sort key.
pub open spec fn issue_le() -> spec_fn(IssueView, IssueView) -> bool {
    |a: IssueView, b: IssueView| !key_lt(issue_key(b), issue_key(a))
}

proof fn lemma_seq_lt_props()
    ensures
        forall|a: Seq<char>, b: Seq<char>| #[trigger] seq_lt(a, b) ==> !seq_lt(b, a) && a != b,
        forall|a: Seq<char>, b: Seq<char>| a != b ==> #[trigger] seq_lt(a, b) || seq_lt(b, a),
        forall|a: Seq<char>, b: Seq<char>, c: Seq<char>| #[trigger] seq_lt(a, b) && #[trigger] seq_lt(b, c) ==> seq_lt(a, c),
{
    assert forall|a: Seq<char>, b: Seq<char>| #[trigger] seq_lt(a, b) implies !seq_lt(b, a) && a != b by {
        lemma_seq_lt_asymmetric(a, b);
    }
    assert forall|a: Seq<char>, b: Seq<char>| a != b implies #[trigger] seq_lt(a, b) || seq_lt(b, a) by {
        lemma_seq_lt_total(a, b);
    }
    assert forall|a: Seq<char>, b: Seq<char>, c: Seq<char>| #[trigger] seq_lt(a, b) && #[trigger] seq_lt(b, c) implies seq_lt(a, c) by {
        lemma_seq_lt_transitive(a, b, c);
    }
}

proof fn lemma_key_lt_props()
    ensures
        forall|a: IssueKey, b: IssueKey| #[trigger] key_lt(a, b) ==> !key_lt(b, a),
        forall|a: IssueKey, b: IssueKey| a != b ==> #[trigger] key_lt(a, b) || key_lt(b, a),
        forall|a: IssueKey, b: IssueKey, c: IssueKey| #[trigger] key_lt(a, b) && #[trigger] key_lt(b, c) ==> key_lt(a, c),
        forall|a: IssueKey| !key_lt(a, a),
{
    lemma_seq_lt_props();
    assert forall|a: IssueKey| !key_lt(a, a) by {
        lemma_seq_lt_irreflexive(a.5);
    }
}

pub proof fn lemma_issue_le_total_preorder()
    ensures
        total_preorder(issue_le()),
{
    lemma_key_lt_props();
    assert forall|a: IssueView, b: IssueView| #[trigger] issue_le()(a, b) || #[trigger] issue_le()(b, a) by {
        if key_lt(issue_key(b), issue_key(a)) {
            assert(!key_lt(issue_key(a), issue_key(b)));
        }
    }
    assert forall|a: IssueView, b: IssueView, c: IssueView| #[trigger] issue_le()(a, b) && #[trigger] issue_le()(b, c) implies issue_le()(a, c) by {
        let (ka, kb, kc) = (issue_key(a), issue_key(b), issue_key(c));
        if key_lt(kc, ka) {
            if ka == kb {
            } else {
                assert(key_lt(ka, kb));
                assert(key_lt(kc, kb));
            }
        }
    }
}

fn or_max_exec(o: Option<usize>) -> (r: usize)
    ensures
        r as int == or_max(o),
{
    match o {
        Some(v) => v,
        None => usize::MAX,
    }
}

/// The parts of an issue's sort key.
fn key_parts(i: &LintIssue) -> (r: (Vec<char>, usize, usize, Vec<char>, Vec<char>, Vec<char>))
    ensures
        issue_key(i@) == (r.0@, r.1 as int, r.2 as int, r.3@, r.4@, r.5@),
{
    let (file, line, column) = match &i.location {
        Some(l) => (str_chars(l.file_name.as_str()), or_max_exec(l.line), or_max_exec(l.column)),
        None => (Vec::new(), usize::MAX, usize::MAX),
    };
    proof {
        if i.location.is_none() {
            assert(file@ =~= Seq::<char>::empty());
        }
    }
    (
        file,
        line,
        column,
        str_chars(category_name_str(i.category)),
        str_chars(i.code.as_str()),
        str_chars(i.message.as_str()),
    )
}

fn key_lt_exec(a: &LintIssue, b: &LintIssue) -> (r: bool)
    ensures
        r == key_lt(issue_key(a@), issue_key(b@)),
{
    let ka = key_parts(a);
    let kb = key_parts(b);
    if !chars_eq(ka.0.as_slice(), kb.0.as_slice()) {
        chars_lt(ka.0.as_slice(), kb.0.as_slice())
    } else if ka.1 != kb.1 {
        ka.1 < kb.1
    } else if ka.2 != kb.2 {
        ka.2 < kb.2
    } else if !chars_eq(ka.3.as_slice(), kb.3.as_slice()) {
        chars_lt(ka.3.as_slice(), kb.3.as_slice())
    } else if !chars_eq(ka.4.as_slice(), kb.4.as_slice()) {
        chars_lt(ka.4.as_slice(), kb.4.as_slice())
    } else {
        chars_lt(ka.5.as_slice(), kb.5.as_slice())
    }
}

pub open spec fn lint_issue_le() -> spec_fn(LintIssue, LintIssue) -> bool {
    |a: LintIssue, b: LintIssue| issue_le()(a@, b@)
}

fn issue_le_exec(a: &LintIssue, b: &LintIssue) -> (r: bool)
    ensures
        r == lint_issue_le()(*a, *b),
{
    !key_lt_exec(b, a)
}

/// `sort_issues`: stable sort by file, line, column, category name, code and
/// message; a missing location sorts as an empty file name, a missing line
/// or column as `usize::MAX`.
pub fn sort_issues(issues: Vec<LintIssue>) -> (r: Vec<LintIssue>)
    ensures
        issues_view(r@) == stable_sort(issues_view(issues@), issue_le()),
        sorted_by(issues_view(r@), issue_le()),
        issues_view(r@).to_multiset() == issues_view(issues@).to_multiset(),
{
    let r = sort_stable(issues, issue_le_exec, Ghost(lint_issue_le()));
    proof {
        lemma_stable_sort_map(issues@, lint_issue_le(), issue_le(), |i: LintIssue| i@);
        lemma_issue_le_total_preorder();
        lemma_stable_sort(issues_view(issues@), issue_le());
    }
    r
}

/// The de-duplication key: category, code, message and location, a missing
/// location counting as an empty file name with no line or column.
pub type DedupeKey = (LintCategory, Seq<char>, Seq<char>, Seq<char>, int, int);

pub open spec fn dedupe_key(i: IssueView) -> DedupeKey {
    (
        i.category,
        i.code,
        i.message,
        loc_file(i.location),
        loc_line(i.location),
        loc_column(i.location),
    )
}

/// The first issue of each de-duplication key, in order.
pub open spec fn dedupe(s: Seq<IssueView>) -> Seq<IssueView>
    decreases s.len(),
{
    if s.len() == 0 {
        Seq::empty()
    } else {
        let prev = dedupe(s.drop_last());
        if prev.map_values(|i: IssueView| dedupe_key(i)).contains(dedupe_key(s.last())) {
            prev
        } else {
            prev.push(s.last())
        }
    }
}

fn same_dedupe_key(a: &LintIssue, b: &LintIssue) -> (r: bool)
    ensures
        r == (dedupe_key(a@) == dedupe_key(b@)),
{
    let ka = key_parts(a);
    let kb = key_parts(b);
    a.category == b.category && chars_eq(ka.4.as_slice(), kb.4.as_slice()) && chars_eq(
        ka.5.as_slice(),
        kb.5.as_slice(),
    ) && chars_eq(ka.0.as_slice(), kb.0.as_slice()) && ka.1 == kb.1 && ka.2 == kb.2
}

/// `dedupe_issues`: keeps the first issue of each de-duplication key.
pub fn dedupe_issues(issues: Vec<LintIssue>) -> (r: Vec<LintIssue>)
    ensures
        issues_view(r@) == dedupe(issues_view(issues@)),
        crate::lint::api::dedupe_law(issues_view(issues@), issues_view(r@)),
{
    let ghost all = issues_view(issues@);
    let mut rest = issues;
    let mut out: Vec<LintIssue> = Vec::new();
    let mut n: usize = 0;
    assert(all.len() == rest.len());
    while rest.len() > 0
        invariant
            issues_view(rest@) == all.skip(n as int),
            n + rest.len() == all.len(),
            all.len() <= usize::MAX,
            issues_view(out@) == dedupe(all.take(n as int)),
        decreases rest.len(),
    {
        let ghost r0 = rest@;
        let x = rest.remove(0);
        assert(rest@ =~= r0.subrange(1, r0.len() as int));
        assert(x == r0[0]);
        assert(issues_view(r0)[0] == all.skip(n as int)[0]);
        assert(x@ == all[n as int]);
        assert(issues_view(rest@) =~= all.skip(n + 1)) by {
            assert(issues_view(rest@) =~= issues_view(r0).subrange(1, r0.len() as int));
        }
        assert(all.take(n + 1).drop_last() =~= all.take(n as int));
        assert(all.take(n + 1).last() == x@);
        let ghost ov = issues_view(out@);
        let mut found = false;
        let mut j: usize = 0;
        while j < out.len()
            invariant
                j <= out.len(),
                ov == issues_view(out@),
                found == exists|q: int| 0 <= q < j && dedupe_key(ov[q]) == dedupe_key(x@),
            decreases out.len() - j,
        {
            assert(ov[j as int] == out@[j as int]@);
            if same_dedupe_key(&out[j], &x) {
                found = true;
            }
            j = j + 1;
        }
        proof {
            let keys = ov.map_values(|i: IssueView| dedupe_key(i));
            if found {
                let q = choose|q: int| 0 <= q < out.len() && dedupe_key(ov[q]) == dedupe_key(x@);
                assert(keys[q] == dedupe_key(x@));
            }
            if keys.contains(dedupe_key(x@)) {
                let q = choose|q: int| 0 <= q < keys.len() && keys[q] == dedupe_key(x@);
                assert(dedupe_key(ov[q]) == dedupe_key(x@));
            }
        }
        if !found {
            out.push(x);
            assert(issues_view(out@) =~= ov.push(all[n as int]));
        }
        n = n + 1;
    }
    assert(all.take(n as int) =~= all);
    proof {
        crate::lint::api::lemma_dedupe_law(all);
    }
    out
}

} // verus!
