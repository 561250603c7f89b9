//! Which spec files a lint run looks at.
use vstd::prelude::*;
use crate::lint::types::LintError;
use crate::order::{lemma_stable_sort, sorted_by, stable_sort, total_preorder};
use crate::parse::corpus::{display_name, name_le, path_to_display_name, sort_names};
use crate::parse::file::contains_name;
use crate::parse::types::{
    Diagnostic, DiagnosticView, ParsedSpec, SpecView, specs_view, strings_view,
};
use crate::text::{
    char_lower, chars_trim, ends_with, lemma_seq_lt_irreflexive, lemma_seq_lt_total,
    lemma_seq_lt_transitive, lower_seq, str_chars, string_of, trim,
};

verus! {

/// `str::split` on one character.
pub open spec fn split_on(s: Seq<char>, c: char) -> Seq<Seq<char>>
    decreases s.len(),
{
    match s.index_of_first(c) {
        None => seq![s],
        Some(i) => {
            proof {
                s.index_of_first_ensures(c);
            }
            seq![s.take(i)] + split_on(s.skip(i + 1), c)
        },
    }
}

/// A path segment that a focus path may not have.
pub open spec fn bad_segment(seg: Seq<char>) -> bool {
    seg.len() == 0 || seg == seq!['.'] || seg == seq!['.', '.']
}

/// The focus path as a spec file name, or `None` when it is not a relative
/// path of a markdown file.
pub open spec fn focus_path_of(focus: Seq<char>) -> Option<Seq<char>> {
    let n = display_name(trim(focus));
    let segs = split_on(n, '/');
    if n.len() == 0 || n[0] == '/' || (exists|k: int| 0 <= k < segs.len() && bad_segment(
        #[trigger] segs[k],
    )) || !ends_with(lower_seq(n), seq!['.', 'm', 'd']) {
        None
    } else {
        Some(n)
    }
}

proof fn lemma_split_step(s: Seq<char>, lo: int, hi: int)
    requires
        0 <= lo <= hi <= s.len(),
        forall|j: int| lo <= j < hi ==> s[j] != '/',
        hi < s.len() ==> s[hi] == '/',
    ensures
        split_on(s.skip(lo), '/') == if hi == s.len() {
            seq![s.subrange(lo, hi)]
        } else {
            seq![s.subrange(lo, hi)] + split_on(s.skip(hi + 1), '/')
        },
{
    let t = s.skip(lo);
    t.index_of_first_ensures('/');
    if hi == s.len() {
        assert forall|j: int| 0 <= j < t.len() implies t[j] != '/' by {
            assert(t[j] == s[lo + j]);
        }
        assert(!t.contains('/'));
        assert(t =~= s.subrange(lo, hi));
    } else {
        assert(t[hi - lo] == '/');
        assert(t.contains('/'));
        assert forall|j: int| 0 <= j < hi - lo implies t[j] != '/' by {
            assert(t[j] == s[lo + j]);
        }
        assert(t.take(hi - lo) =~= s.subrange(lo, hi));
        assert(t.skip(hi - lo + 1) =~= s.skip(hi + 1));
    }
}

fn is_bad_segment(seg: &[char]) -> (r: bool)
    ensures
        r == bad_segment(seg@),
{
    let one = vec!['.'];
    let two = vec!['.', '.'];
    assert(one@ =~= seq!['.']);
    assert(two@ =~= seq!['.', '.']);
    seg.len() == 0 || crate::text::chars_eq(seg, one.as_slice()) || crate::text::chars_eq(
        seg,
        two.as_slice(),
    )
}

fn has_bad_segment(n: &[char]) -> (r: bool)
    ensures
        r == exists|k: int|
            0 <= k < split_on(n@, '/').len() && bad_segment(#[trigger] split_on(n@, '/')[k]),
{
    let ghost all = split_on(n@, '/');
    let mut lo: usize = 0;
    let ghost mut done: Seq<Seq<char>> = Seq::empty();
    assert(n@.skip(0) =~= n@);
    loop
        invariant
            lo <= n.len(),
            all == split_on(n@, '/'),
            all == done + split_on(n@.skip(lo as int), '/'),
            forall|k: int| 0 <= k < done.len() ==> !bad_segment(#[trigger] done[k]),
        decreases n.len() - lo,
    {
        let mut hi = lo;
        while hi < n.len() && n[hi] != '/'
            invariant
                lo <= hi <= n.len(),
                forall|j: int| lo <= j < hi ==> n@[j] != '/',
            decreases n.len() - hi,
        {
            hi = hi + 1;
        }
        proof {
            lemma_split_step(n@, lo as int, hi as int);
        }
        let seg = crate::text::slice_range(n, lo, hi);
        if is_bad_segment(seg.as_slice()) {
            assert(all[done.len() as int] == seg@);
            return true;
        }
        if hi == n.len() {
            assert forall|k: int| 0 <= k < all.len() implies !bad_segment(#[trigger] all[k]) by {
                if k < done.len() {
                    assert(all[k] == done[k]);
                } else {
                    assert(all[k] == seg@);
                }
            }
            return false;
        }
        proof {
            assert(all == (done + seq![seg@]) + split_on(n@.skip(hi + 1), '/'));
            done = done + seq![seg@];
        }
        lo = hi + 1;
    }
}

/// `normalize_focus_path`.
pub fn normalize_focus_path(focus: &str) -> (r: Option<String>)
    ensures
        match (r, focus_path_of(focus@)) {
            (None, None) => true,
            (Some(x), Some(y)) => x@ == y,
            _ => false,
        },
{
    let fc = str_chars(focus);
    let t = chars_trim(fc.as_slice());
    let ts = string_of(t.as_slice());
    let n = path_to_display_name(ts.as_str());
    let nc = str_chars(n.as_str());
    if nc.len() == 0 || nc[0] == '/' || has_bad_segment(nc.as_slice()) {
        return None;
    }
    let len = nc.len();
    let ok = len >= 3 && char_lower(nc[len - 3]) == '.' && char_lower(nc[len - 2]) == 'm'
        && char_lower(nc[len - 1]) == 'd';
    proof {
        let l = lower_seq(nc@);
        if len >= 3 {
            assert(l.skip(len - 3) =~= seq![
                crate::text::lower(nc@[len - 3]),
                crate::text::lower(nc@[len - 2]),
                crate::text::lower(nc@[len - 1]),
            ]);
        }
        assert(ok == ends_with(l, seq!['.', 'm', 'd']));
    }
    if !ok {
        return None;
    }
    Some(n)
}

/// Whether `x` is in the focused scope: the focused file, the files it
/// specifies, and the files that specify it.
pub open spec fn in_focus_scope(specs: Seq<SpecView>, focus: Seq<char>, x: Seq<char>) -> bool {
    ||| x == focus
    ||| exists|i: int, j: int|
        0 <= i < specs.len() && specs[i].file_name == focus && 0 <= j
            < specs[i].specifies.len() && (#[trigger] specs[i].specifies[j]).file_name == x
    ||| exists|i: int, j: int|
        0 <= i < specs.len() && specs[i].file_name == x && 0 <= j < specs[i].specifies.len()
            && (#[trigger] specs[i].specifies[j]).file_name == focus
}

/// The names of the specs.
pub open spec fn spec_names(specs: Seq<SpecView>) -> Seq<Seq<char>> {
    specs.map_values(|s: SpecView| s.file_name)
}

/// A scope: sorted, duplicate-free, with exactly the members `member` says.
pub open spec fn is_scope(v: Seq<Seq<char>>, member: spec_fn(Seq<char>) -> bool) -> bool {
    &&& sorted_by(v, name_le())
    &&& v.no_duplicates()
    &&& forall|x: Seq<char>| v.contains(x) <==> #[trigger] member(x)
}

pub proof fn lemma_name_le_total_preorder()
    ensures
        total_preorder(name_le()),
{
    assert forall|a: Seq<char>, b: Seq<char>| #[trigger] name_le()(a, b) || #[trigger] name_le()(
        b,
        a,
    ) by {
        lemma_seq_lt_total(a, b);
        if seq_lt_both(a, b) {
        }
        if a == b {
            lemma_seq_lt_irreflexive(a);
        }
        if crate::text::seq_lt(a, b) {
            crate::text::lemma_seq_lt_asymmetric(a, b);
        }
    }
    assert forall|a: Seq<char>, b: Seq<char>, c: Seq<char>| #[trigger] name_le()(a, b)
        && #[trigger] name_le()(b, c) implies name_le()(a, c) by {
        lemma_seq_lt_total(a, b);
        lemma_seq_lt_total(b, c);
        if crate::text::seq_lt(c, a) {
            if crate::text::seq_lt(a, b) {
                lemma_seq_lt_transitive(c, a, b);
            } else if a == b {
            }
        }
    }
}

spec fn seq_lt_both(a: Seq<char>, b: Seq<char>) -> bool {
    crate::text::seq_lt(a, b) && crate::text::seq_lt(b, a)
}

/// Adds a name unless it is there.
fn add_unique(v: &mut Vec<String>, x: String)
    requires
        strings_view(old(v)@).no_duplicates(),
    ensures
        strings_view(final(v)@).no_duplicates(),
        forall|y: Seq<char>| #[trigger]
            strings_view(final(v)@).contains(y) <==> strings_view(old(v)@).contains(y) || y == x@,
{
    if !contains_name(v, x.as_str()) {
        let ghost prev = strings_view(v@);
        v.push(x);
        assert(strings_view(v@) =~= prev.push(x@));
        proof {
            assert forall|y: Seq<char>| #[trigger] strings_view(v@).contains(y) <==> prev.contains(
                y,
            ) || y == x@ by {
                if strings_view(v@).contains(y) {
                    let k = choose|k: int| 0 <= k < strings_view(v@).len() && strings_view(v@)[k] == y;
                    if k < prev.len() {
                        assert(prev[k] == y);
                    }
                }
                if prev.contains(y) {
                    let k = choose|k: int| 0 <= k < prev.len() && prev[k] == y;
                    assert(strings_view(v@)[k] == y);
                }
                if y == x@ {
                    assert(strings_view(v@)[prev.len() as int] == y);
                }
            }
        }
    }
}

/// Sorting a duplicate-free list of names keeps it duplicate-free and keeps
/// its members.
proof fn lemma_sorted_scope(v: Seq<Seq<char>>)
    requires
        v.no_duplicates(),
    ensures
        sorted_by(stable_sort(v, name_le()), name_le()),
        stable_sort(v, name_le()).no_duplicates(),
        forall|x: Seq<char>| #[trigger] stable_sort(v, name_le()).contains(x) <==> v.contains(x),
{
    lemma_name_le_total_preorder();
    lemma_stable_sort(v, name_le());
    let r = stable_sort(v, name_le());
    broadcast use vstd::seq_lib::group_to_multiset_ensures;

    v.lemma_multiset_has_no_duplicates();
    r.lemma_multiset_has_no_duplicates_conv();
    assert forall|x: Seq<char>| #[trigger] r.contains(x) <==> v.contains(x) by {
        assert(r.to_multiset().count(x) == v.to_multiset().count(x));
    }
}

/// `resolve_scope`: all spec names without a focus; with one, the focused
/// file and its direct relationships. Sorted and duplicate-free.
pub fn resolve_scope(specs: &Vec<ParsedSpec>, focus: &Option<String>) -> (r: Result<
    Vec<String>,
    LintError,
>)
    ensures
        ({
            let sv = specs_view(specs@);
            match focus {
                None => r matches Ok(v) && is_scope(
                    strings_view(v@),
                    |x: Seq<char>| spec_names(sv).contains(x),
                ),
                Some(f) => match focus_path_of(f@) {
                    None => r matches Err(LintError::InvalidFocus { focus: e }) && e@ == f@,
                    Some(n) => if !spec_names(sv).contains(n) {
                        r matches Err(LintError::FocusNotFound { focus: e }) && e@ == n
                    } else {
                        r matches Ok(v) && is_scope(
                            strings_view(v@),
                            |x: Seq<char>| in_focus_scope(sv, n, x),
                        )
                    },
                },
            }
        }),
{
    let ghost sv = specs_view(specs@);
    let mut all: Vec<String> = Vec::new();
    let mut i: usize = 0;
    while i < specs.len()
        invariant
            i <= specs.len(),
            sv == specs_view(specs@),
            strings_view(all@).no_duplicates(),
            forall|y: Seq<char>| #[trigger]
                strings_view(all@).contains(y) <==> spec_names(sv.take(i as int)).contains(y),
        decreases specs.len() - i,
    {
        add_unique(&mut all, specs[i].file_name.clone());
        proof {
            assert(spec_names(sv.take(i + 1)) =~= spec_names(sv.take(i as int)).push(
                specs@[i as int].file_name@,
            ));
            assert forall|y: Seq<char>| #[trigger] spec_names(sv.take(i + 1)).contains(y) <==> (
            spec_names(sv.take(i as int)).contains(y) || y == specs@[i as int].file_name@) by {
                let a = spec_names(sv.take(i as int));
                let b = spec_names(sv.take(i + 1));
                if b.contains(y) {
                    let k = choose|k: int| 0 <= k < b.len() && b[k] == y;
                    if k < a.len() {
                        assert(a[k] == y);
                    }
                }
                if a.contains(y) {
                    let k = choose|k: int| 0 <= k < a.len() && a[k] == y;
                    assert(b[k] == y);
                }
                if y == specs@[i as int].file_name@ {
                    assert(b[a.len() as int] == y);
                }
            }
        }
        i = i + 1;
    }
    assert(sv.take(specs.len() as int) =~= sv);
    match focus {
        None => {
            let ghost av = strings_view(all@);
            let sorted = sort_names(all);
            proof {
                lemma_sorted_scope(av);
            }
            Ok(sorted)
        },
        Some(f) => {
            let n = match normalize_focus_path(f.as_str()) {
                None => {
                    return Err(LintError::InvalidFocus { focus: f.clone() });
                },
                Some(n) => n,
            };
            if !contains_name(&all, n.as_str()) {
                return Err(LintError::FocusNotFound { focus: n });
            }
            let mut scope: Vec<String> = Vec::new();
            add_unique(&mut scope, n.clone());
            let mut k: usize = 0;
            while k < specs.len()
                invariant
                    k <= specs.len(),
                    sv == specs_view(specs@),
                    strings_view(scope@).no_duplicates(),
                    forall|y: Seq<char>| #[trigger]
                        strings_view(scope@).contains(y) <==> (y == n@ || (exists|i: int, j: int|
                            0 <= i < k && sv[i].file_name == n@ && 0 <= j < sv[i].specifies.len()
                                && (#[trigger] sv[i].specifies[j]).file_name == y) || (exists|
                            i: int,
                            j: int,
                        |
                            0 <= i < k && sv[i].file_name == y && 0 <= j < sv[i].specifies.len()
                                && (#[trigger] sv[i].specifies[j]).file_name == n@)),
                decreases specs.len() - k,
            {
                let spec = &specs[k];
                let ghost before = strings_view(scope@);
                let ghost s_k = sv[k as int];
                assert(spec@ == s_k);
                let is_focus = crate::text::str_eq(spec.file_name.as_str(), n.as_str());
                let mut names_focus = false;
                let mut j: usize = 0;
                while j < spec.specifies.len()
                    invariant
                        j <= spec.specifies.len(),
                        spec@ == s_k,
                        strings_view(scope@).no_duplicates(),
                        names_focus == exists|q: int|
                            0 <= q < j && (#[trigger] s_k.specifies[q]).file_name == n@,
                        forall|y: Seq<char>| #[trigger]
                            strings_view(scope@).contains(y) <==> (before.contains(y) || (
                            is_focus && exists|q: int|
                                0 <= q < j && (#[trigger] s_k.specifies[q]).file_name == y)),
                        is_focus == (s_k.file_name == n@),
                    decreases spec.specifies.len() - j,
                {
                    let t = &spec.specifies[j];
                    assert(s_k.specifies[j as int] == t@);
                    if is_focus {
                        add_unique(&mut scope, t.file_name.clone());
                    }
                    if crate::text::str_eq(t.file_name.as_str(), n.as_str()) {
                        names_focus = true;
                    }
                    j = j + 1;
                }
                if names_focus {
                    add_unique(&mut scope, spec.file_name.clone());
                }
                proof {
                    assert forall|y: Seq<char>| #[trigger] strings_view(scope@).contains(y) <==> (y
                        == n@ || (exists|i: int, j: int|
                        0 <= i < k + 1 && sv[i].file_name == n@ && 0 <= j < sv[i].specifies.len()
                            && (#[trigger] sv[i].specifies[j]).file_name == y) || (exists|
                        i: int,
                        j: int,
                    |
                        0 <= i < k + 1 && sv[i].file_name == y && 0 <= j < sv[i].specifies.len()
                            && (#[trigger] sv[i].specifies[j]).file_name == n@)) by {
                        if is_focus && exists|q: int|
                            0 <= q < s_k.specifies.len() && (#[trigger] s_k.specifies[q]).file_name
                                == y {
                            let q = choose|q: int|
                                0 <= q < s_k.specifies.len() && (#[trigger] s_k.specifies[q]).file_name
                                    == y;
                            assert(sv[k as int].specifies[q].file_name == y);
                        }
                        if exists|i: int, j: int|
                            0 <= i < k + 1 && sv[i].file_name == n@ && 0 <= j
                                < sv[i].specifies.len() && (#[trigger] sv[i].specifies[j]).file_name
                                == y {
                            let (i, j) = choose|i: int, j: int|
                                0 <= i < k + 1 && sv[i].file_name == n@ && 0 <= j
                                    < sv[i].specifies.len() && (#[trigger] sv[i].specifies[j]).file_name
                                    == y;
                            if i == k {
                                assert(s_k.specifies[j].file_name == y);
                            }
                        }
                        if exists|i: int, j: int|
                            0 <= i < k + 1 && sv[i].file_name == y && 0 <= j
                                < sv[i].specifies.len() && (#[trigger] sv[i].specifies[j]).file_name
                                == n@ {
                            let (i, j) = choose|i: int, j: int|
                                0 <= i < k + 1 && sv[i].file_name == y && 0 <= j
                                    < sv[i].specifies.len() && (#[trigger] sv[i].specifies[j]).file_name
                                    == n@;
                            if i == k {
                                assert(s_k.specifies[j].file_name == n@);
                            }
                        }
                        if names_focus {
                            let q = choose|q: int|
                                0 <= q < s_k.specifies.len() && (#[trigger] s_k.specifies[q]).file_name
                                    == n@;
                            assert(sv[k as int].specifies[q].file_name == n@);
                        }
                    }
                }
                k = k + 1;
            }
            let ghost scv = strings_view(scope@);
            let sorted = sort_names(scope);
            proof {
                lemma_sorted_scope(scv);
                assert forall|x: Seq<char>| #[trigger] strings_view(sorted@).contains(x)
                    <==> in_focus_scope(sv, n@, x) by {}
            }
            Ok(sorted)
        },
    }
}

/// `diagnostic_in_scope`: a diagnostic without a location is always in scope.
pub open spec fn diag_in_scope(d: DiagnosticView, scope: Seq<Seq<char>>) -> bool {
    match d.location {
        Some(l) => scope.contains(l.file_name),
        None => true,
    }
}

pub fn diagnostic_in_scope(d: &Diagnostic, scope: &Vec<String>) -> (r: bool)
    ensures
        r == diag_in_scope(d@, strings_view(scope@)),
{
    match &d.location {
        Some(l) => contains_name(scope, l.file_name.as_str()),
        None => true,
    }
}

} // verus!
