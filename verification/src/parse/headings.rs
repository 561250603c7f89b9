//! Markdown ATX headings of a spec body and their unique slugs.
use vstd::prelude::*;
use crate::parse::types::{Heading, HeadingView, headings_view};
use crate::slug::{normalise_slug, slug_of};
use crate::text::{
    append_vec, chars_lines, digit, chars_trim, chars_trim_start, decimal, decimal_chars, lines,
    slice_range, string_of, trim, trim_start,
};

verus! {

/// Number of leading `'#'` characters.
pub open spec fn hash_run(t: Seq<char>) -> nat
    decreases t.len(),
{
    if t.len() > 0 && t[0] == '#' {
        1 + hash_run(t.drop_first())
    } else {
        0
    }
}

/// A heading line, as (level, text): after leading whitespace, one to six
/// `'#'`, a space, and non-empty text once trimmed.
pub open spec fn heading_line(line: Seq<char>) -> Option<(nat, Seq<char>)> {
    let t = trim_start(line);
    let level = hash_run(t);
    let after = t.skip(level as int);
    let text = trim(after);
    if level == 0 || level > 6 || !(after.len() > 0 && after[0] == ' ') || text.len() == 0 {
        None
    } else {
        Some((level, text))
    }
}

/// The fence character of a line that opens or closes a fenced code block:
/// after leading whitespace, a run of at least three backticks or tildes.
pub open spec fn fence_of(line: Seq<char>) -> Option<char> {
    let t = trim_start(line);
    if t.len() >= 3 && (t[0] == '`' || t[0] == '~') && t[1] == t[0] && t[2] == t[0] {
        Some(t[0])
    } else {
        None
    }
}

/// The fence left open after the lines `ls`: a fence line opens one when
/// none is open, and a fence line of the same character closes it.
pub open spec fn open_fence(ls: Seq<Seq<char>>) -> Option<char>
    decreases ls.len(),
{
    if ls.len() == 0 {
        None
    } else {
        let prev = open_fence(ls.drop_last());
        match (prev, fence_of(ls.last())) {
            (None, Some(c)) => Some(c),
            (Some(o), Some(c)) => if c == o {
                None
            } else {
                prev
            },
            _ => prev,
        }
    }
}

/// The heading lines of a body in order, as (level, text, line number);
/// lines inside a fenced code block are not headings.
pub open spec fn raw_headings(ls: Seq<Seq<char>>) -> Seq<(nat, Seq<char>, nat)>
    decreases ls.len(),
{
    if ls.len() == 0 {
        Seq::empty()
    } else {
        let prev = raw_headings(ls.drop_last());
        if open_fence(ls.drop_last()) is Some {
            prev
        } else {
            match heading_line(ls.last()) {
                Some((level, text)) => prev.push((level, text, ls.len())),
                None => prev,
            }
        }
    }
}

/// A base slug with `-k` appended.
pub open spec fn suffixed(base: Seq<char>, k: nat) -> Seq<char> {
    base + seq!['-'] + decimal(k)
}

/// The least `j` from `k` on, trying at most `fuel` of them, whose suffixed
/// slug is not in `used` (the last one tried when none is).
pub open spec fn first_free(base: Seq<char>, used: Seq<Seq<char>>, k: nat, fuel: nat) -> nat
    decreases fuel,
{
    if fuel == 0 || !used.contains(suffixed(base, k)) {
        k
    } else {
        first_free(base, used, k + 1, (fuel - 1) as nat)
    }
}

/// The anchor a heading with base slug `base` gets after the anchors `used`:
/// the base itself when it is free, else the base with `-k` for the least
/// `k >= 1` that gives a free one.
pub open spec fn unique_slug(base: Seq<char>, used: Seq<Seq<char>>) -> Seq<char> {
    if !used.contains(base) {
        base
    } else {
        suffixed(base, first_free(base, used, 1, used.len()))
    }
}

/// The anchors of headings with the given base slugs, in order.
pub open spec fn unique_slugs(bases: Seq<Seq<char>>) -> Seq<Seq<char>>
    decreases bases.len(),
{
    if bases.len() == 0 {
        Seq::empty()
    } else {
        let prev = unique_slugs(bases.drop_last());
        prev.push(unique_slug(bases.last(), prev))
    }
}

/// The headings of a spec body.
pub open spec fn headings_of(body: Seq<char>) -> Seq<HeadingView> {
    let rs = raw_headings(lines(body));
    let bases = rs.map_values(|r: (nat, Seq<char>, nat)| slug_of(r.1));
    Seq::new(
        rs.len(),
        |i: int|
            HeadingView {
                level: rs[i].0,
                text: rs[i].1,
                slug: unique_slugs(bases)[i],
                line: rs[i].2,
            },
    )
}

proof fn lemma_unique_slugs_len(bases: Seq<Seq<char>>)
    ensures
        unique_slugs(bases).len() == bases.len(),
    decreases bases.len(),
{
    if bases.len() > 0 {
        lemma_unique_slugs_len(bases.drop_last());
    }
}

proof fn lemma_decimal_nonempty(n: nat)
    ensures
        decimal(n).len() >= 1,
        n >= 10 ==> decimal(n).len() >= 2,
    decreases n,
{
    if n >= 10 {
        lemma_decimal_nonempty(n / 10);
    }
}

proof fn lemma_digit_injective(a: nat, b: nat)
    requires
        a < 10,
        b < 10,
        digit(a) == digit(b),
    ensures
        a == b,
{
    assert(digit(a) as u32 == (a + 48) as u32);
    assert(digit(b) as u32 == (b + 48) as u32);
}

proof fn lemma_decimal_injective(a: nat, b: nat)
    requires
        decimal(a) == decimal(b),
    ensures
        a == b,
    decreases a,
{
    lemma_decimal_nonempty(a);
    lemma_decimal_nonempty(b);
    if a < 10 && b < 10 {
        assert(decimal(a) == seq![digit(a)]);
        assert(decimal(b) == seq![digit(b)]);
        assert(decimal(a)[0] == digit(a));
        assert(decimal(b)[0] == digit(b));
        lemma_digit_injective(a, b);
    } else if a >= 10 && b >= 10 {
        assert(decimal(a) == decimal(a / 10).push(digit(a % 10)));
        assert(decimal(b) == decimal(b / 10).push(digit(b % 10)));
        assert(decimal(a).last() == digit(a % 10));
        assert(decimal(b).last() == digit(b % 10));
        lemma_digit_injective(a % 10, b % 10);
        assert(decimal(a).drop_last() =~= decimal(a / 10));
        assert(decimal(b).drop_last() =~= decimal(b / 10));
        lemma_decimal_injective(a / 10, b / 10);
        assert(a == 10 * (a / 10) + a % 10);
        assert(b == 10 * (b / 10) + b % 10);
    } else {
        assert(decimal(a).len() == decimal(b).len());
    }
}

proof fn lemma_suffixed_distinct(base: Seq<char>, a: nat, b: nat)
    ensures
        suffixed(base, a) != base,
        a != b ==> suffixed(base, a) != suffixed(base, b),
{
    lemma_decimal_nonempty(a);
    if a != b && suffixed(base, a) == suffixed(base, b) {
        let n = base.len() + 1int;
        assert(suffixed(base, a).skip(n) =~= decimal(a));
        assert(suffixed(base, b).skip(n) =~= decimal(b));
        lemma_decimal_injective(a, b);
    }
}

/// The base and its first `k` suffixed forms.
spec fn tried(base: Seq<char>, k: nat) -> Set<Seq<char>> {
    Set::new(|x: Seq<char>| x == base || exists|j: nat| 1 <= j <= k && x == suffixed(base, j))
}

proof fn lemma_tried_len(base: Seq<char>, k: nat)
    ensures
        tried(base, k).finite(),
        tried(base, k).len() == k + 1,
    decreases k,
{
    if k == 0 {
        assert(tried(base, 0) =~= Set::empty().insert(base));
    } else {
        lemma_tried_len(base, (k - 1) as nat);
        let prev = tried(base, (k - 1) as nat);
        let x = suffixed(base, k);
        assert(tried(base, k) =~= prev.insert(x));
        lemma_suffixed_distinct(base, k, k);
        if prev.contains(x) {
            let j = choose|j: nat| 1 <= j <= k - 1 && x == suffixed(base, j);
            lemma_suffixed_distinct(base, k, j);
        }
    }
}

/// Not all of the base and its first `k` suffixed forms fit in a list of
/// fewer than `k + 1` entries.
proof fn lemma_too_many_used(base: Seq<char>, used: Seq<Seq<char>>, k: nat)
    requires
        used.contains(base),
        forall|j: nat| 1 <= j <= k ==> used.contains(#[trigger] suffixed(base, j)),
    ensures
        k + 1 <= used.len(),
{
    lemma_tried_len(base, k);
    assert(tried(base, k).subset_of(used.to_set()));
    used.lemma_cardinality_of_set();
    vstd::set_lib::lemma_len_subset(tried(base, k), used.to_set());
}

proof fn lemma_first_free_is_free(base: Seq<char>, used: Seq<Seq<char>>, k: nat, fuel: nat)
    requires
        k >= 1,
        used.contains(base),
        forall|j: nat| 1 <= j < k ==> used.contains(#[trigger] suffixed(base, j)),
        k - 1 + fuel >= used.len(),
    ensures
        !used.contains(suffixed(base, first_free(base, used, k, fuel))),
    decreases fuel,
{
    if fuel == 0 {
        if used.contains(suffixed(base, k)) {
            assert forall|j: nat| 1 <= j <= k implies used.contains(#[trigger] suffixed(base, j)) by {
                if j < k {
                }
            }
            lemma_too_many_used(base, used, k);
        }
    } else if used.contains(suffixed(base, k)) {
        assert forall|j: nat| 1 <= j < k + 1 implies used.contains(#[trigger] suffixed(base, j)) by {
            if j < k {
            }
        }
        lemma_first_free_is_free(base, used, k + 1, (fuel - 1) as nat);
    }
}

/// The anchors of one body are pairwise distinct.
pub proof fn lemma_unique_slugs_distinct(bases: Seq<Seq<char>>)
    ensures
        unique_slugs(bases).no_duplicates(),
    decreases bases.len(),
{
    lemma_unique_slugs_len(bases);
    if bases.len() > 0 {
        let prev = unique_slugs(bases.drop_last());
        lemma_unique_slugs_distinct(bases.drop_last());
        let b = bases.last();
        let x = unique_slug(b, prev);
        if prev.contains(b) {
            lemma_first_free_is_free(b, prev, 1, prev.len());
        }
        assert(!prev.contains(x));
        let all = prev.push(x);
        assert forall|p: int, q: int| 0 <= p < all.len() && 0 <= q < all.len() && p != q implies all[p]
            != all[q] by {
            if q == prev.len() {
                assert(prev.contains(all[p]));
            } else if p == prev.len() {
                assert(prev.contains(all[q]));
            } else {
                assert(all[p] == prev[p] && all[q] == prev[q]);
            }
        }
    }
}

/// No two headings of a body share an anchor.
pub proof fn lemma_heading_anchors_distinct(body: Seq<char>)
    ensures
        forall|p: int, q: int|
            0 <= p < q < headings_of(body).len() ==> (#[trigger] headings_of(body)[p]).slug
                != (#[trigger] headings_of(body)[q]).slug,
{
    let rs = raw_headings(lines(body));
    let bases = rs.map_values(|r: (nat, Seq<char>, nat)| slug_of(r.1));
    lemma_unique_slugs_distinct(bases);
    lemma_unique_slugs_len(bases);
}

proof fn lemma_hash_run(t: Seq<char>)
    ensures
        hash_run(t) <= t.len(),
        forall|j: int| 0 <= j < hash_run(t) ==> t[j] == '#',
        hash_run(t) < t.len() ==> t[hash_run(t) as int] != '#',
    decreases t.len(),
{
    if t.len() > 0 && t[0] == '#' {
        lemma_hash_run(t.drop_first());
        assert forall|j: int| 0 <= j < hash_run(t) implies t[j] == '#' by {
            if j > 0 {
                assert(t[j] == t.drop_first()[j - 1]);
            }
        }
        if hash_run(t) < t.len() {
            assert(t[hash_run(t) as int] == t.drop_first()[hash_run(t.drop_first()) as int]);
        }
    }
}

/// The level and text of a heading line, if it is one.
fn parse_heading_line(line: &[char]) -> (r: Option<(usize, Vec<char>)>)
    ensures
        match (r, heading_line(line@)) {
            (None, None) => true,
            (Some((l, t)), Some((sl, st))) => l == sl && t@ == st,
            _ => false,
        },
{
    let t = chars_trim_start(line);
    proof {
        lemma_hash_run(t@);
    }
    let mut level: usize = 0;
    while level < t.len() && t[level] == '#'
        invariant
            level <= t.len(),
            level <= hash_run(t@),
            hash_run(t@) <= t.len(),
            forall|j: int| 0 <= j < hash_run(t@) ==> t@[j] == '#',
            hash_run(t@) < t.len() ==> t@[hash_run(t@) as int] != '#',
        decreases t.len() - level,
    {
        level = level + 1;
    }
    assert(level == hash_run(t@));
    if level == 0 || level > 6 {
        return None;
    }
    let after = slice_range(t.as_slice(), level, t.len());
    assert(after@ =~= t@.skip(level as int));
    if !(after.len() > 0 && after[0] == ' ') {
        return None;
    }
    let text = chars_trim(after.as_slice());
    if text.len() == 0 {
        return None;
    }
    Some((level, text))
}

proof fn lemma_unique_slugs_prefix(bases: Seq<Seq<char>>, n: int)
    requires
        0 <= n <= bases.len(),
    ensures
        unique_slugs(bases.take(n)) == unique_slugs(bases).take(n),
    decreases bases.len(),
{
    lemma_unique_slugs_len(bases);
    if n == bases.len() {
        assert(bases.take(n) =~= bases);
        assert(unique_slugs(bases).take(n) =~= unique_slugs(bases));
    } else {
        assert(bases.take(n) =~= bases.drop_last().take(n));
        lemma_unique_slugs_prefix(bases.drop_last(), n);
        lemma_unique_slugs_len(bases.drop_last());
        assert(unique_slugs(bases).take(n) =~= unique_slugs(bases.drop_last()).take(n));
    }
}

pub open spec fn chars_seqs(v: Seq<Vec<char>>) -> Seq<Seq<char>> {
    v.map_values(|c: Vec<char>| c@)
}

fn has_chars(v: &Vec<Vec<char>>, x: &Vec<char>) -> (r: bool)
    ensures
        r == chars_seqs(v@).contains(x@),
{
    let mut i: usize = 0;
    while i < v.len()
        invariant
            i <= v.len(),
            forall|j: int| 0 <= j < i ==> v@[j]@ != x@,
        decreases v.len() - i,
    {
        if crate::text::chars_eq(v[i].as_slice(), x.as_slice()) {
            assert(chars_seqs(v@)[i as int] == x@);
            return true;
        }
        i = i + 1;
    }
    proof {
        if chars_seqs(v@).contains(x@) {
            let j = choose|j: int| 0 <= j < chars_seqs(v@).len() && chars_seqs(v@)[j] == x@;
            assert(v@[j]@ == x@);
        }
    }
    false
}

fn copy_chars(v: &Vec<char>) -> (r: Vec<char>)
    ensures
        r@ == v@,
{
    let mut r: Vec<char> = Vec::new();
    append_vec(&mut r, v.as_slice());
    assert(r@ =~= v@);
    r
}

fn suffixed_exec(base: &Vec<char>, k: usize) -> (r: Vec<char>)
    ensures
        r@ == suffixed(base@, k as nat),
{
    let mut r = copy_chars(base);
    r.push('-');
    let d = decimal_chars(k);
    append_vec(&mut r, d.as_slice());
    r
}

/// The anchor of a heading with base slug `base` after the anchors `used`.
fn unique_slug_exec(base: &Vec<char>, used: &Vec<Vec<char>>) -> (r: Vec<char>)
    requires
        used.len() < usize::MAX,
    ensures
        r@ == unique_slug(base@, chars_seqs(used@)),
{
    let ghost uv = chars_seqs(used@);
    if !has_chars(used, base) {
        return copy_chars(base);
    }
    let mut k: usize = 1;
    let mut fuel: usize = used.len();
    loop
        invariant
            uv == chars_seqs(used@),
            used.len() < usize::MAX,
            k >= 1,
            k + fuel == used.len() + 1,
            first_free(base@, uv, 1, uv.len()) == first_free(base@, uv, k as nat, fuel as nat),
        ensures
            first_free(base@, uv, 1, uv.len()) == k,
        decreases fuel,
    {
        if fuel == 0 {
            break;
        }
        let cand = suffixed_exec(base, k);
        if !has_chars(used, &cand) {
            break;
        }
        k = k + 1;
        fuel = fuel - 1;
    }
    suffixed_exec(base, k)
}

fn fence_of_exec(line: &[char]) -> (r: Option<char>)
    ensures
        r == fence_of(line@),
{
    let t = chars_trim_start(line);
    if t.len() >= 3 && (t[0] == '`' || t[0] == '~') && t[1] == t[0] && t[2] == t[0] {
        Some(t[0])
    } else {
        None
    }
}

/// `extract_headings`: the headings of a spec body, outside fenced code
/// blocks, with pairwise distinct anchors.
pub fn extract_headings(body: &str) -> (r: Vec<Heading>)
    ensures
        headings_view(r@) == headings_of(body@),
{
    let cs = crate::text::str_chars(body);
    headings_of_chars(cs.as_slice())
}

/// The headings of a body given as characters.
pub(crate) fn headings_of_chars(body: &[char]) -> (r: Vec<Heading>)
    ensures
        headings_view(r@) == headings_of(body@),
{
    let ls = chars_lines(body);
    let ghost lsv = ls@.map_values(|l: Vec<char>| l@);
    let mut levels: Vec<usize> = Vec::new();
    let mut texts: Vec<Vec<char>> = Vec::new();
    let mut numbers: Vec<usize> = Vec::new();
    let mut fence: Option<char> = None;
    let mut i: usize = 0;
    while i < ls.len()
        invariant
            i <= ls.len(),
            lsv == ls@.map_values(|l: Vec<char>| l@),
            lsv == lines(body@),
            fence == open_fence(lsv.take(i as int)),
            levels.len() == texts.len(),
            levels.len() == numbers.len(),
            levels.len() == raw_headings(lsv.take(i as int)).len(),
            forall|q: int| 0 <= q < levels.len() ==> #[trigger] levels@[q] <= 6,
            forall|k: int|
                0 <= k < levels.len() ==> (#[trigger] raw_headings(lsv.take(i as int))[k]) == (
                levels@[k] as nat,
                texts@[k]@,
                numbers@[k] as nat,
                ),
        decreases ls.len() - i,
    {
        let ghost prev = raw_headings(lsv.take(i as int));
        assert(lsv.take(i + 1).drop_last() =~= lsv.take(i as int));
        assert(lsv.take(i + 1).last() == ls@[i as int]@);
        if fence.is_none() {
            match parse_heading_line(ls[i].as_slice()) {
                Some((level, text)) => {
                    levels.push(level);
                    texts.push(text);
                    numbers.push(i + 1);
                    assert(raw_headings(lsv.take(i + 1)) == prev.push(
                        (level as nat, texts@[texts.len() - 1]@, (i + 1) as nat),
                    ));
                },
                None => {},
            }
        }
        let f = fence_of_exec(ls[i].as_slice());
        fence = match (fence, f) {
            (None, Some(c)) => Some(c),
            (Some(o), Some(c)) => if c == o {
                None
            } else {
                Some(o)
            },
            _ => fence,
        };
        i = i + 1;
    }
    assert(lsv.take(ls.len() as int) =~= lsv);
    let ghost rs = raw_headings(lsv);
    assert(rs == raw_headings(lines(body@)));
    let ghost bases = rs.map_values(|x: (nat, Seq<char>, nat)| slug_of(x.1));
    // base slugs
    let mut base_list: Vec<Vec<char>> = Vec::new();
    let mut k: usize = 0;
    while k < texts.len()
        invariant
            k <= texts.len(),
            texts.len() == rs.len(),
            forall|q: int| 0 <= q < texts.len() ==> (#[trigger] rs[q]).1 == texts@[q]@,
            bases == rs.map_values(|x: (nat, Seq<char>, nat)| slug_of(x.1)),
            base_list.len() == k,
            forall|q: int| 0 <= q < k ==> (#[trigger] base_list@[q])@ == bases[q],
        decreases texts.len() - k,
    {
        let s = normalise_slug(&string_of(texts[k].as_slice()));
        base_list.push(crate::text::str_chars(s.as_str()));
        k = k + 1;
    }
    assert(base_list@.map_values(|c: Vec<char>| c@) =~= bases);
    proof {
        lemma_unique_slugs_len(bases);
    }
    let mut used: Vec<Vec<char>> = Vec::new();
    let mut out: Vec<Heading> = Vec::new();
    let mut m: usize = 0;
    while m < texts.len()
        invariant
            m <= texts.len(),
            texts.len() == rs.len(),
            levels.len() == rs.len(),
            numbers.len() == rs.len(),
            base_list.len() == rs.len(),
            base_list@.map_values(|c: Vec<char>| c@) == bases,
            bases == rs.map_values(|x: (nat, Seq<char>, nat)| slug_of(x.1)),
            rs == raw_headings(lines(body@)),
            bases.len() == rs.len(),
            unique_slugs(bases).len() == bases.len(),
            used.len() == m,
            chars_seqs(used@) == unique_slugs(bases.take(m as int)),
            forall|q: int|
                0 <= q < rs.len() ==> (#[trigger] rs[q]) == (
                    levels@[q] as nat,
                    texts@[q]@,
                    numbers@[q] as nat,
                ),
            forall|q: int| 0 <= q < levels.len() ==> #[trigger] levels@[q] <= 6,
            out.len() == m,
            forall|q: int| 0 <= q < m ==> (#[trigger] out@[q])@ == headings_of(body@)[q],
        decreases texts.len() - m,
    {
        let slug = unique_slug_exec(&base_list[m], &used);
        assert(bases[m as int] == base_list@[m as int]@);
        proof {
            assert(bases.take(m + 1).drop_last() =~= bases.take(m as int));
            lemma_unique_slugs_prefix(bases, m + 1);
            assert(unique_slugs(bases.take(m + 1))[m as int] == unique_slugs(bases)[m as int]);
        }
        let ghost sv = chars_seqs(used@);
        used.push(copy_chars(&slug));
        assert(chars_seqs(used@) =~= sv.push(slug@));
        let h = Heading {
            level: level_u8(levels[m]),
            text: string_of(texts[m].as_slice()),
            slug: string_of(slug.as_slice()),
            line: numbers[m],
        };
        assert(h@.slug == unique_slugs(bases)[m as int]);
        assert(h@.level == rs[m as int].0);
        assert(h@.text == rs[m as int].1);
        assert(h@.line == rs[m as int].2);
        assert(h@ == headings_of(body@)[m as int]);
        out.push(h);
        m = m + 1;
    }
    assert(headings_view(out@) =~= headings_of(body@));
    out
}

fn level_u8(l: usize) -> (r: u8)
    requires
        l <= 6,
    ensures
        r as nat == l as nat,
{
    l as u8
}

} // verus!
