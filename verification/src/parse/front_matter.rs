//! The YAML front matter block at the head of a spec file.
use vstd::prelude::*;
use crate::text::{chars_eq, chars_lines, join, join_chars, lines, str_chars, string_of};

verus! {

/// The `Specifies` value of the front matter, as far as the parser reads it.
#[derive(Debug, Clone, PartialEq, Eq)]
pub enum SpecifiesValue {
    /// A value that is not a YAML sequence.
    NotAList,
    /// A YAML sequence: each entry's text, or `None` for a non-string entry.
    List(Vec<Option<String>>),
}

/// The `Root` value of the front matter.
#[derive(Debug, Clone, Copy, PartialEq, Eq)]
pub enum RootValue {
    Flag(bool),
    /// A value that is not a boolean.
    NotAFlag,
}

/// The fields of a front matter block that deserialised.
#[derive(Debug, Clone, PartialEq, Eq, Default)]
pub struct FrontMatter {
    pub kind: Option<String>,
    pub specifies: Option<SpecifiesValue>,
    pub root: Option<RootValue>,
}

pub enum SpecifiesView {
    NotAList,
    List(Seq<Option<Seq<char>>>),
}

pub struct FrontMatterView {
    pub kind: Option<Seq<char>>,
    pub specifies: Option<SpecifiesView>,
    pub root: Option<RootValue>,
}

impl View for FrontMatter {
    type V = FrontMatterView;

    open spec fn view(&self) -> FrontMatterView {
        FrontMatterView {
            kind: crate::trusted::opt_string_view(self.kind),
            specifies: match self.specifies {
                None => None,
                Some(SpecifiesValue::NotAList) => Some(SpecifiesView::NotAList),
                Some(SpecifiesValue::List(v)) => Some(
                    SpecifiesView::List(crate::trusted::opt_strings_view(v@)),
                ),
            },
            root: self.root,
        }
    }
}

/// The front matter view of a block with no usable fields.
pub open spec fn empty_front_matter() -> FrontMatterView {
    FrontMatterView { kind: None, specifies: None, root: None }
}

/// The delimiter line.
pub open spec fn dash_line() -> Seq<char> {
    seq!['-', '-', '-']
}

/// Index of the first delimiter line at or after `k`.
pub open spec fn closing_from(ls: Seq<Seq<char>>, k: int) -> Option<int>
    decreases ls.len() - k,
{
    if k < 0 || k >= ls.len() {
        None
    } else if ls[k] == dash_line() {
        Some(k)
    } else {
        closing_from(ls, k + 1)
    }
}

/// How a file's content divides into front matter and body.
pub enum Split {
    /// The first line is not `---`.
    Missing,
    /// No later line is `---`.
    Unclosed,
    /// The lines between the delimiters, the lines after the closing one, and
    /// the number of lines up to and including the closing delimiter.
    Closed { yaml: Seq<char>, body: Seq<char>, end_line: nat },
}

pub open spec fn newline() -> Seq<char> {
    seq!['\n']
}

/// The split of a file's content.
pub open spec fn split_front_matter(content: Seq<char>) -> Split {
    let ls = lines(content);
    if ls.len() == 0 || ls[0] != dash_line() {
        Split::Missing
    } else {
        match closing_from(ls, 1) {
            None => Split::Unclosed,
            Some(k) => Split::Closed {
                yaml: join(ls.subrange(1, k), newline()),
                body: join(ls.skip(k + 1), newline()),
                end_line: (k + 1) as nat,
            },
        }
    }
}

/// The split, computed.
pub enum SplitExec {
    Missing,
    Unclosed,
    Closed { yaml: Vec<char>, body: Vec<char> },
}

pub open spec fn split_exec_matches(e: SplitExec, s: Split) -> bool {
    match (e, s) {
        (SplitExec::Missing, Split::Missing) => true,
        (SplitExec::Unclosed, Split::Unclosed) => true,
        (SplitExec::Closed { yaml, body }, Split::Closed { yaml: y, body: b, .. }) => yaml@ == y
            && body@ == b,
        _ => false,
    }
}

proof fn lemma_closing_from(ls: Seq<Seq<char>>, k: int, j: int)
    requires
        1 <= k <= j <= ls.len(),
        forall|q: int| k <= q < j ==> ls[q] != dash_line(),
    ensures
        closing_from(ls, k) == closing_from(ls, j),
    decreases j - k,
{
    if k < j {
        lemma_closing_from(ls, k + 1, j);
    }
}

/// Divides a file's content at its front matter delimiters.
pub fn split_content(content: &[char]) -> (r: SplitExec)
    ensures
        split_exec_matches(r, split_front_matter(content@)),
{
    let ls = chars_lines(content);
    let ghost lsv = ls@.map_values(|l: Vec<char>| l@);
    let dashes = vec!['-', '-', '-'];
    assert(dashes@ =~= dash_line());
    if ls.len() == 0 || !chars_eq(ls[0].as_slice(), dashes.as_slice()) {
        return SplitExec::Missing;
    }
    let mut k: usize = 1;
    while k < ls.len() && !chars_eq(ls[k].as_slice(), dashes.as_slice())
        invariant
            1 <= k <= ls.len(),
            lsv == ls@.map_values(|l: Vec<char>| l@),
            dashes@ == dash_line(),
            forall|q: int| 1 <= q < k ==> lsv[q] != dash_line(),
        decreases ls.len() - k,
    {
        k = k + 1;
    }
    proof {
        lemma_closing_from(lsv, 1, k as int);
    }
    if k == ls.len() {
        return SplitExec::Unclosed;
    }
    let nl = vec!['\n'];
    assert(nl@ =~= newline());
    let yaml_lines = slice_lines(&ls, 1, k);
    let body_lines = slice_lines(&ls, k + 1, ls.len());
    let yaml = join_chars(yaml_lines.as_slice(), nl.as_slice());
    let body = join_chars(body_lines.as_slice(), nl.as_slice());
    assert(lsv.subrange(1, k as int) =~= yaml_lines@.map_values(|l: Vec<char>| l@));
    assert(lsv.skip(k + 1) =~= body_lines@.map_values(|l: Vec<char>| l@));
    assert(ls@.subrange(1, k as int).map_values(|l: Vec<char>| l@) =~= lsv.subrange(1, k as int));
    assert(ls@.subrange(k + 1, ls.len() as int).map_values(|l: Vec<char>| l@) =~= lsv.skip(
        k + 1,
    ));
    SplitExec::Closed { yaml, body }
}

fn slice_lines(ls: &Vec<Vec<char>>, lo: usize, hi: usize) -> (r: Vec<Vec<char>>)
    requires
        lo <= hi <= ls.len(),
    ensures
        r@.map_values(|l: Vec<char>| l@) == ls@.subrange(lo as int, hi as int).map_values(
            |l: Vec<char>| l@,
        ),
{
    let ghost full = ls@.map_values(|l: Vec<char>| l@);
    let mut out: Vec<Vec<char>> = Vec::new();
    let mut i = lo;
    while i < hi
        invariant
            lo <= i <= hi <= ls.len(),
            full == ls@.map_values(|l: Vec<char>| l@),
            out@.map_values(|l: Vec<char>| l@) == full.subrange(lo as int, i as int),
        decreases hi - i,
    {
        let c = ls[i].clone();
        assert(c@ == full[i as int]);
        let ghost before = out@;
        out.push(c);
        assert(out@ == before.push(c));
        assert(out@.map_values(|l: Vec<char>| l@) =~= before.map_values(|l: Vec<char>| l@).push(
            c@,
        ));
        assert(out@.map_values(|l: Vec<char>| l@) =~= full.subrange(lo as int, i + 1));
        i = i + 1;
    }
    assert(ls@.subrange(lo as int, hi as int).map_values(|l: Vec<char>| l@) =~= full.subrange(
        lo as int,
        hi as int,
    ));
    out
}

/// The YAML text between the front matter delimiters of a spec file, when
/// both delimiters are there. This is the text whose deserialisation a
/// [`SpecFileInput`](crate::parse::corpus::SpecFileInput) carries.
pub fn front_matter_yaml_block(content: &str) -> (r: Option<String>)
    ensures
        match split_front_matter(content@) {
            Split::Closed { yaml, .. } => r.is_some() && r.unwrap()@ == yaml,
            _ => r.is_none(),
        },
{
    let chars = str_chars(content);
    match split_content(chars.as_slice()) {
        SplitExec::Closed { yaml, .. } => Some(string_of(yaml.as_slice())),
        _ => None,
    }
}

} // verus!
