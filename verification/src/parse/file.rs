//! Parsing one spec file: front matter fields, headings and local links.
use vstd::prelude::*;
use crate::parse::front_matter::{
    FrontMatter, FrontMatterView, RootValue, Split, SpecifiesValue, SpecifiesView, SplitExec,
    empty_front_matter, split_content, split_front_matter,
};
use crate::parse::headings::headings_of;
use crate::parse::types::{
    Diagnostic, DiagnosticCode, DiagnosticSeverity, DiagnosticView, Heading, HeadingView,
    ParsedSpec, SpecKind, SpecTarget, TargetView, at_file_start, diag, diags_view,
    headings_view, in_file, loc_file_start, loc_in_file, make_diag, strings_view, targets_view,
};
use crate::slug::{normalise_slug, slug_of};
use crate::text::{
    chars_starts_with, chars_trim, is_ascii_alnum, owned, push_str, slice_range, starts_with, str_chars, str_eq,
    string_of, trim,
};
use crate::trusted::{
    markdown_link_destinations, markdown_link_events, regex_captures,
};

verus! {

// ---------------------------------------------------------------------------
// Messages
// ---------------------------------------------------------------------------
pub open spec fn msg_missing_kind(file: Seq<char>) -> Seq<char> {
    "Declare Kind in front matter for '"@ + file + "'."@
}

pub open spec fn msg_invalid_kind(file: Seq<char>) -> Seq<char> {
    "Use a valid Kind in '"@ + file
        + "': feature | behavioural | interface | constraint | context."@
}

pub open spec fn msg_specifies_not_list(file: Seq<char>) -> Seq<char> {
    "Set Specifies in '"@ + file + "' as a YAML list of target strings."@
}

pub open spec fn msg_specifies_non_string(file: Seq<char>) -> Seq<char> {
    "Use string entries in Specifies for '"@ + file + "'; reject non-string values."@
}

pub open spec fn msg_target_format(file: Seq<char>, raw: Seq<char>) -> Seq<char> {
    "Use Specifies target format file.md#heading-slug in '"@ + file + "': '"@ + raw + "'."@
}

pub open spec fn msg_target_empty(file: Seq<char>, raw: Seq<char>) -> Seq<char> {
    "Use non-empty heading slug in Specifies target for '"@ + file + "': '"@ + raw + "'."@
}

pub open spec fn msg_invalid_root(file: Seq<char>) -> Seq<char> {
    "Set Root in '"@ + file + "' to a boolean (true or false)."@
}

pub open spec fn msg_front_matter_missing() -> Seq<char> {
    "Start file with YAML front matter delimited by '---'."@
}

pub open spec fn msg_front_matter_unclosed() -> Seq<char> {
    "Close YAML front matter with a terminating '---' line."@
}

pub open spec fn msg_front_matter_yaml(file: Seq<char>, err: Seq<char>) -> Seq<char> {
    "Parse YAML front matter in '"@ + file + "' correctly: "@ + err
}

pub open spec fn msg_read_failed(file: Seq<char>, err: Seq<char>) -> Seq<char> {
    "Read '"@ + file + "' failed: "@ + err
}

pub open spec fn msg_local_link(raw: Seq<char>, file: Seq<char>) -> Seq<char> {
    "Resolve local heading link '#"@ + raw + "' in '"@ + file + "'."@
}

pub open spec fn msg_link_format(file: Seq<char>, dest: Seq<char>) -> Seq<char> {
    "Use local spec link format file.md or file.md#heading-slug in '"@ + file + "': '"@ + dest
        + "'."@
}

pub open spec fn msg_link_file(dest: Seq<char>, file: Seq<char>) -> Seq<char> {
    "Resolve cross-reference '"@ + dest + "' in '"@ + file + "' to an existing spec file."@
}

/// `a + b + c` as a fresh string.
pub fn cat3(a: &str, b: &str, c: &str) -> (r: String)
    ensures
        r@ == a@ + b@ + c@,
{
    let mut s = String::new();
    push_str(&mut s, a);
    push_str(&mut s, b);
    push_str(&mut s, c);
    assert(Seq::<char>::empty() + a@ =~= a@);
    s
}

/// `a + b + c + d` as a fresh string.
pub fn cat4(a: &str, b: &str, c: &str, d: &str) -> (r: String)
    ensures
        r@ == a@ + b@ + c@ + d@,
{
    let mut s = cat3(a, b, c);
    push_str(&mut s, d);
    s
}

/// `a + b + c + d + e` as a fresh string.
pub fn cat5(a: &str, b: &str, c: &str, d: &str, e: &str) -> (r: String)
    ensures
        r@ == a@ + b@ + c@ + d@ + e@,
{
    let mut s = cat3(a, b, c);
    push_str(&mut s, d);
    push_str(&mut s, e);
    s
}

// ---------------------------------------------------------------------------
// Kind, Specifies, Root
// ---------------------------------------------------------------------------
/// The `Kind` of a spec and the diagnostics about it.
pub open spec fn kind_of(file: Seq<char>, raw: Option<Seq<char>>) -> (
    Option<SpecKind>,
    Seq<DiagnosticView>,
) {
    match raw {
        None => (
            None,
            seq![
                diag(
                    DiagnosticSeverity::Error,
                    DiagnosticCode::InvalidKind,
                    msg_missing_kind(file),
                    at_file_start(file),
                ),
            ],
        ),
        Some(k) => if k == "feature"@ {
            (Some(SpecKind::Feature), Seq::empty())
        } else if k == "behavioural"@ {
            (Some(SpecKind::Behavioural), Seq::empty())
        } else if k == "interface"@ {
            (Some(SpecKind::Interface), Seq::empty())
        } else if k == "constraint"@ {
            (Some(SpecKind::Constraint), Seq::empty())
        } else if k == "context"@ {
            (Some(SpecKind::Context), Seq::empty())
        } else {
            (
                None,
                seq![
                    diag(
                        DiagnosticSeverity::Error,
                        DiagnosticCode::InvalidKind,
                        msg_invalid_kind(file),
                        at_file_start(file),
                    ),
                ],
            )
        },
    }
}

/// `parse_kind`.
pub fn parse_kind(file: &str, raw: &Option<String>, diagnostics: &mut Vec<Diagnostic>) -> (r:
    Option<SpecKind>)
    ensures
        r == kind_of(file@, crate::trusted::opt_string_view(*raw)).0,
        diags_view(final(diagnostics)@) == diags_view(old(diagnostics)@) + kind_of(
            file@,
            crate::trusted::opt_string_view(*raw),
        ).1,
{
    let ghost before = diags_view(diagnostics@);
    match raw {
        None => {
            let d = make_diag(
                DiagnosticSeverity::Error,
                DiagnosticCode::InvalidKind,
                cat3("Declare Kind in front matter for '", file, "'."),
                loc_file_start(file),
            );
            diagnostics.push(d);
            assert(diags_view(diagnostics@) =~= before.push(d@));
            None
        },
        Some(k) => {
            if str_eq(k.as_str(), "feature") {
                Some(SpecKind::Feature)
            } else if str_eq(k.as_str(), "behavioural") {
                Some(SpecKind::Behavioural)
            } else if str_eq(k.as_str(), "interface") {
                Some(SpecKind::Interface)
            } else if str_eq(k.as_str(), "constraint") {
                Some(SpecKind::Constraint)
            } else if str_eq(k.as_str(), "context") {
                Some(SpecKind::Context)
            } else {
                let d = make_diag(
                    DiagnosticSeverity::Error,
                    DiagnosticCode::InvalidKind,
                    cat3(
                        "Use a valid Kind in '",
                        file,
                        "': feature | behavioural | interface | constraint | context.",
                    ),
                    loc_file_start(file),
                );
                diagnostics.push(d);
                assert(diags_view(diagnostics@) =~= before.push(d@));
                None
            }
        },
    }
}

/// The pattern a `Specifies` target must match: a relative path of a
/// markdown file, `'#'`, and the heading.
pub open spec fn target_pattern() -> Seq<char> {
    r"^([A-Za-z0-9._/-]+\.md)#(.+)$"@
}

fn target_pattern_str() -> (r: &'static str)
    ensures
        r@ == target_pattern(),
{
    r"^([A-Za-z0-9._/-]+\.md)#(.+)$"
}

/// The pattern of a local link destination.
pub open spec fn link_pattern() -> Seq<char> {
    r"^([A-Za-z0-9._-]+\.md)(?:#(.+))?$"@
}

fn link_pattern_str() -> (r: &'static str)
    ensures
        r@ == link_pattern(),
{
    r"^([A-Za-z0-9._-]+\.md)(?:#(.+))?$"
}

/// A character of the file part of a target or link: an ASCII letter or
/// digit, `.`, `_`, `-`, and with `slash` also `/`.
pub open spec fn file_part_char(c: char, slash: bool) -> bool {
    is_ascii_alnum(c) || c == '.' || c == '_' || c == '-' || (slash && c == '/')
}

/// `[..]+\.md`: one or more file-part characters, the last three `.md`.
pub open spec fn is_file_part(a: Seq<char>, slash: bool) -> bool {
    &&& a.len() >= 4
    &&& forall|i: int| 0 <= i < a.len() ==> file_part_char(#[trigger] a[i], slash)
    &&& a.skip(a.len() - 3) == ".md"@
}

/// `(.+)$`: one or more characters up to the end, none a line feed.
pub open spec fn is_rest_part(b: Seq<char>) -> bool {
    b.len() >= 1 && !b.contains('\n')
}

/// The index of the first `#` of a text, its length when there is none.
pub open spec fn first_hash(t: Seq<char>) -> int
    decreases t.len(),
{
    if t.len() == 0 || t[0] == '#' {
        0
    } else {
        1 + first_hash(t.drop_first())
    }
}

/// The capture groups of the target pattern on a text: the whole text, the
/// file part before the first `#` and the rest after it; none when the text
/// does not match. (The file part holds no `#`, so it ends at the first.)
pub open spec fn target_match(t: Seq<char>) -> Option<Seq<Option<Seq<char>>>> {
    let k = first_hash(t);
    if k < t.len() && is_file_part(t.take(k), true) && is_rest_part(t.skip(k + 1)) {
        Some(seq![Some(t), Some(t.take(k)), Some(t.skip(k + 1))])
    } else {
        None
    }
}

/// The capture groups of the link pattern on a text: the whole text, the
/// file part before the first `#` (the whole text when there is none), and
/// the fragment after it when there is one; none when the text does not
/// match.
pub open spec fn link_match(t: Seq<char>) -> Option<Seq<Option<Seq<char>>>> {
    let k = first_hash(t);
    if !is_file_part(t.take(k), false) {
        None
    } else if k >= t.len() {
        Some(seq![Some(t), Some(t.take(k)), None])
    } else if is_rest_part(t.skip(k + 1)) {
        Some(seq![Some(t), Some(t.take(k)), Some(t.skip(k + 1))])
    } else {
        None
    }
}

/// Capture group `i` of a match, when it took part.
pub open spec fn group(g: Seq<Option<Seq<char>>>, i: int) -> Option<Seq<char>> {
    if 0 <= i < g.len() {
        g[i]
    } else {
        None
    }
}

/// One `Specifies` entry: the target it names, or the diagnostic it earns.
/// A match whose groups did not both take part counts as malformed.
pub open spec fn entry_outcome(file: Seq<char>, entry: Option<Seq<char>>) -> Result<
    TargetView,
    DiagnosticView,
> {
    match entry {
        None => Err(
            diag(
                DiagnosticSeverity::Error,
                DiagnosticCode::InvalidSpecifies,
                msg_specifies_non_string(file),
                at_file_start(file),
            ),
        ),
        Some(raw) => target_of_captures(file, raw, target_match(raw)),
    }
}

/// A `Specifies` entry `raw` of `file`, given the captures of the target
/// pattern on it: the target it names, or the diagnostic it earns.
pub open spec fn target_of_captures(
    file: Seq<char>,
    raw: Seq<char>,
    caps: Option<Seq<Option<Seq<char>>>>,
) -> Result<TargetView, DiagnosticView> {
    let malformed = diag(
        DiagnosticSeverity::Error,
        DiagnosticCode::InvalidSpecifiesTarget,
        msg_target_format(file, raw),
        at_file_start(file),
    );
    match caps {
        None => Err(malformed),
        Some(g) => match (group(g, 1), group(g, 2)) {
            (Some(f), Some(h)) => if trim(h).len() == 0 {
                Err(
                    diag(
                        DiagnosticSeverity::Error,
                        DiagnosticCode::InvalidSpecifiesTarget,
                        msg_target_empty(file, raw),
                        at_file_start(file),
                    ),
                )
            } else {
                Ok(TargetView { raw, file_name: f, heading_slug: slug_of(trim(h)) })
            },
            _ => Err(malformed),
        },
    }
}

/// The targets of a list of `Specifies` entries, in order.
pub open spec fn entry_targets(file: Seq<char>, entries: Seq<Option<Seq<char>>>) -> Seq<
    TargetView,
>
    decreases entries.len(),
{
    if entries.len() == 0 {
        Seq::empty()
    } else {
        let prev = entry_targets(file, entries.drop_last());
        match entry_outcome(file, entries.last()) {
            Ok(t) => prev.push(t),
            Err(_) => prev,
        }
    }
}

/// The diagnostics of a list of `Specifies` entries, in order.
pub open spec fn entry_diags(file: Seq<char>, entries: Seq<Option<Seq<char>>>) -> Seq<
    DiagnosticView,
>
    decreases entries.len(),
{
    if entries.len() == 0 {
        Seq::empty()
    } else {
        let prev = entry_diags(file, entries.drop_last());
        match entry_outcome(file, entries.last()) {
            Ok(_) => prev,
            Err(d) => prev.push(d),
        }
    }
}

/// The targets of a `Specifies` value and the diagnostics about it.
pub open spec fn specifies_of(file: Seq<char>, v: Option<SpecifiesView>) -> (
    Seq<TargetView>,
    Seq<DiagnosticView>,
) {
    match v {
        None => (Seq::empty(), Seq::empty()),
        Some(SpecifiesView::NotAList) => (
            Seq::empty(),
            seq![
                diag(
                    DiagnosticSeverity::Error,
                    DiagnosticCode::InvalidSpecifies,
                    msg_specifies_not_list(file),
                    at_file_start(file),
                ),
            ],
        ),
        Some(SpecifiesView::List(entries)) => (
            entry_targets(file, entries),
            entry_diags(file, entries),
        ),
    }
}

fn parse_entry(file: &str, entry: &Option<String>) -> (r: Result<SpecTarget, Diagnostic>)
    ensures
        match (r, entry_outcome(file@, crate::trusted::opt_string_view(*entry))) {
            (Ok(t), Ok(tv)) => t@ == tv,
            (Err(d), Err(dv)) => d@ == dv,
            _ => false,
        },
{
    match entry {
        None => Err(
            make_diag(
                DiagnosticSeverity::Error,
                DiagnosticCode::InvalidSpecifies,
                cat3("Use string entries in Specifies for '", file, "'; reject non-string values."),
                loc_file_start(file),
            ),
        ),
        Some(raw) => {
            let caps = regex_captures(target_pattern_str(), raw.as_str());
            target_from_captures(file, raw.as_str(), &caps)
        },
    }
}

/// The target a `Specifies` entry `raw` of `file` names, or the diagnostic
/// it earns, given the captures of the target pattern on the entry.
pub fn target_from_captures(file: &str, raw: &str, caps: &Option<Vec<Option<String>>>) -> (r: Result<
    SpecTarget,
    Diagnostic,
>)
    ensures
        match (r, target_of_captures(file@, raw@, crate::trusted::captures_view(*caps))) {
            (Ok(t), Ok(tv)) => t@ == tv,
            (Err(d), Err(dv)) => d@ == dv,
            _ => false,
        },
{
    let malformed = make_diag(
        DiagnosticSeverity::Error,
        DiagnosticCode::InvalidSpecifiesTarget,
        cat5("Use Specifies target format file.md#heading-slug in '", file, "': '", raw, "'."),
        loc_file_start(file),
    );
    match caps {
        None => Err(malformed),
        Some(g) => {
            if g.len() > 2 {
                match (&g[1], &g[2]) {
                    (Some(f), Some(h)) => {
                        let hc = str_chars(h.as_str());
                        let ht = chars_trim(hc.as_slice());
                        if ht.len() == 0 {
                            Err(
                                make_diag(
                                    DiagnosticSeverity::Error,
                                    DiagnosticCode::InvalidSpecifiesTarget,
                                    cat5(
                                        "Use non-empty heading slug in Specifies target for '",
                                        file,
                                        "': '",
                                        raw,
                                        "'.",
                                    ),
                                    loc_file_start(file),
                                ),
                            )
                        } else {
                            let hs = string_of(ht.as_slice());
                            Ok(
                                SpecTarget {
                                    raw: owned(raw),
                                    file_name: f.clone(),
                                    heading_slug: normalise_slug(hs.as_str()),
                                },
                            )
                        }
                    },
                    _ => Err(malformed),
                }
            } else {
                Err(malformed)
            }
        },
    }
}

/// `parse_specifies`.
pub fn parse_specifies(
    file: &str,
    raw: &Option<SpecifiesValue>,
    diagnostics: &mut Vec<Diagnostic>,
) -> (r: Vec<SpecTarget>)
    ensures
        ({
            let v = match *raw {
                None => None,
                Some(SpecifiesValue::NotAList) => Some(SpecifiesView::NotAList),
                Some(SpecifiesValue::List(e)) => Some(
                    SpecifiesView::List(crate::trusted::opt_strings_view(e@)),
                ),
            };
            &&& targets_view(r@) == specifies_of(file@, v).0
            &&& diags_view(final(diagnostics)@) == diags_view(old(diagnostics)@) + specifies_of(
                file@,
                v,
            ).1
        }),
{
    let ghost before = diags_view(diagnostics@);
    let mut targets: Vec<SpecTarget> = Vec::new();
    match raw {
        None => {
            assert(diags_view(diagnostics@) =~= before + Seq::<DiagnosticView>::empty());
            targets
        },
        Some(SpecifiesValue::NotAList) => {
            let d = make_diag(
                DiagnosticSeverity::Error,
                DiagnosticCode::InvalidSpecifies,
                cat3("Set Specifies in '", file, "' as a YAML list of target strings."),
                loc_file_start(file),
            );
            diagnostics.push(d);
            assert(diags_view(diagnostics@) =~= before.push(d@));
            assert(targets_view(targets@) =~= Seq::<TargetView>::empty());
            targets
        },
        Some(SpecifiesValue::List(entries)) => {
            let ghost ev = crate::trusted::opt_strings_view(entries@);
            let mut i: usize = 0;
            while i < entries.len()
                invariant
                    i <= entries.len(),
                    ev == crate::trusted::opt_strings_view(entries@),
                    targets_view(targets@) == entry_targets(file@, ev.take(i as int)),
                    diags_view(diagnostics@) == before + entry_diags(file@, ev.take(i as int)),
                decreases entries.len() - i,
            {
                assert(ev.take(i + 1).drop_last() =~= ev.take(i as int));
                assert(ev.take(i + 1).last() == crate::trusted::opt_string_view(entries@[i as int]));
                let ghost dv = diags_view(diagnostics@);
                let ghost tv = targets_view(targets@);
                match parse_entry(file, &entries[i]) {
                    Ok(t) => {
                        targets.push(t);
                        assert(targets_view(targets@) =~= tv.push(t@));
                    },
                    Err(d) => {
                        diagnostics.push(d);
                        assert(diags_view(diagnostics@) =~= dv.push(d@));
                    },
                }
                i = i + 1;
            }
            assert(ev.take(entries.len() as int) =~= ev);
            targets
        },
    }
}

/// Whether a spec is the root, and the diagnostics about `Root`.
pub open spec fn root_of(file: Seq<char>, v: Option<RootValue>) -> (bool, Seq<DiagnosticView>) {
    match v {
        None => (false, Seq::empty()),
        Some(RootValue::Flag(b)) => (b, Seq::empty()),
        Some(RootValue::NotAFlag) => (
            false,
            seq![
                diag(
                    DiagnosticSeverity::Error,
                    DiagnosticCode::InvalidRoot,
                    msg_invalid_root(file),
                    at_file_start(file),
                ),
            ],
        ),
    }
}

/// Reads `Root` from the front matter.
pub fn parse_root(file: &str, v: &Option<RootValue>, diagnostics: &mut Vec<Diagnostic>) -> (r:
    bool)
    ensures
        r == root_of(file@, *v).0,
        diags_view(final(diagnostics)@) == diags_view(old(diagnostics)@) + root_of(file@, *v).1,
{
    let ghost before = diags_view(diagnostics@);
    match v {
        None => {
            assert(diags_view(diagnostics@) =~= before + Seq::<DiagnosticView>::empty());
            false
        },
        Some(RootValue::Flag(b)) => {
            assert(diags_view(diagnostics@) =~= before + Seq::<DiagnosticView>::empty());
            *b
        },
        Some(RootValue::NotAFlag) => {
            let d = make_diag(
                DiagnosticSeverity::Error,
                DiagnosticCode::InvalidRoot,
                cat3("Set Root in '", file, "' to a boolean (true or false)."),
                loc_file_start(file),
            );
            diagnostics.push(d);
            assert(diags_view(diagnostics@) =~= before.push(d@));
            false
        },
    }
}

// ---------------------------------------------------------------------------
// Cross references
// ---------------------------------------------------------------------------
/// The diagnostics one link destination earns.
pub open spec fn link_diags(
    file: Seq<char>,
    dest: Seq<char>,
    local: Seq<Seq<char>>,
    known: Seq<Seq<char>>,
) -> Seq<DiagnosticView> {
    if starts_with(dest, "http://"@) || starts_with(dest, "https://"@) || starts_with(
        dest,
        "mailto:"@,
    ) {
        Seq::empty()
    } else if starts_with(dest, seq!['#']) {
        let raw = dest.drop_first();
        if local.contains(slug_of(raw)) {
            Seq::empty()
        } else {
            seq![
                diag(
                    DiagnosticSeverity::Warning,
                    DiagnosticCode::BrokenCrossReferenceHeading,
                    msg_local_link(raw, file),
                    in_file(file),
                ),
            ]
        }
    } else {
        file_link_diags(file, dest, link_match(dest), known)
    }
}

/// The diagnostics of a link destination `dest` of `file` that is neither
/// external nor local, given the captures of the link pattern on it.
pub open spec fn file_link_diags(
    file: Seq<char>,
    dest: Seq<char>,
    caps: Option<Seq<Option<Seq<char>>>>,
    known: Seq<Seq<char>>,
) -> Seq<DiagnosticView> {
    match caps {
        None => seq![
            diag(
                DiagnosticSeverity::Warning,
                DiagnosticCode::InvalidCrossReference,
                msg_link_format(file, dest),
                in_file(file),
            ),
        ],
        Some(g) => match group(g, 1) {
            Some(f) => if known.contains(f) {
                Seq::empty()
            } else {
                seq![
                    diag(
                        DiagnosticSeverity::Warning,
                        DiagnosticCode::BrokenCrossReferenceFile,
                        msg_link_file(dest, file),
                        in_file(file),
                    ),
                ]
            },
            None => Seq::empty(),
        },
    }
}

/// The diagnostics of all link destinations of a body, in order.
pub open spec fn crossref_diags(
    file: Seq<char>,
    events: Seq<Option<Seq<char>>>,
    local: Seq<Seq<char>>,
    known: Seq<Seq<char>>,
) -> Seq<DiagnosticView>
    decreases events.len(),
{
    if events.len() == 0 {
        Seq::empty()
    } else {
        let prev = crossref_diags(file, events.drop_last(), local, known);
        match events.last() {
            Some(dest) => prev + link_diags(file, dest, local, known),
            None => prev,
        }
    }
}

/// Whether `name` is one of `names`.
pub fn contains_name(names: &Vec<String>, name: &str) -> (r: bool)
    ensures
        r == strings_view(names@).contains(name@),
{
    let mut i: usize = 0;
    while i < names.len()
        invariant
            i <= names.len(),
            forall|j: int| 0 <= j < i ==> names@[j]@ != name@,
        decreases names.len() - i,
    {
        if str_eq(names[i].as_str(), name) {
            assert(strings_view(names@)[i as int] == name@);
            return true;
        }
        i = i + 1;
    }
    proof {
        if strings_view(names@).contains(name@) {
            let j = choose|j: int|
                0 <= j < strings_view(names@).len() && strings_view(names@)[j] == name@;
            assert(names@[j]@ == name@);
        }
    }
    false
}

fn link_diagnostics(
    file: &str,
    dest: &str,
    local: &Vec<String>,
    known: &Vec<String>,
    diagnostics: &mut Vec<Diagnostic>,
)
    ensures
        diags_view(final(diagnostics)@) == diags_view(old(diagnostics)@) + link_diags(
            file@,
            dest@,
            strings_view(local@),
            strings_view(known@),
        ),
{
    let ghost before = diags_view(diagnostics@);
    let d = str_chars(dest);
    let http = str_chars("http://");
    let https = str_chars("https://");
    let mailto = str_chars("mailto:");
    if chars_starts_with(d.as_slice(), http.as_slice()) || chars_starts_with(
        d.as_slice(),
        https.as_slice(),
    ) || chars_starts_with(d.as_slice(), mailto.as_slice()) {
        assert(diags_view(diagnostics@) =~= before + Seq::<DiagnosticView>::empty());
        return ;
    }
    let hash = vec!['#'];
    assert(hash@ =~= seq!['#']);
    if chars_starts_with(d.as_slice(), hash.as_slice()) {
        let raw_chars = slice_range(d.as_slice(), 1, d.len());
        assert(raw_chars@ =~= dest@.drop_first());
        let raw = string_of(raw_chars.as_slice());
        let slug = normalise_slug(raw.as_str());
        if contains_name(local, slug.as_str()) {
            assert(diags_view(diagnostics@) =~= before + Seq::<DiagnosticView>::empty());
        } else {
            let dg = make_diag(
                DiagnosticSeverity::Warning,
                DiagnosticCode::BrokenCrossReferenceHeading,
                cat5("Resolve local heading link '#", raw.as_str(), "' in '", file, "'."),
                loc_in_file(file),
            );
            diagnostics.push(dg);
            assert(diags_view(diagnostics@) =~= before + seq![dg@]);
        }
        return ;
    }
    let caps = regex_captures(link_pattern_str(), dest);
    let mut more = file_link_diagnostics(file, dest, &caps, known);
    diagnostics.append(&mut more);
}

/// The diagnostics of a link destination `dest` of `file` that is neither
/// external nor local, given the captures of the link pattern on it.
pub fn file_link_diagnostics(
    file: &str,
    dest: &str,
    caps: &Option<Vec<Option<String>>>,
    known: &Vec<String>,
) -> (r: Vec<Diagnostic>)
    ensures
        diags_view(r@) == file_link_diags(
            file@,
            dest@,
            crate::trusted::captures_view(*caps),
            strings_view(known@),
        ),
{
    let mut out: Vec<Diagnostic> = Vec::new();
    match caps {
        None => {
            let dg = make_diag(
                DiagnosticSeverity::Warning,
                DiagnosticCode::InvalidCrossReference,
                cat5(
                    "Use local spec link format file.md or file.md#heading-slug in '",
                    file,
                    "': '",
                    dest,
                    "'.",
                ),
                loc_in_file(file),
            );
            out.push(dg);
            assert(diags_view(out@) =~= seq![dg@]);
        },
        Some(g) => {
            if g.len() > 1 {
                match &g[1] {
                    Some(f) => {
                        if !contains_name(known, f.as_str()) {
                            let dg = make_diag(
                                DiagnosticSeverity::Warning,
                                DiagnosticCode::BrokenCrossReferenceFile,
                                cat5(
                                    "Resolve cross-reference '",
                                    dest,
                                    "' in '",
                                    file,
                                    "' to an existing spec file.",
                                ),
                                loc_in_file(file),
                            );
                            out.push(dg);
                            assert(diags_view(out@) =~= seq![dg@]);
                        } else {
                            assert(diags_view(out@) =~= Seq::<DiagnosticView>::empty());
                        }
                    },
                    None => {
                        assert(diags_view(out@) =~= Seq::<DiagnosticView>::empty());
                    },
                }
            } else {
                assert(diags_view(out@) =~= Seq::<DiagnosticView>::empty());
            }
        },
    }
    out
}

/// `validate_cross_references`: diagnostics for the local links of a body.
pub fn validate_cross_references(
    file: &str,
    body: &str,
    local: &Vec<String>,
    known: &Vec<String>,
    diagnostics: &mut Vec<Diagnostic>,
)
    ensures
        diags_view(final(diagnostics)@) == diags_view(old(diagnostics)@) + crossref_diags(
            file@,
            markdown_link_events(body@),
            strings_view(local@),
            strings_view(known@),
        ),
{
    let events = markdown_link_destinations(body);
    crossref_diagnostics(file, &events, local, known, diagnostics);
}

/// The diagnostics of a body's link destinations, given per markdown event
/// the destination of a link start (`None` for other events).
pub fn crossref_diagnostics(
    file: &str,
    events: &Vec<Option<String>>,
    local: &Vec<String>,
    known: &Vec<String>,
    diagnostics: &mut Vec<Diagnostic>,
)
    ensures
        diags_view(final(diagnostics)@) == diags_view(old(diagnostics)@) + crossref_diags(
            file@,
            crate::trusted::opt_strings_view(events@),
            strings_view(local@),
            strings_view(known@),
        ),
{
    let ghost ev = crate::trusted::opt_strings_view(events@);
    let ghost before = diags_view(diagnostics@);
    let mut i: usize = 0;
    while i < events.len()
        invariant
            i <= events.len(),
            ev == crate::trusted::opt_strings_view(events@),
            diags_view(diagnostics@) == before + crossref_diags(
                file@,
                ev.take(i as int),
                strings_view(local@),
                strings_view(known@),
            ),
        decreases events.len() - i,
    {
        assert(ev.take(i + 1).drop_last() =~= ev.take(i as int));
        assert(ev.take(i + 1).last() == crate::trusted::opt_string_view(events@[i as int]));
        match &events[i] {
            Some(dest) => {
                let ghost mid = diags_view(diagnostics@);
                link_diagnostics(file, dest.as_str(), local, known, diagnostics);
                assert(before + crossref_diags(
                    file@,
                    ev.take(i + 1),
                    strings_view(local@),
                    strings_view(known@),
                ) =~= mid + link_diags(
                    file@,
                    dest@,
                    strings_view(local@),
                    strings_view(known@),
                ));
            },
            None => {},
        }
        i = i + 1;
    }
    assert(ev.take(events.len() as int) =~= ev);
}

// ---------------------------------------------------------------------------
// One file
// ---------------------------------------------------------------------------
/// What the caller read of one top-level spec file: its name, its content or
/// the read error's text, and the deserialisation of the YAML block that
/// [`front_matter_yaml_block`](crate::parse::front_matter::front_matter_yaml_block)
/// gives for that content (or the error's text). The deserialisation is only
/// consulted when the content has a closed front matter block.
#[derive(Debug)]
pub struct SpecFileInput {
    pub file_name: String,
    pub content: Result<String, String>,
    pub front_matter: Result<FrontMatter, String>,
}

pub struct SpecFileInputView {
    pub file_name: Seq<char>,
    pub content: Result<Seq<char>, Seq<char>>,
    pub front_matter: Result<FrontMatterView, Seq<char>>,
}

impl View for SpecFileInput {
    type V = SpecFileInputView;

    open spec fn view(&self) -> SpecFileInputView {
        SpecFileInputView {
            file_name: self.file_name@,
            content: match self.content {
                Ok(c) => Ok(c@),
                Err(e) => Err(e@),
            },
            front_matter: match self.front_matter {
                Ok(f) => Ok(f@),
                Err(e) => Err(e@),
            },
        }
    }
}

/// What parsing one file yields.
pub struct FileOutcome {
    pub headings: Seq<HeadingView>,
    pub specifies: Seq<TargetView>,
    pub kind: Option<SpecKind>,
    pub is_root: bool,
    pub diagnostics: Seq<DiagnosticView>,
}

/// The slugs of a list of headings.
pub open spec fn slugs_of(hs: Seq<HeadingView>) -> Seq<Seq<char>> {
    hs.map_values(|h: HeadingView| h.slug)
}

/// Parsing a file's body once its front matter is known (`None` when the
/// front matter is missing or unclosed).
pub open spec fn body_outcome(
    file: Seq<char>,
    body: Seq<char>,
    fm: Option<FrontMatterView>,
    fm_diags: Seq<DiagnosticView>,
    known: Seq<Seq<char>>,
) -> FileOutcome {
    let headings = headings_of(body);
    let xref = crossref_diags(file, markdown_link_events(body), slugs_of(headings), known);
    match fm {
        None => FileOutcome {
            headings,
            specifies: Seq::empty(),
            kind: None,
            is_root: false,
            diagnostics: fm_diags + xref,
        },
        Some(f) => {
            let (kind, kd) = kind_of(file, f.kind);
            let (targets, sd) = specifies_of(file, f.specifies);
            let (root, rd) = root_of(file, f.root);
            FileOutcome {
                headings,
                specifies: targets,
                kind,
                is_root: root,
                diagnostics: fm_diags + xref + kd + sd + rd,
            }
        },
    }
}

/// Parsing one file: `known` are the names of all top-level spec files.
pub open spec fn file_outcome(input: SpecFileInputView, known: Seq<Seq<char>>) -> FileOutcome {
    let file = input.file_name;
    match input.content {
        Err(e) => FileOutcome {
            headings: Seq::empty(),
            specifies: Seq::empty(),
            kind: None,
            is_root: false,
            diagnostics: seq![
                diag(
                    DiagnosticSeverity::Error,
                    DiagnosticCode::IoReadFailure,
                    msg_read_failed(file, e),
                    in_file(file),
                ),
            ],
        },
        Ok(content) => match split_front_matter(content) {
            Split::Missing => body_outcome(
                file,
                content,
                None,
                seq![
                    diag(
                        DiagnosticSeverity::Error,
                        DiagnosticCode::InvalidFrontMatter,
                        msg_front_matter_missing(),
                        at_file_start(file),
                    ),
                ],
                known,
            ),
            Split::Unclosed => body_outcome(
                file,
                content,
                None,
                seq![
                    diag(
                        DiagnosticSeverity::Error,
                        DiagnosticCode::InvalidFrontMatter,
                        msg_front_matter_unclosed(),
                        at_file_start(file),
                    ),
                ],
                known,
            ),
            Split::Closed { body, .. } => match input.front_matter {
                Err(e) => body_outcome(
                    file,
                    body,
                    Some(empty_front_matter()),
                    seq![
                        diag(
                            DiagnosticSeverity::Error,
                            DiagnosticCode::InvalidFrontMatter,
                            msg_front_matter_yaml(file, e),
                            at_file_start(file),
                        ),
                    ],
                    known,
                ),
                Ok(f) => body_outcome(file, body, Some(f), Seq::empty(), known),
            },
        },
    }
}

/// A parsed file matches its outcome.
pub open spec fn spec_matches(s: ParsedSpec, file: Seq<char>, o: FileOutcome) -> bool {
    &&& s@.file_name == file
    &&& s@.headings == o.headings
    &&& s@.specifies == o.specifies
    &&& s@.kind == o.kind
    &&& s@.is_root == o.is_root
}

/// The slugs of parsed headings, as strings.
pub(crate) fn heading_slugs(hs: &Vec<Heading>) -> (r: Vec<String>)
    ensures
        strings_view(r@) == slugs_of(headings_view(hs@)),
{
    let mut out: Vec<String> = Vec::new();
    let mut i: usize = 0;
    while i < hs.len()
        invariant
            i <= hs.len(),
            strings_view(out@) == slugs_of(headings_view(hs@)).take(i as int),
        decreases hs.len() - i,
    {
        let ghost prev = strings_view(out@);
        out.push(hs[i].slug.clone());
        assert(strings_view(out@) =~= prev.push(hs@[i as int].slug@));
        assert(slugs_of(headings_view(hs@)).take(i + 1) =~= slugs_of(headings_view(hs@)).take(
            i as int,
        ).push(hs@[i as int].slug@));
        i = i + 1;
    }
    assert(slugs_of(headings_view(hs@)).take(hs.len() as int) =~= slugs_of(headings_view(hs@)));
    out
}

fn parse_body(
    file: &str,
    body: &[char],
    fm: Option<&FrontMatter>,
    fm_diags: Vec<Diagnostic>,
    known: &Vec<String>,
) -> (r: (ParsedSpec, Vec<Diagnostic>))
    ensures
        ({
            let o = body_outcome(
                file@,
                body@,
                match fm {
                    Some(f) => Some(f@),
                    None => None,
                },
                diags_view(fm_diags@),
                strings_view(known@),
            );
            spec_matches(r.0, file@, o) && diags_view(r.1@) == o.diagnostics
        }),
{
    let mut diagnostics = fm_diags;
    let headings = crate::parse::headings::headings_of_chars(body);
    let local = heading_slugs(&headings);
    let body_str = string_of(body);
    validate_cross_references(file, body_str.as_str(), &local, known, &mut diagnostics);
    match fm {
        None => {
            let spec = ParsedSpec {
                file_name: owned(file),
                kind: None,
                is_root: false,
                specifies: Vec::new(),
                headings,
            };
            assert(targets_view(spec.specifies@) =~= Seq::<TargetView>::empty());
            (spec, diagnostics)
        },
        Some(f) => {
            let kind = parse_kind(file, &f.kind, &mut diagnostics);
            let specifies = parse_specifies(file, &f.specifies, &mut diagnostics);
            let is_root = parse_root(file, &f.root, &mut diagnostics);
            (ParsedSpec { file_name: owned(file), kind, is_root, specifies, headings }, diagnostics)
        },
    }
}

/// `parse_single_file`: one file's spec and diagnostics.
pub fn parse_spec_file(input: &SpecFileInput, known: &Vec<String>) -> (r: (
    ParsedSpec,
    Vec<Diagnostic>,
))
    ensures
        ({
            let o = file_outcome(input@, strings_view(known@));
            spec_matches(r.0, input@.file_name, o) && diags_view(r.1@) == o.diagnostics
        }),
{
    let file = input.file_name.as_str();
    match &input.content {
        Err(e) => {
            let mut diagnostics: Vec<Diagnostic> = Vec::new();
            let d = make_diag(
                DiagnosticSeverity::Error,
                DiagnosticCode::IoReadFailure,
                cat4("Read '", file, "' failed: ", e.as_str()),
                loc_in_file(file),
            );
            assert(d@.message =~= msg_read_failed(file@, e@));
            diagnostics.push(d);
            let spec = ParsedSpec {
                file_name: owned(file),
                kind: None,
                is_root: false,
                specifies: Vec::new(),
                headings: Vec::new(),
            };
            assert(targets_view(spec.specifies@) =~= Seq::<TargetView>::empty());
            assert(headings_view(spec.headings@) =~= Seq::<HeadingView>::empty());
            assert(diags_view(diagnostics@) =~= seq![d@]);
            (spec, diagnostics)
        },
        Ok(content) => {
            let chars = str_chars(content.as_str());
            match split_content(chars.as_slice()) {
                SplitExec::Missing => {
                    let mut fm_diags: Vec<Diagnostic> = Vec::new();
                    let d = make_diag(
                        DiagnosticSeverity::Error,
                        DiagnosticCode::InvalidFrontMatter,
                        owned("Start file with YAML front matter delimited by '---'."),
                        loc_file_start(file),
                    );
                    fm_diags.push(d);
                    assert(diags_view(fm_diags@) =~= seq![d@]);
                    parse_body(file, chars.as_slice(), None, fm_diags, known)
                },
                SplitExec::Unclosed => {
                    let mut fm_diags: Vec<Diagnostic> = Vec::new();
                    let d = make_diag(
                        DiagnosticSeverity::Error,
                        DiagnosticCode::InvalidFrontMatter,
                        owned("Close YAML front matter with a terminating '---' line."),
                        loc_file_start(file),
                    );
                    fm_diags.push(d);
                    assert(diags_view(fm_diags@) =~= seq![d@]);
                    parse_body(file, chars.as_slice(), None, fm_diags, known)
                },
                SplitExec::Closed { body, .. } => {
                    match &input.front_matter {
                        Err(e) => {
                            let mut fm_diags: Vec<Diagnostic> = Vec::new();
                            let d = make_diag(
                                DiagnosticSeverity::Error,
                                DiagnosticCode::InvalidFrontMatter,
                                cat4(
                                    "Parse YAML front matter in '",
                                    file,
                                    "' correctly: ",
                                    e.as_str(),
                                ),
                                loc_file_start(file),
                            );
                            assert(d@.message =~= msg_front_matter_yaml(file@, e@));
                            fm_diags.push(d);
                            assert(diags_view(fm_diags@) =~= seq![d@]);
                            let empty = FrontMatter { kind: None, specifies: None, root: None };
                            assert(empty@ == empty_front_matter());
                            parse_body(file, body.as_slice(), Some(&empty), fm_diags, known)
                        },
                        Ok(f) => {
                            let fm_diags: Vec<Diagnostic> = Vec::new();
                            assert(diags_view(fm_diags@) =~= Seq::<DiagnosticView>::empty());
                            parse_body(file, body.as_slice(), Some(f), fm_diags, known)
                        },
                    }
                },
            }
        },
    }
}

} // verus!
