//! Heading slugs: the address of a section inside a spec file.
//!
//! Slugs follow GitHub's heading anchors: the text is lowercased, spaces
//! become hyphens, letters, digits, `_` and `-` stay, and every other
//! character is dropped. A text that leaves nothing gets the slug
//! `section`.
use vstd::prelude::*;
use crate::text::{char_lower, is_ascii_digit, is_ascii_lower, lower, str_chars, string_of};
use crate::trusted::{char_is_alphanumeric, char_to_lowercase, unicode_alphanumeric, unicode_lowercase};

verus! {

/// An ASCII character.
pub open spec fn is_ascii_char(c: char) -> bool {
    (c as u32) < 128
}

/// The lowercase of one character: `to_ascii_lowercase` for ASCII, else
/// the characters of its Unicode lowercase mapping.
pub open spec fn lowered(c: char) -> Seq<char> {
    if is_ascii_char(c) {
        seq![lower(c)]
    } else {
        unicode_lowercase(c)
    }
}

/// What one lowercased character leaves in a slug: a space becomes a
/// hyphen; ASCII lowercase letters, digits, `_` and `-` stay and the rest
/// of ASCII is dropped; outside ASCII, letters and digits stay and
/// everything else is dropped.
pub open spec fn slug_piece(d: char) -> Seq<char> {
    if d == ' ' {
        seq!['-']
    } else if is_ascii_char(d) {
        if is_ascii_lower(d) || is_ascii_digit(d) || d == '_' || d == '-' {
            seq![d]
        } else {
            Seq::empty()
        }
    } else if unicode_alphanumeric(d) {
        seq![d]
    } else {
        Seq::empty()
    }
}

/// What a run of lowercased characters leaves in a slug.
pub open spec fn slug_pieces(ds: Seq<char>) -> Seq<char>
    decreases ds.len(),
{
    if ds.len() == 0 {
        Seq::empty()
    } else {
        slug_pieces(ds.drop_last()) + slug_piece(ds.last())
    }
}

/// What a text leaves in a slug, character by character.
pub open spec fn slug_body(s: Seq<char>) -> Seq<char>
    decreases s.len(),
{
    if s.len() == 0 {
        Seq::empty()
    } else {
        slug_body(s.drop_last()) + slug_pieces(lowered(s.last()))
    }
}

/// The slug that stands for an empty one.
pub open spec fn fallback_slug() -> Seq<char> {
    seq!['s', 'e', 'c', 't', 'i', 'o', 'n']
}

/// The slug of a heading text or a link fragment.
pub open spec fn slug_of(s: Seq<char>) -> Seq<char> {
    let b = slug_body(s);
    if b.len() == 0 {
        fallback_slug()
    } else {
        b
    }
}

/// A character that may stand in a slug: an ASCII lowercase letter, a
/// digit, `_`, `-`, or a character outside ASCII.
pub open spec fn is_slug_char(c: char) -> bool {
    is_ascii_lower(c) || is_ascii_digit(c) || c == '_' || c == '-' || !is_ascii_char(c)
}

/// The shape of every slug: non-empty and made of slug characters, so
/// with no space and no ASCII uppercase letter.
pub open spec fn is_slug(t: Seq<char>) -> bool {
    &&& t.len() > 0
    &&& forall|i: int| 0 <= i < t.len() ==> is_slug_char(#[trigger] t[i])
}

/// The characters of `t` are slug characters.
pub open spec fn all_slug_chars(t: Seq<char>) -> bool {
    forall|i: int| 0 <= i < t.len() ==> is_slug_char(#[trigger] t[i])
}

proof fn lemma_concat_slug_chars(a: Seq<char>, b: Seq<char>)
    requires
        all_slug_chars(a),
        all_slug_chars(b),
    ensures
        all_slug_chars(a + b),
{
    assert forall|i: int| 0 <= i < (a + b).len() implies is_slug_char(#[trigger] (a + b)[i]) by {
        if i < a.len() {
            assert((a + b)[i] == a[i]);
        } else {
            assert((a + b)[i] == b[i - a.len()]);
        }
    }
}

proof fn lemma_pieces_slug_chars(ds: Seq<char>)
    ensures
        all_slug_chars(slug_pieces(ds)),
    decreases ds.len(),
{
    if ds.len() > 0 {
        lemma_pieces_slug_chars(ds.drop_last());
        let p = slug_piece(ds.last());
        assert(all_slug_chars(p));
        lemma_concat_slug_chars(slug_pieces(ds.drop_last()), p);
    }
}

proof fn lemma_body_slug_chars(s: Seq<char>)
    ensures
        all_slug_chars(slug_body(s)),
    decreases s.len(),
{
    if s.len() > 0 {
        lemma_body_slug_chars(s.drop_last());
        lemma_pieces_slug_chars(lowered(s.last()));
        lemma_concat_slug_chars(slug_body(s.drop_last()), slug_pieces(lowered(s.last())));
    }
}

/// Every slug has the slug shape.
pub proof fn lemma_slug_shape(s: Seq<char>)
    ensures
        is_slug(slug_of(s)),
{
    lemma_body_slug_chars(s);
    let f = fallback_slug();
    assert forall|i: int| 0 <= i < f.len() implies is_slug_char(#[trigger] f[i]) by {}
}

proof fn lemma_pieces_single(d: char)
    ensures
        slug_pieces(seq![d]) == slug_piece(d),
{
    let s = seq![d];
    assert(s.drop_last() =~= Seq::<char>::empty());
    assert(slug_pieces(s.drop_last()) =~= Seq::<char>::empty());
    assert(s.last() == d);
    assert(slug_pieces(s) =~= slug_piece(d));
}

/// An ASCII slug character leaves itself.
proof fn lemma_ascii_slug_char_stays(c: char)
    requires
        is_slug_char(c),
        is_ascii_char(c),
    ensures
        slug_pieces(lowered(c)) == seq![c],
{
    assert(lower(c) == c);
    lemma_pieces_single(c);
}

/// A text of ASCII slug characters is its own slug body.
proof fn lemma_body_of_ascii_slug(t: Seq<char>)
    requires
        forall|i: int| 0 <= i < t.len() ==> is_slug_char(#[trigger] t[i]) && is_ascii_char(t[i]),
    ensures
        slug_body(t) == t,
    decreases t.len(),
{
    if t.len() > 0 {
        let p = t.drop_last();
        assert forall|i: int| 0 <= i < p.len() implies is_slug_char(#[trigger] p[i])
            && is_ascii_char(p[i]) by {
            assert(p[i] == t[i]);
        }
        lemma_body_of_ascii_slug(p);
        assert(is_slug_char(t[t.len() - 1]) && is_ascii_char(t[t.len() - 1]));
        lemma_ascii_slug_char_stays(t.last());
        assert(p + seq![t.last()] =~= t);
    }
}

/// The characters an ASCII text leaves are ASCII.
proof fn lemma_body_of_ascii(s: Seq<char>)
    requires
        forall|i: int| 0 <= i < s.len() ==> is_ascii_char(#[trigger] s[i]),
    ensures
        forall|i: int|
            0 <= i < slug_body(s).len() ==> is_ascii_char(#[trigger] slug_body(s)[i]),
    decreases s.len(),
{
    if s.len() > 0 {
        let p = s.drop_last();
        assert forall|i: int| 0 <= i < p.len() implies is_ascii_char(#[trigger] p[i]) by {
            assert(p[i] == s[i]);
        }
        lemma_body_of_ascii(p);
        let c = s.last();
        assert(is_ascii_char(s[s.len() - 1]));
        let d = lower(c);
        lemma_pieces_single(d);
        let a = slug_body(p);
        let b = slug_piece(d);
        assert forall|i: int| 0 <= i < (a + b).len() implies is_ascii_char(#[trigger] (a + b)[i]) by {
            if i < a.len() {
                assert((a + b)[i] == a[i]);
            } else {
                assert((a + b)[i] == b[i - a.len()]);
            }
        }
    }
}

/// Normalising the slug of an ASCII text again leaves it unchanged.
pub proof fn lemma_slug_idempotent(s: Seq<char>)
    requires
        forall|i: int| 0 <= i < s.len() ==> is_ascii_char(#[trigger] s[i]),
    ensures
        slug_of(slug_of(s)) == slug_of(s),
{
    let t = slug_of(s);
    lemma_slug_shape(s);
    lemma_body_of_ascii(s);
    let f = fallback_slug();
    assert forall|i: int| 0 <= i < t.len() implies is_slug_char(#[trigger] t[i]) && is_ascii_char(
        t[i],
    ) by {
        if slug_body(s).len() == 0 {
            assert(t == f);
        }
    }
    lemma_body_of_ascii_slug(t);
}

/// Appends what one lowercased character leaves in a slug.
fn push_piece(out: &mut Vec<char>, d: char)
    ensures
        final(out)@ == old(out)@ + slug_piece(d),
{
    if d == ' ' {
        out.push('-');
    } else if (d as u32) < 128 {
        if ('a' <= d && d <= 'z') || ('0' <= d && d <= '9') || d == '_' || d == '-' {
            out.push(d);
        }
    } else if char_is_alphanumeric(d) {
        out.push(d);
    }
    assert(final(out)@ =~= old(out)@ + slug_piece(d));
}

/// Appends what a run of lowercased characters leaves in a slug.
fn push_pieces(out: &mut Vec<char>, ds: &[char])
    ensures
        final(out)@ == old(out)@ + slug_pieces(ds@),
{
    let ghost start = out@;
    let mut j: usize = 0;
    while j < ds.len()
        invariant
            j <= ds.len(),
            out@ == start + slug_pieces(ds@.take(j as int)),
        decreases ds.len() - j,
    {
        assert(ds@.take(j + 1).drop_last() =~= ds@.take(j as int));
        push_piece(out, ds[j]);
        assert(out@ =~= start + slug_pieces(ds@.take(j + 1)));
        j = j + 1;
    }
    assert(ds@.take(ds.len() as int) =~= ds@);
}

/// `normalise_slug`: the slug of a heading text or link fragment.
pub fn normalise_slug(input: &str) -> (r: String)
    ensures
        r@ == slug_of(input@),
        is_slug(r@),
{
    let chars = str_chars(input);
    let mut out: Vec<char> = Vec::new();
    let mut i: usize = 0;
    while i < chars.len()
        invariant
            i <= chars.len(),
            chars@ == input@,
            out@ == slug_body(chars@.take(i as int)),
        decreases chars.len() - i,
    {
        assert(chars@.take(i + 1).drop_last() =~= chars@.take(i as int));
        let c = chars[i];
        if (c as u32) < 128 {
            let d = [char_lower(c)];
            assert(d@ =~= lowered(c));
            push_pieces(&mut out, &d);
        } else {
            let ds = char_to_lowercase(c);
            push_pieces(&mut out, ds.as_slice());
        }
        i = i + 1;
    }
    assert(chars@.take(chars.len() as int) =~= chars@);
    proof {
        lemma_slug_shape(input@);
    }
    if out.len() == 0 {
        let f = vec!['s', 'e', 'c', 't', 'i', 'o', 'n'];
        assert(f@ =~= fallback_slug());
        string_of(f.as_slice())
    } else {
        string_of(out.as_slice())
    }
}

} // verus!
