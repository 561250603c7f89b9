//! Prompt text for the semantic checks and how it is filled in.
use vstd::prelude::*;
use crate::lint::types::{
    DocumentView, LintOptions, SemanticCheck, SemanticPrompt, SpecDocument, documents_view,
};
use crate::text::{append_vec, join, join_chars, push_str, str_chars, string_of};

verus! {

/// Prompt template of the contradiction check.
pub const CONTRADICTION_TEMPLATE: &'static str = r#"Role: You are a specification contradiction analyst.

Priorities:
1. Identify true requirement contradictions only.
2. Distinguish contradiction from refinement or added detail.
3. Return only the required JSON output.

Allowed actions:
- Compare requirements across the provided spec corpus.
- Quote short evidence excerpts from each side.

Disallowed actions:
- Do not invent requirements not present in context.
- Do not suggest rewrites or design alternatives.
- Do not return free-form prose outside JSON.

Constraints:
- A contradiction requires requirements that cannot both be true.
- If one statement is broader and the other is a valid specialization, mark no contradiction.
- Confidence must be one of: high, medium, low.
- Keep evidence excerpts short and literal.

Output contract (JSON only):
{
  "findings": [
    {
      "confidence": "high" | "medium" | "low",
      "file_a": "relative/path.md",
      "file_b": "relative/path.md",
      "message": "short explanation",
      "evidence_a": "short excerpt",
      "evidence_b": "short excerpt"
    }
  ]
}

Context delimiters:
=== SPEC_INDEX ===
{{SPEC_INDEX}}
=== END_SPEC_INDEX ===

=== SPEC_CORPUS ===
{{SPEC_CORPUS}}
=== END_SPEC_CORPUS ===
"#;

/// Prompt template of the gap check.
pub const GAP_TEMPLATE: &'static str = r#"Role: You are a specification gap analyst.

Priorities:
1. Find missing specification coverage in the provided corpus.
2. Focus on undefined referenced concepts, missing error behavior, and missing external interfaces.
3. Return only the required JSON output.

Allowed actions:
- Use only the provided spec index and spec contents.
- Report file locations when evidence is available.

Disallowed actions:
- Do not invent missing domains unrelated to the provided corpus.
- Do not propose implementation details.
- Do not return free-form prose outside JSON.

Constraints:
- Report only concrete, reviewable gaps.
- Confidence must be one of: high, medium, low.
- Keep evidence excerpts short and literal.

Output contract (JSON only):
{
  "findings": [
    {
      "has_gap": true | false,
      "confidence": "high" | "medium" | "low",
      "message": "short explanation",
      "location_file": "relative/path.md",
      "evidence": "short excerpt"
    }
  ]
}

Context delimiters:
=== SPEC_INDEX ===
{{SPEC_INDEX}}
=== END_SPEC_INDEX ===

=== SPEC_CORPUS ===
{{SPEC_CORPUS}}
=== END_SPEC_CORPUS ===
"#;

/// Prompt template of the ambiguity check.
pub const AMBIGUITY_TEMPLATE: &'static str = r#"Role: You are a specification ambiguity analyst.

Priorities:
1. Identify ambiguous, vague, or undefined language across the corpus.
2. Prefer findings that would cause multiple plausible implementations.
3. Return only the required JSON output.

Allowed actions:
- Evaluate requirement statements in the provided corpus.
- Flag undefined terms and unverifiable adjectives/quantifiers.

Disallowed actions:
- Do not invent ambiguity outside the provided text.
- Do not rewrite the spec.
- Do not return free-form prose outside JSON.

Constraints:
- Report only concrete ambiguous statements.
- Confidence must be one of: high, medium, low.
- Keep evidence excerpts short and literal.

Output contract (JSON only):
{
  "findings": [
    {
      "is_ambiguous": true | false,
      "confidence": "high" | "medium" | "low",
      "location_file": "relative/path.md",
      "message": "short explanation",
      "evidence": "short excerpt"
    }
  ]
}

Context delimiters:
=== SPEC_INDEX ===
{{SPEC_INDEX}}
=== END_SPEC_INDEX ===

=== SPEC_CORPUS ===
{{SPEC_CORPUS}}
=== END_SPEC_CORPUS ===
"#;

/// `str::replace`: every non-overlapping occurrence of `pat`, leftmost
/// first, replaced by `with` (an empty pattern matches before every
/// character and at the end).
pub open spec fn replace_all(s: Seq<char>, pat: Seq<char>, with: Seq<char>) -> Seq<char>
    decreases s.len(),
{
    if pat.len() == 0 {
        if s.len() == 0 {
            with
        } else {
            with + seq![s[0]] + replace_all(s.drop_first(), pat, with)
        }
    } else if s.len() == 0 {
        Seq::empty()
    } else if pat.len() <= s.len() && s.take(pat.len() as int) == pat {
        with + replace_all(s.skip(pat.len() as int), pat, with)
    } else {
        seq![s[0]] + replace_all(s.drop_first(), pat, with)
    }
}

/// The placeholder of a template parameter: its name in double braces.
pub open spec fn placeholder(name: Seq<char>) -> Seq<char> {
    "{{"@ + name + "}}"@
}

/// `fill_template`: each (name, value) in turn replaces the placeholder of
/// the name.
pub open spec fn filled(template: Seq<char>, reps: Seq<(Seq<char>, Seq<char>)>) -> Seq<char>
    decreases reps.len(),
{
    if reps.len() == 0 {
        template
    } else {
        let r = reps.last();
        replace_all(filled(template, reps.drop_last()), placeholder(r.0), r.1)
    }
}

fn replace_chars(s: &[char], pat: &[char], with: &[char]) -> (r: Vec<char>)
    ensures
        r@ == replace_all(s@, pat@, with@),
{
    let mut out: Vec<char> = Vec::new();
    let mut i: usize = 0;
    assert(s@.skip(0) =~= s@);
    if pat.len() == 0 {
        while i < s.len()
            invariant
                pat@.len() == 0,
                i <= s.len(),
                out@ + replace_all(s@.skip(i as int), pat@, with@) == replace_all(s@, pat@, with@),
            decreases s.len() - i,
        {
            let ghost before = out@;
            append_vec(&mut out, with);
            out.push(s[i]);
            assert(s@.skip(i as int).drop_first() =~= s@.skip(i + 1));
            assert(s@.skip(i as int)[0] == s@[i as int]);
            assert(out@ + replace_all(s@.skip(i + 1), pat@, with@) =~= before + replace_all(
                s@.skip(i as int),
                pat@,
                with@,
            ));
            i = i + 1;
        }
        let ghost before = out@;
        append_vec(&mut out, with);
        assert(s@.skip(i as int) =~= Seq::<char>::empty());
        assert(out@ =~= before + replace_all(s@.skip(i as int), pat@, with@));
        return out;
    }
    while i < s.len()
        invariant
            pat@.len() > 0,
            i <= s.len(),
            out@ + replace_all(s@.skip(i as int), pat@, with@) == replace_all(s@, pat@, with@),
        decreases s.len() - i,
    {
        let ghost before = out@;
        let rest = crate::text::slice_range(s, i, s.len());
        assert(rest@ =~= s@.skip(i as int));
        if crate::text::chars_starts_with(rest.as_slice(), pat) {
            append_vec(&mut out, with);
            assert(s@.skip(i as int).skip(pat@.len() as int) =~= s@.skip(i + pat.len()));
            assert(out@ + replace_all(s@.skip(i + pat.len()), pat@, with@) =~= before
                + replace_all(s@.skip(i as int), pat@, with@));
            i = i + pat.len();
        } else {
            out.push(s[i]);
            assert(s@.skip(i as int).drop_first() =~= s@.skip(i + 1));
            assert(s@.skip(i as int)[0] == s@[i as int]);
            assert(out@ + replace_all(s@.skip(i + 1), pat@, with@) =~= before + replace_all(
                s@.skip(i as int),
                pat@,
                with@,
            ));
            i = i + 1;
        }
    }
    assert(s@.skip(i as int) =~= Seq::<char>::empty());
    assert(out@ + Seq::<char>::empty() =~= out@);
    out
}

pub open spec fn reps_view(reps: Seq<(&str, &str)>) -> Seq<(Seq<char>, Seq<char>)> {
    reps.map_values(|r: (&str, &str)| (r.0@, r.1@))
}

/// `fill_template`.
pub fn fill_template(template: &str, replacements: &[(&str, &str)]) -> (r: String)
    ensures
        r@ == filled(template@, reps_view(replacements@)),
{
    let ghost rv = reps_view(replacements@);
    let mut out = str_chars(template);
    let mut i: usize = 0;
    while i < replacements.len()
        invariant
            i <= replacements.len(),
            rv == reps_view(replacements@),
            out@ == filled(template@, rv.take(i as int)),
        decreases replacements.len() - i,
    {
        let (name, value) = replacements[i];
        let mut key = String::new();
        push_str(&mut key, "{{");
        push_str(&mut key, name);
        push_str(&mut key, "}}");
        assert(key@ =~= placeholder(name@));
        let kc = str_chars(key.as_str());
        let vc = str_chars(value);
        out = replace_chars(out.as_slice(), kc.as_slice(), vc.as_slice());
        assert(rv.take(i + 1).drop_last() =~= rv.take(i as int));
        assert(rv.take(i + 1).last() == (name@, value@));
        i = i + 1;
    }
    assert(rv.take(replacements.len() as int) =~= rv);
    string_of(out.as_slice())
}

/// The corpus text of the documents: each file under a `=== FILE: name ===`
/// line, followed by a blank line.
pub open spec fn corpus_of(docs: Seq<DocumentView>) -> Seq<char>
    decreases docs.len(),
{
    if docs.len() == 0 {
        Seq::empty()
    } else {
        let d = docs.last();
        corpus_of(docs.drop_last()) + "=== FILE: "@ + d.file_name + " ===\n"@ + d.content
            + "\n\n"@
    }
}

/// `build_spec_corpus`.
pub fn build_spec_corpus(docs: &Vec<SpecDocument>) -> (r: String)
    ensures
        r@ == corpus_of(documents_view(docs@)),
{
    let ghost dv = documents_view(docs@);
    let mut corpus = String::new();
    let mut i: usize = 0;
    while i < docs.len()
        invariant
            i <= docs.len(),
            dv == documents_view(docs@),
            corpus@ == corpus_of(dv.take(i as int)),
        decreases docs.len() - i,
    {
        push_str(&mut corpus, "=== FILE: ");
        push_str(&mut corpus, docs[i].file_name.as_str());
        push_str(&mut corpus, " ===\n");
        push_str(&mut corpus, docs[i].content.as_str());
        push_str(&mut corpus, "\n\n");
        assert(dv.take(i + 1).drop_last() =~= dv.take(i as int));
        assert(dv.take(i + 1).last() == docs@[i as int]@);
        i = i + 1;
    }
    assert(dv.take(docs.len() as int) =~= dv);
    corpus
}

/// The index of the documents: their names, one per line.
pub open spec fn index_of_docs(docs: Seq<DocumentView>) -> Seq<char> {
    join(docs.map_values(|d: DocumentView| d.file_name), "\n"@)
}

fn build_index(docs: &Vec<SpecDocument>) -> (r: String)
    ensures
        r@ == index_of_docs(documents_view(docs@)),
{
    let ghost names = documents_view(docs@).map_values(|d: DocumentView| d.file_name);
    let mut parts: Vec<Vec<char>> = Vec::new();
    let mut i: usize = 0;
    while i < docs.len()
        invariant
            i <= docs.len(),
            names == documents_view(docs@).map_values(|d: DocumentView| d.file_name),
            parts@.map_values(|p: Vec<char>| p@) == names.take(i as int),
        decreases docs.len() - i,
    {
        let ghost pv = parts@.map_values(|p: Vec<char>| p@);
        let item = str_chars(docs[i].file_name.as_str());
        parts.push(item);
        assert(parts@.map_values(|p: Vec<char>| p@) =~= pv.push(item@));
        assert(names.take(i + 1) =~= names.take(i as int).push(docs@[i as int].file_name@));
        i = i + 1;
    }
    assert(names.take(docs.len() as int) =~= names);
    let sep = str_chars("\n");
    let j = join_chars(parts.as_slice(), sep.as_slice());
    string_of(j.as_slice())
}

pub open spec fn template_of(check: SemanticCheck) -> Seq<char> {
    match check {
        SemanticCheck::Contradiction => CONTRADICTION_TEMPLATE@,
        SemanticCheck::Gap => GAP_TEMPLATE@,
        SemanticCheck::Ambiguity => AMBIGUITY_TEMPLATE@,
    }
}

/// The prompt of one semantic check over the documents.
pub open spec fn prompt_of(check: SemanticCheck, docs: Seq<DocumentView>) -> Seq<char> {
    filled(
        template_of(check),
        seq![("SPEC_INDEX"@, index_of_docs(docs)), ("SPEC_CORPUS"@, corpus_of(docs))],
    )
}

/// The prompt of one semantic check.
pub fn semantic_prompt(check: SemanticCheck, docs: &Vec<SpecDocument>) -> (r: String)
    ensures
        r@ == prompt_of(check, documents_view(docs@)),
{
    let index = build_index(docs);
    let corpus = build_spec_corpus(docs);
    let template = match check {
        SemanticCheck::Contradiction => CONTRADICTION_TEMPLATE,
        SemanticCheck::Gap => GAP_TEMPLATE,
        SemanticCheck::Ambiguity => AMBIGUITY_TEMPLATE,
    };
    let reps = [("SPEC_INDEX", index.as_str()), ("SPEC_CORPUS", corpus.as_str())];
    assert(reps_view(reps@) =~= seq![
        ("SPEC_INDEX"@, index_of_docs(documents_view(docs@))),
        ("SPEC_CORPUS"@, corpus_of(documents_view(docs@))),
    ]);
    fill_template(template, &reps)
}

/// The semantic prompts of a lint run over the in-scope documents: none
/// when the run is structural only, else the contradiction, gap and
/// ambiguity prompts in that order.
pub open spec fn prompts_of(structural_only: bool, docs: Seq<DocumentView>) -> Seq<
    (SemanticCheck, Seq<char>),
> {
    if structural_only {
        Seq::empty()
    } else {
        seq![
            (SemanticCheck::Contradiction, prompt_of(SemanticCheck::Contradiction, docs)),
            (SemanticCheck::Gap, prompt_of(SemanticCheck::Gap, docs)),
            (SemanticCheck::Ambiguity, prompt_of(SemanticCheck::Ambiguity, docs)),
        ]
    }
}

pub open spec fn prompts_view(v: Seq<SemanticPrompt>) -> Seq<(SemanticCheck, Seq<char>)> {
    v.map_values(|p: SemanticPrompt| (p.check, p.prompt@))
}

/// `lint_semantic_prompts_for_directory`, over documents already loaded for
/// the scope.
pub fn lint_semantic_prompts_for_directory(
    documents: &Vec<SpecDocument>,
    options: &LintOptions,
) -> (r: Vec<SemanticPrompt>)
    ensures
        prompts_view(r@) == prompts_of(options.structural_only, documents_view(documents@)),
{
    let mut out: Vec<SemanticPrompt> = Vec::new();
    if options.structural_only {
        assert(prompts_view(out@) =~= prompts_of(true, documents_view(documents@)));
        return out;
    }
    out.push(
        SemanticPrompt {
            check: SemanticCheck::Contradiction,
            prompt: semantic_prompt(SemanticCheck::Contradiction, documents),
        },
    );
    out.push(
        SemanticPrompt {
            check: SemanticCheck::Gap,
            prompt: semantic_prompt(SemanticCheck::Gap, documents),
        },
    );
    out.push(
        SemanticPrompt {
            check: SemanticCheck::Ambiguity,
            prompt: semantic_prompt(SemanticCheck::Ambiguity, documents),
        },
    );
    assert(prompts_view(out@) =~= prompts_of(false, documents_view(documents@)));
    out
}


/// A lint run that is not structural only sends three prompts over the
/// in-scope documents: contradiction, gap and ambiguity, in that order,
/// each its check's template with the index of the documents' names in
/// place of `{{SPEC_INDEX}}` and their corpus in place of `{{SPEC_CORPUS}}`.
pub proof fn lemma_semantic_prompts(docs: Seq<DocumentView>)
    ensures
        prompts_of(false, docs).len() == 3,
        prompts_of(false, docs)[0].0 == SemanticCheck::Contradiction,
        prompts_of(false, docs)[1].0 == SemanticCheck::Gap,
        prompts_of(false, docs)[2].0 == SemanticCheck::Ambiguity,
        forall|k: int|
            0 <= k < 3 ==> #[trigger] prompts_of(false, docs)[k].1 == filled(
                template_of(prompts_of(false, docs)[k].0),
                seq![("SPEC_INDEX"@, index_of_docs(docs)), ("SPEC_CORPUS"@, corpus_of(docs))],
            ),
        prompts_of(true, docs).len() == 0,
{
    let p = prompts_of(false, docs);
    assert forall|k: int| 0 <= k < 3 implies #[trigger] p[k].1 == filled(
        template_of(p[k].0),
        seq![("SPEC_INDEX"@, index_of_docs(docs)), ("SPEC_CORPUS"@, corpus_of(docs))],
    ) by {
        if k == 0 {
        } else if k == 1 {
        } else {
        }
    }
}

/// The corpus of two lists of documents is the corpus of the first followed
/// by that of the second.
pub proof fn lemma_corpus_concat(a: Seq<DocumentView>, b: Seq<DocumentView>)
    ensures
        corpus_of(a + b) == corpus_of(a) + corpus_of(b),
    decreases b.len(),
{
    if b.len() == 0 {
        assert(a + b =~= a);
        assert(corpus_of(a) + corpus_of(b) =~= corpus_of(a));
    } else {
        assert((a + b).drop_last() =~= a + b.drop_last());
        assert((a + b).last() == b.last());
        lemma_corpus_concat(a, b.drop_last());
        let d = b.last();
        let tail = "=== FILE: "@ + d.file_name + " ===\n"@ + d.content + "\n\n"@;
        assert(corpus_of(a + b) =~= corpus_of(a) + corpus_of(b.drop_last()) + tail);
        assert(corpus_of(b) =~= corpus_of(b.drop_last()) + tail);
    }
}

} // verus!
