use manhattan_spec_parser::lint::api::{
    finalize_issues, lint_parse_outcome_structural, semantic_spec_files, structural_issues,
};
use manhattan_spec_parser::lint::ordering::{dedupe_issues, sort_issues};
use manhattan_spec_parser::lint::prompts::{build_spec_corpus, fill_template, semantic_prompt};
use manhattan_spec_parser::lint::report::{
    count_diagnostic_severities, format_diagnostic, sort_diagnostics,
};
use manhattan_spec_parser::lint::scope::{normalize_focus_path, resolve_scope};
use manhattan_spec_parser::lint::semantic::{
    ambiguity_issues, contradiction_issues, gap_issues, structured_content, AmbiguityFinding,
    ContradictionFinding, GapFinding,
};
use manhattan_spec_parser::lint::structural::{map_parser_diagnostics, scoped_file_names};
use manhattan_spec_parser::{
    build_parse_result, discover_spec_files, format_issue, lint_semantic_prompts_for_directory,
    lint_specs_directory_structural, suggested_exit_code, summarize_severities, Confidence,
    Diagnostic, DiagnosticCode, DiagnosticSeverity, FrontMatter, InvocationError, LintCategory,
    LintError, LintIssue, LintOptions, LintSeverity, ParseOptions, ParseResult, ParserError, RootValue,
    SemanticCheck, SourceLocation, SpecDocument, SpecFileInput, SpecifiesValue, WalkEntry,
};

fn file(
    name: &str,
    content: &str,
    kind: &str,
    specifies: &[&str],
    root: Option<bool>,
) -> SpecFileInput {
    SpecFileInput {
        file_name: name.to_string(),
        content: Ok(content.to_string()),
        front_matter: Ok(FrontMatter {
            kind: Some(kind.to_string()),
            specifies: if specifies.is_empty() {
                None
            } else {
                Some(SpecifiesValue::List(specifies.iter().map(|s| Some(s.to_string())).collect()))
            },
            root: root.map(RootValue::Flag),
        }),
    }
}

/// The parse pass over top-level files, in the order discovery gives.
fn parse_files(files: Vec<SpecFileInput>) -> ParseResult {
    let entries: Vec<WalkEntry> = files
        .iter()
        .map(|f| WalkEntry::Found {
            relative_path: f.file_name.clone(),
            depth: 1,
            is_file: true,
            extension: Some("md".to_string()),
        })
        .collect();
    let discovery = discover_spec_files(&entries);
    let mut files = files;
    let mut ordered = Vec::new();
    for name in &discovery.file_names {
        let i = files.iter().position(|f| &f.file_name == name).unwrap();
        ordered.push(files.remove(i));
    }
    build_parse_result(discovery.diagnostics, &ordered, ParseOptions::default())
}

fn issue(
    severity: LintSeverity,
    code: &str,
    message: &str,
    location: Option<(&str, Option<usize>, Option<usize>)>,
) -> LintIssue {
    LintIssue {
        severity,
        category: LintCategory::Structure,
        code: code.to_string(),
        message: message.to_string(),
        location: location.map(|(f, l, c)| SourceLocation {
            file_name: f.to_string(),
            line: l,
            column: c,
        }),
        confidence: None,
        evidence: Vec::new(),
    }
}

#[test]
fn structural_flags_missing_heading_and_orphan() {
    let parsed = parse_files(vec![file(
        "feature.md",
        "---\nKind: feature\n---\n\nNo headings here.\n",
        "feature",
        &[],
        None,
    )]);
    let result = lint_specs_directory_structural(&parsed, &LintOptions::default()).unwrap();
    assert!(result.issues.iter().any(|issue| issue.code == "STRUCT_MISSING_HEADING"));
    assert!(result.issues.iter().any(|issue| issue.code == "STRUCT_ORPHAN_SPEC"));
}

#[test]
fn structural_focus_limits_scope() {
    let parsed = parse_files(vec![
        file(
            "architecture.md",
            "---\nKind: feature\nRoot: true\n---\n\n# Architecture\n\n## Root\n",
            "feature",
            &[],
            Some(true),
        ),
        file(
            "a.md",
            "---\nKind: behavioural\nSpecifies:\n  - architecture.md#root\n---\n\n# A\n",
            "behavioural",
            &["architecture.md#root"],
            None,
        ),
        file("unrelated.md", "---\nKind: feature\n---\n\n# Unrelated\n", "feature", &[], None),
    ]);
    let result = lint_specs_directory_structural(
        &parsed,
        &LintOptions { focus: Some("a.md".to_string()), ..LintOptions::default() },
    )
    .unwrap();
    assert!(result.issues.iter().all(|issue| {
        issue.location.as_ref().is_none_or(|location| location.file_name != "unrelated.md")
    }));
}

#[test]
fn exit_code_matches_severity() {
    let ok = Vec::<LintIssue>::new();
    assert_eq!(suggested_exit_code(&ok), 0);

    let warnings = vec![LintIssue {
        severity: LintSeverity::Warning,
        category: LintCategory::Structure,
        code: "STRUCT_ORPHAN_SPEC".to_string(),
        message: "warning".to_string(),
        location: None,
        confidence: None,
        evidence: Vec::new(),
    }];
    assert_eq!(suggested_exit_code(&warnings), 1);

    let errors = vec![LintIssue {
        severity: LintSeverity::Error,
        category: LintCategory::Structure,
        code: "STRUCT_MISSING_HEADING".to_string(),
        message: "error".to_string(),
        location: None,
        confidence: None,
        evidence: Vec::new(),
    }];
    assert_eq!(suggested_exit_code(&errors), 2);
}

#[test]
fn unfocused_lint_reports_in_order() {
    let parsed = parse_files(vec![
        file("b.md", "---\nKind: feature\n---\nNo heading\n", "feature", &[], None),
        file(
            "a.md",
            "---\nKind: interface\nSpecifies:\n  - b.md#nope\n---\n# A\n",
            "interface",
            &["b.md#nope"],
            None,
        ),
    ]);
    let result = lint_specs_directory_structural(&parsed, &LintOptions::default()).unwrap();
    let got: Vec<(&str, &str)> = result
        .issues
        .iter()
        .map(|i| (i.code.as_str(), i.location.as_ref().map_or("", |l| l.file_name.as_str())))
        .collect();
    // `a.md` names a file in scope but a heading it does not have, so it has
    // no valid target and is an orphan.
    assert_eq!(
        got,
        vec![
            ("STRUCT_ORPHAN_SPEC", "a.md"),
            ("STRUCT_BROKENTARGETHEADING", "a.md"),
            ("STRUCT_MISSING_HEADING", "b.md"),
            ("STRUCT_ORPHAN_SPEC", "b.md"),
        ]
    );
}

#[test]
fn focus_errors() {
    let parsed = parse_files(vec![file("a.md", "---\nKind: context\n---\n# A\n", "context", &[], None)]);
    for bad in ["", "   ", "/abs.md", "../a.md", "x/./a.md", "a//b.md", "notes.txt"] {
        let options = LintOptions { focus: Some(bad.to_string()), ..LintOptions::default() };
        assert_eq!(
            lint_specs_directory_structural(&parsed, &options),
            Err(LintError::InvalidFocus { focus: bad.to_string() })
        );
    }
    let options = LintOptions { focus: Some(" missing.md ".to_string()), ..LintOptions::default() };
    assert_eq!(
        lint_specs_directory_structural(&parsed, &options),
        Err(LintError::FocusNotFound { focus: "missing.md".to_string() })
    );
}

#[test]
fn focus_path_normalisation() {
    assert_eq!(normalize_focus_path("  dir\\a.MD "), Some("dir/a.MD".to_string()));
    assert_eq!(normalize_focus_path("a.md"), Some("a.md".to_string()));
    assert_eq!(normalize_focus_path("dir/../a.md"), None);
    assert_eq!(normalize_focus_path(".md"), Some(".md".to_string()));
    assert_eq!(normalize_focus_path("md"), None);
}

#[test]
fn scope_of_a_focus() {
    let parsed = parse_files(vec![
        file("hub.md", "---\nKind: feature\n---\n# Hub\n", "feature", &[], Some(true)),
        file("mid.md", "---\nKind: feature\n---\n# Mid\n", "feature", &["hub.md#hub"], None),
        file("leaf.md", "---\nKind: feature\n---\n# Leaf\n", "feature", &["mid.md#mid"], None),
        file("far.md", "---\nKind: feature\n---\n# Far\n", "feature", &["leaf.md#leaf"], None),
    ]);
    let scope = resolve_scope(&parsed.specs, &Some("mid.md".to_string())).unwrap();
    assert_eq!(scope, vec!["hub.md", "leaf.md", "mid.md"]);
    // Spec order: the parse lists specs sorted by name.
    assert_eq!(scoped_file_names(&parsed.specs, &scope), vec!["hub.md", "leaf.md", "mid.md"]);
    let all = resolve_scope(&parsed.specs, &None).unwrap();
    assert_eq!(all, vec!["far.md", "hub.md", "leaf.md", "mid.md"]);
}

#[test]
fn root_policy() {
    let parsed = parse_files(vec![
        file("one.md", "---\n---\n# One\n", "feature", &[], Some(true)),
        file("two.md", "---\n---\n# Two\n", "context", &[], Some(true)),
    ]);
    let result = lint_specs_directory_structural(&parsed, &LintOptions::default()).unwrap();
    let got: Vec<(&str, &str)> = result
        .issues
        .iter()
        .map(|i| (i.code.as_str(), i.location.as_ref().unwrap().file_name.as_str()))
        .collect();
    assert_eq!(
        got,
        vec![
            ("STRUCT_ROOT_MULTIPLE", "one.md"),
            ("STRUCT_ROOT_KIND", "two.md"),
            ("STRUCT_ROOT_MULTIPLE", "two.md"),
        ]
    );
    assert_eq!(
        result.issues[1].message,
        "Use Root: true only on Kind: feature specs in 'two.md'."
    );
    assert_eq!(
        result.issues[0].message,
        "Declare Root: true in at most one spec; duplicate root in 'one.md'."
    );
}

#[test]
fn parser_diagnostics_kept_and_dropped() {
    let at = |f: &str| Some(SourceLocation { file_name: f.to_string(), line: None, column: None });
    let diags = vec![
        Diagnostic {
            severity: DiagnosticSeverity::Warning,
            code: DiagnosticCode::OrphanSpec,
            message: "orphan".to_string(),
            location: at("a.md"),
        },
        Diagnostic {
            severity: DiagnosticSeverity::Error,
            code: DiagnosticCode::NestedSpecFile,
            message: "nested".to_string(),
            location: at("d/x.md"),
        },
        Diagnostic {
            severity: DiagnosticSeverity::Error,
            code: DiagnosticCode::CycleDetected,
            message: "cycle".to_string(),
            location: None,
        },
        Diagnostic {
            severity: DiagnosticSeverity::Warning,
            code: DiagnosticCode::InvalidCrossReference,
            message: "xref".to_string(),
            location: at("b.md"),
        },
        Diagnostic {
            severity: DiagnosticSeverity::Error,
            code: DiagnosticCode::InvalidRoot,
            message: "root".to_string(),
            location: at("a.md"),
        },
    ];
    let scope = vec!["a.md".to_string()];
    let issues = map_parser_diagnostics(&diags, &scope);
    let got: Vec<(&str, LintSeverity)> =
        issues.iter().map(|i| (i.code.as_str(), i.severity)).collect();
    assert_eq!(
        got,
        vec![("STRUCT_CYCLEDETECTED", LintSeverity::Error), ("STRUCT_INVALIDROOT", LintSeverity::Error)]
    );
    assert!(issues.iter().all(|i| i.category == LintCategory::Structure));
}

#[test]
fn issue_formatting() {
    let mut i = issue(
        LintSeverity::Warning,
        "STRUCT_ORPHAN_SPEC",
        "Add a target.",
        Some(("a.md", Some(1), Some(1))),
    );
    assert_eq!(format_issue(&i), "WARNING STRUCT_ORPHAN_SPEC Structural a.md:1:1 Add a target.");
    i.location = Some(SourceLocation { file_name: "a.md".to_string(), line: Some(12), column: None });
    i.severity = LintSeverity::Error;
    assert_eq!(format_issue(&i), "ERROR STRUCT_ORPHAN_SPEC Structural a.md:12 Add a target.");
    i.location = Some(SourceLocation { file_name: "a.md".to_string(), line: None, column: Some(3) });
    assert_eq!(format_issue(&i), "ERROR STRUCT_ORPHAN_SPEC Structural a.md Add a target.");
    i.location = None;
    i.category = LintCategory::Gap;
    i.confidence = Some(Confidence::Medium);
    assert_eq!(
        format_issue(&i),
        "ERROR STRUCT_ORPHAN_SPEC Gap <unknown> Add a target. [confidence=medium]"
    );
}

#[test]
fn diagnostic_formatting_and_order() {
    let d = |sev, code, msg: &str, loc: Option<(&str, Option<usize>, Option<usize>)>| Diagnostic {
        severity: sev,
        code,
        message: msg.to_string(),
        location: loc.map(|(f, l, c)| SourceLocation { file_name: f.to_string(), line: l, column: c }),
    };
    let a = d(DiagnosticSeverity::Error, DiagnosticCode::BrokenTargetFile, "x", Some(("b.md", None, None)));
    assert_eq!(format_diagnostic(&a), "ERROR BROKENTARGETFILE b.md x");
    let b = d(DiagnosticSeverity::Warning, DiagnosticCode::OrphanSpec, "y", Some(("a.md", Some(1), Some(1))));
    assert_eq!(format_diagnostic(&b), "WARNING ORPHANSPEC a.md:1:1 y");
    let c = d(DiagnosticSeverity::Error, DiagnosticCode::CycleDetected, "z", None);
    assert_eq!(format_diagnostic(&c), "ERROR CYCLEDETECTED <unknown> z");
    let e = d(DiagnosticSeverity::Error, DiagnosticCode::InvalidKind, "w", Some(("a.md", Some(1), None)));
    let sorted = sort_diagnostics(vec![a.clone(), b.clone(), c.clone(), e.clone()]);
    assert_eq!(sorted, vec![c.clone(), b.clone(), e.clone(), a.clone()]);
    assert_eq!(count_diagnostic_severities(&vec![a, b, c, e]), (1, 3));
}

#[test]
fn sort_and_dedupe_issues() {
    let x = issue(LintSeverity::Error, "B", "m", Some(("a.md", Some(2), None)));
    let y = issue(LintSeverity::Error, "A", "m", Some(("a.md", Some(2), None)));
    let z = issue(LintSeverity::Warning, "C", "m", None);
    let w = issue(LintSeverity::Warning, "C", "m", Some(("", None, None)));
    let sorted = sort_issues(vec![x.clone(), y.clone(), z.clone(), x.clone(), w.clone()]);
    assert_eq!(sorted, vec![z.clone(), w.clone(), y.clone(), x.clone(), x.clone()]);
    // A missing location and an empty file name with no line or column have
    // the same key.
    assert_eq!(dedupe_issues(sorted), vec![z, y, x]);
}

#[test]
fn severity_summary() {
    let issues = vec![
        issue(LintSeverity::Warning, "A", "m", None),
        issue(LintSeverity::Error, "B", "m", None),
        issue(LintSeverity::Warning, "C", "m", None),
    ];
    assert_eq!(summarize_severities(&issues), (2, 1));
    assert_eq!(suggested_exit_code(&issues), 2);
    assert_eq!(summarize_severities(&Vec::new()), (0, 0));
}

fn docs() -> Vec<SpecDocument> {
    vec![
        SpecDocument { file_name: "a.md".to_string(), content: "alpha".to_string() },
        SpecDocument { file_name: "b.md".to_string(), content: "beta\n".to_string() },
    ]
}

#[test]
fn corpus_and_templates() {
    assert_eq!(build_spec_corpus(&docs()), "=== FILE: a.md ===\nalpha\n\n=== FILE: b.md ===\nbeta\n\n\n");
    assert_eq!(build_spec_corpus(&Vec::new()), "");
    assert_eq!(
        fill_template("{{A}} and {{B}} and {{A}}{{C}}", &[("A", "1"), ("B", "{{A}}")]),
        "1 and {{A}} and 1{{C}}"
    );
    assert_eq!(fill_template("{{{A}}}", &[("A", "x")]), "{x}");
}

#[test]
fn semantic_prompts() {
    let options = LintOptions { structural_only: true, ..LintOptions::default() };
    assert!(lint_semantic_prompts_for_directory(&docs(), &options).is_empty());
    let prompts = lint_semantic_prompts_for_directory(&docs(), &LintOptions::default());
    let checks: Vec<SemanticCheck> = prompts.iter().map(|p| p.check).collect();
    assert_eq!(checks, vec![SemanticCheck::Contradiction, SemanticCheck::Gap, SemanticCheck::Ambiguity]);
    assert!(prompts[0].prompt.starts_with("Role: You are a specification contradiction analyst."));
    assert!(prompts[1].prompt.starts_with("Role: You are a specification gap analyst."));
    assert!(prompts[2].prompt.starts_with("Role: You are a specification ambiguity analyst."));
    for p in &prompts {
        assert!(p.prompt.contains("=== SPEC_INDEX ===\na.md\nb.md\n=== END_SPEC_INDEX ==="));
        assert!(p.prompt.contains("=== FILE: a.md ===\nalpha\n\n=== FILE: b.md ===\nbeta\n"));
        assert!(!p.prompt.contains("{{SPEC_"));
    }
    assert_eq!(prompts[1].prompt, semantic_prompt(SemanticCheck::Gap, &docs()));
}

#[test]
fn findings_become_issues() {
    let contradictions = vec![
        ContradictionFinding {
            is_contradiction: true,
            confidence: Confidence::High,
            file_a: "auth-required.md".to_string(),
            file_b: "auth-not-required.md".to_string(),
            message: "Auth requirement conflicts.".to_string(),
            evidence_a: "must require authentication".to_string(),
            evidence_b: "must not require authentication".to_string(),
        },
        ContradictionFinding {
            is_contradiction: false,
            confidence: Confidence::Low,
            file_a: "x.md".to_string(),
            file_b: "y.md".to_string(),
            message: "fine".to_string(),
            evidence_a: String::new(),
            evidence_b: String::new(),
        },
    ];
    let issues = contradiction_issues(&contradictions);
    assert_eq!(issues.len(), 1);
    assert_eq!(issues[0].severity, LintSeverity::Error);
    assert_eq!(issues[0].category, LintCategory::Contradiction);
    assert_eq!(issues[0].code, "SEM_CONTRADICTION");
    assert_eq!(issues[0].location.as_ref().unwrap().file_name, "auth-required.md");
    assert_eq!(
        issues[0].evidence,
        vec![
            "auth-required.md: must require authentication".to_string(),
            "auth-not-required.md: must not require authentication".to_string(),
        ]
    );

    let gaps = vec![
        GapFinding {
            has_gap: true,
            confidence: Confidence::Medium,
            message: "No error path.".to_string(),
            location_file: String::new(),
            evidence: "e".to_string(),
        },
        GapFinding {
            has_gap: false,
            confidence: Confidence::Medium,
            message: "none".to_string(),
            location_file: "z.md".to_string(),
            evidence: "e".to_string(),
        },
    ];
    let g = gap_issues(&gaps);
    assert_eq!(g.len(), 1);
    assert_eq!((g[0].severity, g[0].category, g[0].code.as_str()), (LintSeverity::Warning, LintCategory::Gap, "SEM_GAP"));
    assert_eq!(g[0].location, None);

    let amb = ambiguity_issues(&vec![AmbiguityFinding {
        confidence: Confidence::High,
        location_file: "ambiguous.md".to_string(),
        message: "\"quickly\" is vague.".to_string(),
        evidence: "The system should respond quickly.".to_string(),
    }]);
    assert_eq!(amb.len(), 1);
    assert_eq!(amb[0].category, LintCategory::Ambiguity);
    assert_eq!(amb[0].code, "SEM_AMBIGUITY");
    assert_eq!(amb[0].confidence, Some(Confidence::High));
    assert_eq!(
        amb[0].location,
        Some(SourceLocation { file_name: "ambiguous.md".to_string(), line: None, column: None })
    );
}

#[test]
fn structured_reply_content() {
    assert_eq!(
        structured_content(None),
        Err(InvocationError::InvalidResponse("missing assistant content".to_string()))
    );
    assert_eq!(structured_content(Some("  {\"findings\": []}\n")), Ok("{\"findings\": []}".to_string()));
}

#[test]
fn default_options() {
    let o = LintOptions::default();
    assert!(!o.structural_only);
    assert_eq!(o.focus, None);
    assert_eq!(o.llm_model, "openai/gpt-5");
}

#[test]
fn semantic_contradiction_and_ambiguity_detected() {
    let files = vec![
        ("architecture.md", "---\nKind: feature\nRoot: true\n---\n\n# Architecture\n\n## Auth\n", "feature", vec![], Some(true)),
        (
            "auth-required.md",
            "---\nKind: behavioural\nSpecifies:\n  - architecture.md#auth\n---\n\n# Required\n\nThe spec must require authentication.\n",
            "behavioural",
            vec!["architecture.md#auth"],
            None,
        ),
        (
            "auth-not-required.md",
            "---\nKind: behavioural\nSpecifies:\n  - architecture.md#auth\n---\n\n# Not Required\n\nThe spec must not require authentication.\n",
            "behavioural",
            vec!["architecture.md#auth"],
            None,
        ),
        (
            "ambiguous.md",
            "---\nKind: behavioural\nSpecifies:\n  - architecture.md#auth\n---\n\n# Ambiguous\n\nThe system should respond quickly.\n",
            "behavioural",
            vec!["architecture.md#auth"],
            None,
        ),
    ];
    let parsed = parse_files(
        files.iter().map(|(n, c, k, t, r)| file(n, c, k, t, *r)).collect(),
    );
    let scope = resolve_scope(&parsed.specs, &None).unwrap();
    let docs: Vec<SpecDocument> = parsed
        .specs
        .iter()
        .map(|s| SpecDocument {
            file_name: s.file_name.clone(),
            content: files.iter().find(|f| f.0 == s.file_name).unwrap().1.to_string(),
        })
        .collect();
    let contradiction = semantic_prompt(SemanticCheck::Contradiction, &docs);
    assert!(contradiction.contains("Role: You are a specification contradiction analyst."));
    assert!(contradiction.contains("spec must require authentication"));
    assert!(contradiction.contains("spec must not require authentication"));
    let ambiguity = semantic_prompt(SemanticCheck::Ambiguity, &docs);
    assert!(ambiguity.contains("Role: You are a specification ambiguity analyst."));
    assert!(ambiguity.contains("quickly"));

    let mut issues = structural_issues(&parsed, &scope);
    issues.extend(contradiction_issues(&vec![ContradictionFinding {
        is_contradiction: true,
        confidence: Confidence::High,
        file_a: "auth-required.md".to_string(),
        file_b: "auth-not-required.md".to_string(),
        message: "Auth requirement conflicts.".to_string(),
        evidence_a: "must require authentication".to_string(),
        evidence_b: "must not require authentication".to_string(),
    }]));
    issues.extend(gap_issues(&Vec::new()));
    issues.extend(ambiguity_issues(&vec![AmbiguityFinding {
        confidence: Confidence::High,
        location_file: "ambiguous.md".to_string(),
        message: "\"quickly\" is vague.".to_string(),
        evidence: "The system should respond quickly.".to_string(),
    }]));
    let result = finalize_issues(issues);
    assert!(result.iter().any(|issue| issue.category == LintCategory::Contradiction));
    assert!(result.iter().any(|issue| issue.category == LintCategory::Ambiguity));
}

#[test]
fn structural_codes_come_from_the_stable_set() {
    let stable = [
        "STRUCT_ROOT_MULTIPLE",
        "STRUCT_ROOT_KIND",
        "STRUCT_MISSING_HEADING",
        "STRUCT_ORPHAN_SPEC",
        "STRUCT_IOREADFAILURE",
        "STRUCT_INVALIDFRONTMATTER",
        "STRUCT_INVALIDKIND",
        "STRUCT_INVALIDROOT",
        "STRUCT_INVALIDSPECIFIES",
        "STRUCT_INVALIDSPECIFIESTARGET",
        "STRUCT_INVALIDCROSSREFERENCE",
        "STRUCT_BROKENTARGETFILE",
        "STRUCT_BROKENTARGETHEADING",
        "STRUCT_BROKENCROSSREFERENCEFILE",
        "STRUCT_BROKENCROSSREFERENCEHEADING",
        "STRUCT_CYCLEDETECTED",
    ];
    let mut files = vec![
        file("a.md", "---\n---\n[x](#nope) [y](z.md) [w](../q.md)\n", "feature", &["b.md#b", "c.md#c"], Some(true)),
        file("b.md", "---\n---\n# B\n", "story", &["a.md#a"], Some(true)),
        file("c.md", "no front matter\n", "context", &[], None),
    ];
    files.push(SpecFileInput {
        file_name: "d.md".to_string(),
        content: Err("denied".to_string()),
        front_matter: Err(String::new()),
    });
    let parsed = parse_files(files);
    let result = lint_specs_directory_structural(&parsed, &LintOptions::default()).unwrap();
    assert!(result.issues.len() >= 8);
    for issue in &result.issues {
        assert!(stable.contains(&issue.code.as_str()), "{}", issue.code);
        assert_eq!(issue.category, LintCategory::Structure);
    }
}

#[test]
fn structural_lint_of_a_parse_outcome() {
    let failure = ParserError::ReadDirectory {
        path: "missing".to_string(),
        message: "no such directory".to_string(),
    };
    assert_eq!(
        lint_parse_outcome_structural(Err(failure.clone()), &LintOptions::default()),
        Err(LintError::Parse(failure))
    );
    let parsed = parse_files(vec![file(
        "feature.md",
        "---\nKind: feature\n---\n\nNo headings here.\n",
        "feature",
        &[],
        None,
    )]);
    let expected = lint_specs_directory_structural(&parsed, &LintOptions::default());
    assert_eq!(lint_parse_outcome_structural(Ok(parsed), &LintOptions::default()), expected);
    let focused = LintOptions { focus: Some("nope.md".to_string()), ..LintOptions::default() };
    assert_eq!(
        lint_parse_outcome_structural(Ok(parse_files(Vec::new())), &focused),
        Err(LintError::FocusNotFound { focus: "nope.md".to_string() })
    );
}

#[test]
fn semantic_files_of_a_parse_outcome() {
    let failure = ParserError::ReadDirectory { path: "gone".to_string(), message: "missing".to_string() };
    let semantic = LintOptions { structural_only: false, ..LintOptions::default() };
    assert_eq!(semantic_spec_files(Err(failure.clone()), &semantic), Err(LintError::Parse(failure.clone())));
    let structural = LintOptions { structural_only: true, ..LintOptions::default() };
    assert_eq!(semantic_spec_files(Err(failure), &structural), Ok(Vec::new()));
    let specs = || {
        parse_files(vec![
            file("b.md", "---\nKind: context\n---\n# B\n", "context", &[], None),
            file("a.md", "---\nKind: context\n---\n# A\n", "context", &[], None),
            file("c.md", "---\nKind: context\n---\n# C\n", "context", &[], None),
        ])
    };
    let names: Vec<String> = specs().specs.iter().map(|s| s.file_name.clone()).collect();
    assert_eq!(semantic_spec_files(Ok(specs()), &semantic), Ok(names));
    let focused = LintOptions { focus: Some("c.md".to_string()), ..semantic.clone() };
    assert_eq!(semantic_spec_files(Ok(specs()), &focused), Ok(vec!["c.md".to_string()]));
    let bad = LintOptions { focus: Some("/c.md".to_string()), ..semantic };
    assert_eq!(
        semantic_spec_files(Ok(specs()), &bad),
        Err(LintError::InvalidFocus { focus: "/c.md".to_string() })
    );
}
