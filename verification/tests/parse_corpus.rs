use manhattan_spec_parser::parse::cycles::find_cycles;
use manhattan_spec_parser::parse::corpus::{apply_warning_policy, path_to_display_name, sort_names};
use manhattan_spec_parser::parse::file::{
    crossref_diagnostics, file_link_diagnostics, parse_specifies, target_from_captures,
};
use manhattan_spec_parser::parse::headings::extract_headings;
use manhattan_spec_parser::slug::normalise_slug;
use manhattan_spec_parser::{
    build_parse_result, discover_spec_files, front_matter_yaml_block, Diagnostic, DiagnosticCode,
    DiagnosticSeverity, FrontMatter, GraphEdge, GraphEdgeKind, GraphNode, GraphNodeKind,
    ParseOptions, ParseResult, RootValue, SpecFileInput, SpecKind, SpecifiesValue, WalkEntry,
};

fn found(path: &str, depth: usize, is_file: bool) -> WalkEntry {
    let extension = path.rsplit_once('.').map(|(_, ext)| ext.to_string());
    WalkEntry::Found {
        relative_path: path.to_string(),
        depth,
        is_file,
        extension: if is_file { extension } else { None },
    }
}

fn front(kind: Option<&str>, specifies: Option<&[&str]>, root: Option<RootValue>) -> FrontMatter {
    FrontMatter {
        kind: kind.map(|k| k.to_string()),
        specifies: specifies
            .map(|list| SpecifiesValue::List(list.iter().map(|s| Some(s.to_string())).collect())),
        root,
    }
}

fn file(name: &str, content: &str, front_matter: FrontMatter) -> SpecFileInput {
    SpecFileInput {
        file_name: name.to_string(),
        content: Ok(content.to_string()),
        front_matter: Ok(front_matter),
    }
}

/// Discovery over top-level files named like `files`, then the parse pass
/// over them in the order discovery gives.
fn parse_files(files: Vec<SpecFileInput>, options: ParseOptions) -> ParseResult {
    let entries: Vec<WalkEntry> = files.iter().map(|f| found(&f.file_name, 1, true)).collect();
    let discovery = discover_spec_files(&entries);
    let mut files = files;
    let mut ordered = Vec::new();
    for name in &discovery.file_names {
        let i = files.iter().position(|f| &f.file_name == name).unwrap();
        ordered.push(files.remove(i));
    }
    build_parse_result(discovery.diagnostics, &ordered, options)
}

fn has_code(result: &ParseResult, code: DiagnosticCode) -> bool {
    result.diagnostics.iter().any(|d| d.code == code)
}

#[test]
fn detect_nested_spec_file() {
    let entries = vec![
        found("nested", 1, false),
        found("nested/child.md", 2, true),
        found("root.md", 1, true),
    ];
    let discovery = discover_spec_files(&entries);
    assert_eq!(discovery.file_names, vec!["root.md".to_string()]);
    let files = vec![file(
        "root.md",
        "---\nKind: context\n---\n\n# Root\n",
        front(Some("context"), None, None),
    )];
    let result = build_parse_result(discovery.diagnostics, &files, ParseOptions::default());
    assert!(result.diagnostics.iter().any(|d| d.code == DiagnosticCode::NestedSpecFile));
}

#[test]
fn parse_specifies_edges_and_broken_heading() {
    let result = parse_files(
        vec![
            file(
                "architecture.md",
                "---\nKind: feature\n---\n\n# Architecture\n\n## Parser\n",
                front(Some("feature"), None, None),
            ),
            file(
                "child.md",
                "---\nKind: behavioural\nSpecifies:\n  - architecture.md#parser\n  - architecture.md#does-not-exist\n---\n\n# Child\n",
                front(
                    Some("behavioural"),
                    Some(&["architecture.md#parser", "architecture.md#does-not-exist"]),
                    None,
                ),
            ),
        ],
        ParseOptions::default(),
    );
    assert!(result.graph.edges.iter().any(|edge| {
        edge.kind == GraphEdgeKind::Specifies
            && edge.source == "child.md"
            && edge.target == "architecture.md#parser"
    }));
    assert!(has_code(&result, DiagnosticCode::BrokenTargetHeading));
}

#[test]
fn detect_cycle() {
    let result = parse_files(
        vec![
            file(
                "a.md",
                "---\nKind: feature\nSpecifies:\n  - b.md#b\n---\n\n# A\n\n## A\n",
                front(Some("feature"), Some(&["b.md#b"]), None),
            ),
            file(
                "b.md",
                "---\nKind: feature\nSpecifies:\n  - a.md#a\n---\n\n# B\n\n## B\n",
                front(Some("feature"), Some(&["a.md#a"]), None),
            ),
        ],
        ParseOptions::default(),
    );
    assert!(result.diagnostics.iter().any(|d| d.code == DiagnosticCode::CycleDetected));
}

#[test]
fn detect_orphan_feature() {
    let result = parse_files(
        vec![file(
            "feature.md",
            "---\nKind: feature\n---\n\n# Feature\n",
            front(Some("feature"), None, None),
        )],
        ParseOptions::default(),
    );
    assert!(result.diagnostics.iter().any(|d| d.code == DiagnosticCode::OrphanSpec));
}

fn assert_slug_shape(input: &str) {
    let slug = normalise_slug(input);
    assert!(!slug.chars().any(|c| c.is_ascii_uppercase()), "{input:?} -> {slug:?}");
    assert!(!slug.contains(' '), "{input:?} -> {slug:?}");
    assert!(!slug.is_empty(), "{input:?} -> {slug:?}");
}

#[test]
fn slug_normalisation_is_lowercase_and_no_spaces() {
    for input in [
        "",
        " ",
        "Hello World",
        "ÄÖÜ über Straße",
        "---",
        "  Mixed\tCASE\nLines  ",
        "a - b -- c",
        "日本語",
        "x\u{a0}y",
        "#!/bin/sh",
    ] {
        assert_slug_shape(input);
    }
}

#[test]
fn slug_exact_values() {
    assert_eq!(normalise_slug("Hello World"), "hello-world");
    assert_eq!(normalise_slug("Spec   Parsing"), "spec---parsing");
    assert_eq!(normalise_slug("a - b"), "a---b");
    assert_eq!(normalise_slug("--Lead--Trail--"), "--lead--trail--");
    assert_eq!(normalise_slug("C++ & Rust!"), "c--rust");
    assert_eq!(normalise_slug("What's new? (v2.0)"), "whats-new-v20");
    assert_eq!(normalise_slug("Straße"), "straße");
    assert_eq!(normalise_slug("ÄÖÜ über"), "äöü-über");
    assert_eq!(normalise_slug("日本語"), "日本語");
    assert_eq!(normalise_slug("x\u{a0}y\tz"), "xyz");
    assert_eq!(normalise_slug("Exit_Code Rules"), "exit_code-rules");
    assert_eq!(normalise_slug("__init__"), "__init__");
    assert_eq!(normalise_slug(""), "section");
    assert_eq!(normalise_slug("!!!"), "section");
}

#[test]
fn slug_is_idempotent() {
    for input in ["Hello World", "  a--b ", "", "!!!", "x y z", "C++ & Rust!"] {
        let once = normalise_slug(input);
        assert_eq!(normalise_slug(&once), once);
    }
}

#[test]
fn headings_levels_lines_and_duplicate_slugs() {
    let body = "intro\n# Title\n  ## Sub Part\n#NoSpace\n####### seven\n# Title\n#   \n### Title";
    let hs = extract_headings(body);
    let got: Vec<(u8, &str, &str, usize)> =
        hs.iter().map(|h| (h.level, h.text.as_str(), h.slug.as_str(), h.line)).collect();
    assert_eq!(
        got,
        vec![
            (1, "Title", "title", 2),
            (2, "Sub Part", "sub-part", 3),
            (1, "Title", "title-1", 6),
            (3, "Title", "title-2", 8),
        ]
    );
}

#[test]
fn heading_anchors_are_distinct() {
    let slugs: Vec<String> = extract_headings("# A\n# A\n# A 1").into_iter().map(|h| h.slug).collect();
    assert_eq!(slugs, vec!["a", "a-1", "a-1-1"]);
    let slugs: Vec<String> =
        extract_headings("# A-1\n# A\n# A\n# A").into_iter().map(|h| h.slug).collect();
    assert_eq!(slugs, vec!["a-1", "a", "a-2", "a-3"]);
}

#[test]
fn fenced_code_is_not_a_heading() {
    let hs = extract_headings("```\n# not a heading\n```\n# Real");
    let got: Vec<(u8, &str, &str, usize)> =
        hs.iter().map(|h| (h.level, h.text.as_str(), h.slug.as_str(), h.line)).collect();
    assert_eq!(got, vec![(1, "Real", "real", 4)]);
    let hs = extract_headings("~~~rust\n# in\n```\n# still in\n~~~\n## Out");
    let got: Vec<&str> = hs.iter().map(|h| h.text.as_str()).collect();
    assert_eq!(got, vec!["Out"]);
}

#[test]
fn yaml_block_between_delimiters() {
    assert_eq!(
        front_matter_yaml_block("---\nKind: context\nRoot: true\n---\n\n# Root\n"),
        Some("Kind: context\nRoot: true".to_string())
    );
    assert_eq!(front_matter_yaml_block("# No front matter\n"), None);
    assert_eq!(front_matter_yaml_block("---\nKind: context\n"), None);
}

#[test]
fn front_matter_errors() {
    let result = parse_files(
        vec![
            file("open.md", "# No front matter\n", FrontMatter::default()),
            file("unclosed.md", "---\nKind: context\n", FrontMatter::default()),
            SpecFileInput {
                file_name: "bad-yaml.md".to_string(),
                content: Ok("---\nKind: [\n---\n# T\n".to_string()),
                front_matter: Err("did not find expected node content".to_string()),
            },
        ],
        ParseOptions::default(),
    );
    let fm: Vec<&Diagnostic> = result
        .diagnostics
        .iter()
        .filter(|d| d.code == DiagnosticCode::InvalidFrontMatter)
        .collect();
    assert_eq!(fm.len(), 3);
    assert!(fm.iter().any(|d| d.message
        == "Parse YAML front matter in 'bad-yaml.md' correctly: did not find expected node content"));
    assert!(fm.iter().any(|d| d.message == "Start file with YAML front matter delimited by '---'."));
    assert!(fm.iter().any(|d| d.message == "Close YAML front matter with a terminating '---' line."));
    // Headings are still read from a file without front matter.
    let open = result.specs.iter().find(|s| s.file_name == "open.md").unwrap();
    assert_eq!(open.headings.len(), 1);
    assert_eq!(open.kind, None);
}

#[test]
fn read_failure_is_reported_and_file_kept() {
    let result = parse_files(
        vec![SpecFileInput {
            file_name: "gone.md".to_string(),
            content: Err("permission denied".to_string()),
            front_matter: Err("unused".to_string()),
        }],
        ParseOptions::default(),
    );
    assert_eq!(result.specs.len(), 1);
    assert!(result.specs[0].headings.is_empty());
    assert!(result
        .diagnostics
        .iter()
        .any(|d| d.code == DiagnosticCode::IoReadFailure
            && d.message == "Read 'gone.md' failed: permission denied"));
}

#[test]
fn walk_failure_is_reported() {
    let entries = vec![WalkEntry::Failed { message: "loop detected".to_string() }];
    let discovery = discover_spec_files(&entries);
    assert!(discovery.file_names.is_empty());
    assert_eq!(discovery.diagnostics.len(), 1);
    assert_eq!(discovery.diagnostics[0].code, DiagnosticCode::IoReadFailure);
    assert_eq!(discovery.diagnostics[0].message, "Read directory entry failed: loop detected");
    assert_eq!(discovery.diagnostics[0].location, None);
}

#[test]
fn discovery_filters_and_sorts() {
    let entries = vec![
        found("zeta.md", 1, true),
        found("notes.txt", 1, true),
        found("Alpha.MD", 1, true),
        found("dir", 1, false),
        found("beta.md", 1, true),
    ];
    let discovery = discover_spec_files(&entries);
    assert_eq!(discovery.file_names, vec!["Alpha.MD", "beta.md", "zeta.md"]);
    assert!(discovery.diagnostics.is_empty());
}

#[test]
fn kind_errors() {
    let result = parse_files(
        vec![
            file("none.md", "---\nRoot: false\n---\n# N\n", front(None, None, None)),
            file("odd.md", "---\nKind: story\n---\n# O\n", front(Some("story"), None, None)),
            file("ok.md", "---\nKind: interface\n---\n# K\n", front(Some("interface"), None, None)),
        ],
        ParseOptions::default(),
    );
    let kinds: Vec<Option<SpecKind>> = result.specs.iter().map(|s| s.kind).collect();
    assert_eq!(kinds, vec![None, None, Some(SpecKind::Interface)]);
    assert!(result.diagnostics.iter().any(|d| d.code == DiagnosticCode::InvalidKind
        && d.message == "Declare Kind in front matter for 'none.md'."));
    assert!(result.diagnostics.iter().any(|d| d.code == DiagnosticCode::InvalidKind
        && d.message
            == "Use a valid Kind in 'odd.md': feature | behavioural | interface | constraint | context."));
}

#[test]
fn specifies_errors() {
    let result = parse_files(
        vec![
            file(
                "scalar.md",
                "---\nKind: context\nSpecifies: x\n---\n# S\n",
                FrontMatter {
                    kind: Some("context".to_string()),
                    specifies: Some(SpecifiesValue::NotAList),
                    root: None,
                },
            ),
            file(
                "mixed.md",
                "---\nKind: context\nSpecifies:\n  - 3\n  - nofile\n  - ok.md#   \n  - ok.md#Some Heading\n---\n# M\n",
                FrontMatter {
                    kind: Some("context".to_string()),
                    specifies: Some(SpecifiesValue::List(vec![
                        None,
                        Some("nofile".to_string()),
                        Some("ok.md#   ".to_string()),
                        Some("ok.md#Some Heading".to_string()),
                    ])),
                    root: None,
                },
            ),
            file("ok.md", "---\nKind: context\n---\n# Some Heading\n", front(Some("context"), None, None)),
        ],
        ParseOptions::default(),
    );
    let codes: Vec<DiagnosticCode> = result.diagnostics.iter().map(|d| d.code).collect();
    assert_eq!(
        codes,
        vec![
            DiagnosticCode::InvalidSpecifies,
            DiagnosticCode::InvalidSpecifiesTarget,
            DiagnosticCode::InvalidSpecifiesTarget,
            DiagnosticCode::InvalidSpecifies,
        ]
    );
    assert_eq!(
        result.diagnostics[1].message,
        "Use Specifies target format file.md#heading-slug in 'mixed.md': 'nofile'."
    );
    assert_eq!(
        result.diagnostics[2].message,
        "Use non-empty heading slug in Specifies target for 'mixed.md': 'ok.md#   '."
    );
    let mixed = result.specs.iter().find(|s| s.file_name == "mixed.md").unwrap();
    assert_eq!(mixed.specifies.len(), 1);
    assert_eq!(mixed.specifies[0].raw, "ok.md#Some Heading");
    assert_eq!(mixed.specifies[0].file_name, "ok.md");
    assert_eq!(mixed.specifies[0].heading_slug, "some-heading");
    assert!(result.graph.edges.iter().any(|e| e.kind == GraphEdgeKind::Specifies
        && e.source == "mixed.md"
        && e.target == "ok.md#some-heading"));
}

#[test]
fn specifies_target_with_a_path() {
    let result = parse_files(
        vec![file(
            "child.md",
            "---\nKind: behavioural\n---\n# C\n",
            front(Some("behavioural"), Some(&["spec-parser/spec-parsing.md#link-extraction"]), None),
        )],
        ParseOptions::default(),
    );
    let t = &result.specs[0].specifies;
    assert_eq!(t.len(), 1);
    assert_eq!(t[0].raw, "spec-parser/spec-parsing.md#link-extraction");
    assert_eq!(t[0].file_name, "spec-parser/spec-parsing.md");
    assert_eq!(t[0].heading_slug, "link-extraction");
    assert!(!has_code(&result, DiagnosticCode::InvalidSpecifiesTarget));
    assert!(has_code(&result, DiagnosticCode::BrokenTargetFile));
}

#[test]
fn root_flag_and_invalid_root() {
    let result = parse_files(
        vec![
            file(
                "arch.md",
                "---\nKind: feature\nRoot: true\n---\n# Arch\n",
                front(Some("feature"), None, Some(RootValue::Flag(true))),
            ),
            file(
                "weird.md",
                "---\nKind: context\nRoot: yes please\n---\n# W\n",
                front(Some("context"), None, Some(RootValue::NotAFlag)),
            ),
        ],
        ParseOptions::default(),
    );
    assert!(result.specs[0].is_root);
    assert!(!result.specs[1].is_root);
    // A root feature needs no Specifies target.
    assert!(!has_code(&result, DiagnosticCode::OrphanSpec));
    assert!(result.diagnostics.iter().any(|d| d.code == DiagnosticCode::InvalidRoot
        && d.message == "Set Root in 'weird.md' to a boolean (true or false)."));
}

#[test]
fn broken_target_file_and_spec_format_exemption() {
    let result = parse_files(
        vec![
            file(
                "lost.md",
                "---\nKind: behavioural\nSpecifies:\n  - missing.md#x\n---\n# L\n",
                front(Some("behavioural"), Some(&["missing.md#x"]), None),
            ),
            file("spec-format.md", "---\nKind: feature\n---\n# F\n", front(Some("feature"), None, None)),
        ],
        ParseOptions::default(),
    );
    let codes: Vec<DiagnosticCode> = result.diagnostics.iter().map(|d| d.code).collect();
    assert_eq!(codes, vec![DiagnosticCode::BrokenTargetFile, DiagnosticCode::OrphanSpec]);
    assert_eq!(
        result.diagnostics[0].message,
        "Resolve Specifies target 'missing.md#x' in 'lost.md' to an existing file."
    );
    assert_eq!(result.diagnostics[1].severity, DiagnosticSeverity::Warning);
    let loc = result.diagnostics[1].location.clone().unwrap();
    assert_eq!((loc.file_name.as_str(), loc.line, loc.column), ("lost.md", Some(1), Some(1)));
}

#[test]
fn cross_reference_checks() {
    let body = "---\nKind: context\n---\n# Local Part\n\n[a](#local-part) [b](#missing) [c](https://x.org) \
                [d](mailto:a@b.c) [e](other.md#x) [f](gone.md) [g](../up.md) [h](http://y)\n";
    let result = parse_files(
        vec![
            file("refs.md", body, front(Some("context"), None, None)),
            file("other.md", "---\nKind: context\n---\n# O\n", front(Some("context"), None, None)),
        ],
        ParseOptions::default(),
    );
    let refs: Vec<(&DiagnosticCode, &str)> =
        result.diagnostics.iter().map(|d| (&d.code, d.message.as_str())).collect();
    assert_eq!(
        refs,
        vec![
            (
                &DiagnosticCode::BrokenCrossReferenceHeading,
                "Resolve local heading link '#missing' in 'refs.md'."
            ),
            (
                &DiagnosticCode::BrokenCrossReferenceFile,
                "Resolve cross-reference 'gone.md' in 'refs.md' to an existing spec file."
            ),
            (
                &DiagnosticCode::InvalidCrossReference,
                "Use local spec link format file.md or file.md#heading-slug in 'refs.md': '../up.md'."
            ),
        ]
    );
    assert!(result.diagnostics.iter().all(|d| d.severity == DiagnosticSeverity::Warning));
}

#[test]
fn graph_nodes_and_contains_edges() {
    let result = parse_files(
        vec![file(
            "a.md",
            "---\nKind: context\n---\n# One\n## Two\n",
            front(Some("context"), None, None),
        )],
        ParseOptions::default(),
    );
    let nodes: Vec<(&str, GraphNodeKind)> =
        result.graph.nodes.iter().map(|n| (n.id.as_str(), n.kind)).collect();
    assert_eq!(
        nodes,
        vec![
            ("a.md", GraphNodeKind::File),
            ("a.md#one", GraphNodeKind::Section),
            ("a.md#two", GraphNodeKind::Section),
        ]
    );
    let edges: Vec<(&str, &str, GraphEdgeKind)> = result
        .graph
        .edges
        .iter()
        .map(|e| (e.source.as_str(), e.target.as_str(), e.kind))
        .collect();
    assert_eq!(
        edges,
        vec![
            ("a.md#one", "a.md", GraphEdgeKind::Contains),
            ("a.md#two", "a.md", GraphEdgeKind::Contains),
        ]
    );
}

#[test]
fn cycle_message_names_the_path() {
    let result = parse_files(
        vec![
            file(
                "a.md",
                "---\nKind: feature\nSpecifies:\n  - b.md#b\n---\n\n# A\n",
                front(Some("feature"), Some(&["b.md#b"]), None),
            ),
            file(
                "b.md",
                "---\nKind: feature\nSpecifies:\n  - a.md#a\n---\n\n# B\n",
                front(Some("feature"), Some(&["a.md#a"]), None),
            ),
        ],
        ParseOptions::default(),
    );
    let cycles: Vec<&str> = result
        .diagnostics
        .iter()
        .filter(|d| d.code == DiagnosticCode::CycleDetected)
        .map(|d| d.message.as_str())
        .collect();
    assert_eq!(cycles, vec!["Break directed cycle: a.md -> b.md#b -> b.md -> a.md#a -> a.md"]);
}

fn node(id: &str) -> GraphNode {
    GraphNode { id: id.to_string(), kind: GraphNodeKind::File, file_name: id.to_string() }
}

fn edge(a: &str, b: &str) -> GraphEdge {
    GraphEdge { source: a.to_string(), target: b.to_string(), kind: GraphEdgeKind::Specifies }
}

#[test]
fn reported_cycles_follow_edges() {
    let nodes = vec![node("a"), node("b"), node("c"), node("d")];
    let edges = vec![edge("a", "b"), edge("b", "c"), edge("c", "a"), edge("c", "b"), edge("d", "d")];
    let cycles = find_cycles(&nodes, &edges);
    assert_eq!(
        cycles,
        vec![
            vec!["a".to_string(), "b".to_string(), "c".to_string(), "a".to_string()],
            vec!["b".to_string(), "c".to_string(), "b".to_string()],
            vec!["d".to_string(), "d".to_string()],
        ]
    );
    for cycle in &cycles {
        assert_eq!(cycle.first(), cycle.last());
        for step in cycle.windows(2) {
            assert!(edges.iter().any(|e| e.source == step[0] && e.target == step[1]));
        }
    }
    assert!(find_cycles(&nodes, &vec![edge("a", "b"), edge("b", "c")]).is_empty());
    // A cycle reached from a node, through names that are not nodes.
    let cycles = find_cycles(&vec![node("a")], &vec![edge("a", "b"), edge("b", "c"), edge("c", "b")]);
    assert_eq!(cycles, vec![vec!["b".to_string(), "c".to_string(), "b".to_string()]]);
    // A cycle no node reaches is not reported.
    assert!(find_cycles(&vec![node("a")], &vec![edge("b", "c"), edge("c", "b")]).is_empty());
}

#[test]
fn warning_policy_promotes_warnings() {
    let make = |severity| Diagnostic {
        severity,
        code: DiagnosticCode::OrphanSpec,
        message: "m".to_string(),
        location: None,
    };
    let mut ds = vec![make(DiagnosticSeverity::Warning), make(DiagnosticSeverity::Error)];
    apply_warning_policy(&mut ds, ParseOptions::default());
    assert_eq!(ds[0].severity, DiagnosticSeverity::Warning);
    apply_warning_policy(&mut ds, ParseOptions { strict: false, warnings_as_errors: true });
    assert!(ds.iter().all(|d| d.severity == DiagnosticSeverity::Error));
    let mut ds2 = vec![make(DiagnosticSeverity::Warning)];
    apply_warning_policy(&mut ds2, ParseOptions { strict: true, warnings_as_errors: false });
    assert_eq!(ds2[0].severity, DiagnosticSeverity::Error);
}

#[test]
fn strict_parse_turns_orphans_into_errors() {
    let result = parse_files(
        vec![file("feature.md", "---\nKind: feature\n---\n# F\n", front(Some("feature"), None, None))],
        ParseOptions { strict: true, warnings_as_errors: false },
    );
    assert!(result
        .diagnostics
        .iter()
        .any(|d| d.code == DiagnosticCode::OrphanSpec && d.severity == DiagnosticSeverity::Error));
}

#[test]
fn display_names_and_sorting() {
    assert_eq!(path_to_display_name("dir\\sub\\a.md"), "dir/sub/a.md");
    assert_eq!(path_to_display_name("plain.md"), "plain.md");
    assert_eq!(
        sort_names(vec!["b.md".to_string(), "B.md".to_string(), "a.md".to_string()]),
        vec!["B.md", "a.md", "b.md"]
    );
}

#[test]
fn outcomes_from_captures() {
    let caps = Some(vec![Some("a.md#Some Heading".to_string()), Some("a.md".to_string()), Some(" Some Heading ".to_string())]);
    let t = target_from_captures("x.md", "a.md#Some Heading", &caps).unwrap();
    assert_eq!((t.raw.as_str(), t.file_name.as_str(), t.heading_slug.as_str()), ("a.md#Some Heading", "a.md", "some-heading"));
    let d = target_from_captures("x.md", "junk", &None).unwrap_err();
    assert_eq!(d.code, DiagnosticCode::InvalidSpecifiesTarget);
    let blank = Some(vec![Some("a.md# ".to_string()), Some("a.md".to_string()), Some(" ".to_string())]);
    assert_eq!(
        target_from_captures("x.md", "a.md# ", &blank).unwrap_err().message,
        "Use non-empty heading slug in Specifies target for 'x.md': 'a.md# '."
    );
    let known = vec!["a.md".to_string()];
    assert_eq!(file_link_diagnostics("x.md", "../a.md", &None, &known)[0].code, DiagnosticCode::InvalidCrossReference);
    assert!(file_link_diagnostics("x.md", "a.md", &Some(vec![Some("a.md".to_string()), Some("a.md".to_string()), None]), &known).is_empty());
    let mut ds = Vec::new();
    let events = vec![None, Some("#gone".to_string()), Some("https://x".to_string())];
    crossref_diagnostics("x.md", &events, &vec!["here".to_string()], &known, &mut ds);
    assert_eq!(ds.len(), 1);
    assert_eq!(ds[0].code, DiagnosticCode::BrokenCrossReferenceHeading);
}

#[test]
fn target_and_link_patterns_on_edge_cases() {
    let entries = [
        ("dir/a.md#Intro", Some(("dir/a.md", "intro"))),
        ("a.md#b#c", Some(("a.md", "bc"))),
        ("a.md.md#x", Some(("a.md.md", "x"))),
        ("a.md#", None),
        (".md#x", None),
        ("a b.md#x", None),
        ("a.md#x\ny", None),
        ("a.mdx#y", None),
    ];
    for (raw, expected) in entries {
        let mut ds = Vec::new();
        let value = Some(SpecifiesValue::List(vec![Some(raw.to_string())]));
        let targets = parse_specifies("x.md", &value, &mut ds);
        match expected {
            Some((file_name, slug)) => {
                assert_eq!(targets.len(), 1, "{raw:?}");
                assert_eq!(targets[0].file_name, file_name, "{raw:?}");
                assert_eq!(targets[0].heading_slug, slug, "{raw:?}");
                assert!(ds.is_empty(), "{raw:?}");
            }
            None => {
                assert!(targets.is_empty(), "{raw:?}");
                assert_eq!(ds.len(), 1, "{raw:?}");
                assert_eq!(ds[0].code, DiagnosticCode::InvalidSpecifiesTarget, "{raw:?}");
            }
        }
    }
    let known = vec!["a.md".to_string()];
    for (dest, expected) in [
        ("a.md", None),
        ("a.md#Part", None),
        ("b.md", Some(DiagnosticCode::BrokenCrossReferenceFile)),
        ("dir/a.md", Some(DiagnosticCode::InvalidCrossReference)),
        ("a.md#", Some(DiagnosticCode::InvalidCrossReference)),
        ("notes.txt", Some(DiagnosticCode::InvalidCrossReference)),
    ] {
        let mut ds = Vec::new();
        crossref_diagnostics("x.md", &vec![Some(dest.to_string())], &Vec::new(), &known, &mut ds);
        assert_eq!(ds.first().map(|d| d.code.clone()), expected, "{dest:?}");
    }
}
