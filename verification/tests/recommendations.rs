use sieve::analyze::{
    primary_project_kind, reverse_dependencies, run_analysis, source_files, AnalysisResult,
    AtlasNode, RepoFacts, SentinelFileRisk, SentinelMatrix, SentinelRelatedTest, Signal,
};
use sieve::conventions::{find_convention_matches, generate_test_candidates};
use sieve::detect::{detect_projects, DetectedProject, ProjectMarkers};
use sieve::imports::extract_imports;
use sieve::report::{
    build_coverage_gaps, build_recommendations, confidence_label, confidence_rank,
    confidence_score, render_text, scores_within_limit, signal_score, GAP_REASON,
};

fn s(x: &str) -> String {
    x.to_string()
}

fn rust_projects() -> Vec<DetectedProject> {
    detect_projects(&ProjectMarkers {
        cargo_toml: true,
        package_json: false,
        pyproject_toml: false,
        setup_py: false,
        requirements_txt: false,
        go_mod: false,
        src_tauri: false,
    })
}

/// What a repository with the given files holds, gathered as the tool does.
fn facts(changed: &[String], files: &[(&str, &str)], atlas: Option<Vec<AtlasNode>>) -> RepoFacts {
    let test_files: Vec<String> = files
        .iter()
        .filter(|(p, _)| p.starts_with("tests/") && p.ends_with(".rs"))
        .map(|(p, _)| s(p))
        .collect();
    let mut existing = Vec::new();
    for f in changed {
        for (cand, _) in generate_test_candidates(f, "rust") {
            if files.iter().any(|(p, _)| *p == cand) {
                existing.push(cand);
            }
        }
    }
    let test_imports = test_files
        .iter()
        .map(|t| {
            let content = files.iter().find(|(p, _)| p == t).unwrap().1;
            extract_imports(t, content)
        })
        .collect();
    RepoFacts {
        test_files,
        existing_files: existing,
        test_imports,
        commit_files: Vec::new(),
        sentinel: None,
        atlas,
    }
}

fn analyze(changed: &[&str], files: &[(&str, &str)], atlas: Option<Vec<AtlasNode>>) -> AnalysisResult {
    let changed: Vec<String> = changed.iter().map(|c| s(c)).collect();
    let repo = facts(&changed, files, atlas);
    run_analysis(&repo, &changed, &rust_projects()).unwrap()
}

fn signal(kind: &str, changed: &str, test: Option<&str>, command: Option<&str>, confidence: &str, reason: &str) -> Signal {
    Signal {
        kind: s(kind),
        changed_file: s(changed),
        test_file: test.map(s),
        command: command.map(s),
        confidence: s(confidence),
        reason: s(reason),
    }
}

#[test]
fn json_includes_ranked_recommendations_for_convention_match() {
    let result = analyze(
        &["src/claims.rs"],
        &[("src/claims.rs", "pub fn claim() {}\n"), ("tests/cli_claims.rs", "#[test] fn claim_cli() {}\n")],
        None,
    );
    let recs = build_recommendations(&result.signals);
    let gaps = build_coverage_gaps(&result);
    assert_eq!(result.changed_files[0], "src/claims.rs");
    assert_eq!(recs[0].command, "cargo test --test cli_claims");
    assert_eq!(recs[0].confidence, "high");
    assert_eq!(recs[0].test_files[0], "tests/cli_claims.rs");
    assert!(recs[0].reasons[0].contains("Convention"));
    assert_eq!(recs[0].reasons[0], "Convention: src->cli_test");
    assert!(gaps.is_empty());
    assert!(!result.signals.is_empty());
    assert_eq!(recs[0].score, 340);
}

#[test]
fn convention_signal_reason_names_the_convention() {
    let result = analyze(
        &["src/claims.rs"],
        &[("src/claims.rs", "pub fn claim() {}\n"), ("tests/cli_claims.rs", "#[test] fn claim_cli() {}\n")],
        None,
    );
    assert_eq!(result.changed_files, vec![s("src/claims.rs")]);
    assert_eq!(result.signals.len(), 1);
    let sig = &result.signals[0];
    assert_eq!(sig.kind, "convention_match");
    assert_eq!(sig.changed_file, "src/claims.rs");
    assert_eq!(sig.test_file.as_deref(), Some("tests/cli_claims.rs"));
    assert_eq!(sig.command.as_deref(), Some("cargo test --test cli_claims"));
    assert_eq!(sig.confidence, "high");
    assert_eq!(sig.reason, "Convention: src->cli_test");
    assert_eq!(result.full_validation_command.as_deref(), Some("cargo test"));
}

#[test]
fn fallback_recommendation_reports_coverage_gap() {
    let result = analyze(&["src/orphan.rs"], &[("src/orphan.rs", "pub fn orphan() {}\n")], None);
    let recs = build_recommendations(&result.signals);
    let gaps = build_coverage_gaps(&result);
    assert_eq!(recs[0].command, "cargo test");
    assert_eq!(recs[0].confidence, "low");
    assert_eq!(gaps[0].changed_file, "src/orphan.rs");
    assert!(gaps[0].reason.contains("No targeted test"));
    assert_eq!(gaps[0].reason, GAP_REASON);
    assert_eq!(result.signals[0].kind, "fallback");
    assert_eq!(result.signals[0].reason, "No specific test found; fallback to project-level: cargo test");
}

#[test]
fn atlas_rdep_surfaces_test_from_dependency_graph() {
    let nodes = vec![
        AtlasNode { path: s("src/core.rs"), deps: vec![] },
        AtlasNode { path: s("tests/smoke.rs"), deps: vec![s("src/core.rs")] },
    ];
    let result = analyze(
        &["src/core.rs"],
        &[("src/core.rs", "pub fn run() {}\n"), ("tests/smoke.rs", "#[test] fn it_runs() {}\n")],
        Some(nodes),
    );
    let sig = result.signals.iter().find(|x| x.kind == "atlas_rdep").expect("Expected atlas_rdep signal");
    assert_eq!(sig.changed_file, "src/core.rs");
    assert_eq!(sig.test_file.as_deref(), Some("tests/smoke.rs"));
    assert_eq!(sig.confidence, "high");
}

#[test]
fn text_output_highlights_recommendations_and_full_validation() {
    let result = analyze(
        &["src/claims.rs"],
        &[("src/claims.rs", "pub fn claim() {}\n"), ("tests/cli_claims.rs", "#[test] fn claim_cli() {}\n")],
        None,
    );
    let recs = build_recommendations(&result.signals);
    let gaps = build_coverage_gaps(&result);
    let text = render_text(&result, &recs, &gaps);
    assert!(text.contains("Recommendations"));
    assert!(text.contains("cargo test --test cli_claims"));
    assert!(text.contains("Full validation"));
    assert_eq!(
        text,
        "sieve: 1 changed file(s)\n\n  Recommendations:\n    [high score=340] cargo test --test cli_claims\n      tests: tests/cli_claims.rs\n      changes: src/claims.rs\n      reason: Convention: src->cli_test\n\n  Full validation: `cargo test`\n\n  Raw signals: 1\n"
    );
}

#[test]
fn empty_report_text() {
    let result = AnalysisResult { changed_files: vec![s("a")], signals: vec![], full_validation_command: None };
    let text = render_text(&result, &vec![], &build_coverage_gaps(&result));
    assert_eq!(
        text,
        format!("sieve: 1 changed file(s)\n\n  No test recommendations found.\n\n  Coverage gaps:\n    a: {GAP_REASON}\n")
    );
}

#[test]
fn changed_test_file_is_certain() {
    let result = analyze(&["tests/cli_claims.rs"], &[("tests/cli_claims.rs", "")], None);
    assert_eq!(result.signals.len(), 1);
    let sig = &result.signals[0];
    assert_eq!(sig.kind, "direct_test_change");
    assert_eq!(sig.confidence, "certain");
    assert_eq!(sig.command.as_deref(), Some("cargo test --test cli_claims"));
    assert_eq!(sig.reason, "tests/cli_claims.rs is itself a test file");
}

#[test]
fn import_match_found_when_no_convention() {
    let result = analyze(
        &["src/db.rs"],
        &[("src/db.rs", ""), ("tests/storage.rs", "use crate::db::Conn;\n")],
        None,
    );
    let sig = result.signals.iter().find(|x| x.kind == "import_match").expect("import signal");
    assert_eq!(sig.test_file.as_deref(), Some("tests/storage.rs"));
    assert_eq!(sig.reason, "Test imports module 'db'");
}

#[test]
fn import_match_skipped_when_convention_found() {
    let result = analyze(
        &["src/db.rs"],
        &[("src/db.rs", ""), ("tests/db.rs", "use crate::db;\n")],
        None,
    );
    let kinds: Vec<&str> = result.signals.iter().map(|x| x.kind.as_str()).collect();
    assert_eq!(kinds, vec!["convention_match"]);
}

#[test]
fn history_needs_two_co_changes() {
    let changed = vec![s("src/a.rs")];
    let repo = RepoFacts {
        test_files: vec![s("tests/x.rs"), s("tests/y.rs")],
        existing_files: vec![],
        test_imports: vec![vec![], vec![]],
        commit_files: vec![vec![
            vec![s("src/a.rs"), s("tests/x.rs"), s("tests/y.rs")],
            vec![s("src/a.rs"), s("tests/y.rs")],
        ]],
        sentinel: None,
        atlas: None,
    };
    let result = run_analysis(&repo, &changed, &rust_projects()).unwrap();
    assert_eq!(result.signals.len(), 1);
    assert_eq!(result.signals[0].kind, "history_correlation");
    assert_eq!(result.signals[0].test_file.as_deref(), Some("tests/y.rs"));
    assert_eq!(result.signals[0].confidence, "medium");
    assert_eq!(result.signals[0].reason, "Co-changed in 2 commits");
}

#[test]
fn sentinel_risk_signals() {
    let changed = vec![s("src/a.rs"), s("src/b.rs")];
    let matrix = SentinelMatrix {
        files: vec![
            SentinelFileRisk {
                path: s("src/a.rs"),
                risk_score: 87,
                level: s("high"),
                bugfix_commits: 5,
                related_tests: vec![SentinelRelatedTest { path: s("tests/a_flow.rs"), cochanges: 3 }],
                reasons: vec![s("hot spot")],
            },
            SentinelFileRisk {
                path: s("src/b.rs"),
                risk_score: 40,
                level: s("medium"),
                bugfix_commits: 1,
                related_tests: vec![],
                reasons: vec![],
            },
        ],
    };
    let repo = RepoFacts {
        test_files: vec![],
        existing_files: vec![],
        test_imports: vec![],
        commit_files: vec![],
        sentinel: Some(matrix),
        atlas: None,
    };
    let result = run_analysis(&repo, &changed, &rust_projects()).unwrap();
    assert_eq!(result.signals.len(), 2);
    let a = &result.signals[0];
    assert_eq!(a.kind, "sentinel_risk");
    assert_eq!(a.confidence, "certain");
    assert_eq!(a.command.as_deref(), Some("cargo test --test a_flow"));
    assert_eq!(a.reason, "Sentinel risk high (score 87, 5 bugfix commits): hot spot");
    let b = &result.signals[1];
    assert_eq!(b.test_file, None);
    assert_eq!(b.confidence, "high");
    assert_eq!(b.command.as_deref(), Some("cargo test"));
    assert_eq!(b.reason, "Sentinel risk medium (score 40) — full test suite recommended");
}

#[test]
fn atlas_signals_are_capped() {
    let deps = vec![s("src/hub.rs")];
    let nodes: Vec<AtlasNode> = (0..15)
        .map(|i| AtlasNode { path: format!("tests/t{i}.rs"), deps: deps.clone() })
        .collect();
    let result = analyze(&["src/hub.rs"], &[("src/hub.rs", "")], Some(nodes));
    let n = result.signals.iter().filter(|x| x.kind == "atlas_rdep").count();
    assert_eq!(n, 10);
}

#[test]
fn reverse_dependencies_normalize_and_skip_self_edges() {
    let nodes = vec![
        AtlasNode { path: s("./tests/a.rs"), deps: vec![s("src\\x.rs"), s("src/x.rs")] },
        AtlasNode { path: s("src/x.rs"), deps: vec![s("./src/x.rs")] },
    ];
    assert_eq!(reverse_dependencies(&nodes, "src/x.rs"), vec![s("tests/a.rs"), s("tests/a.rs")]);
}

#[test]
fn unknown_project_kind() {
    assert_eq!(primary_project_kind(&vec![]), "unknown");
    let changed = vec![s("src/a.rs")];
    let repo = RepoFacts {
        test_files: vec![],
        existing_files: vec![],
        test_imports: vec![],
        commit_files: vec![],
        sentinel: None,
        atlas: None,
    };
    let result = run_analysis(&repo, &changed, &vec![]).unwrap();
    assert!(result.signals.is_empty());
    assert_eq!(result.full_validation_command, None);
    assert_eq!(source_files(&changed, "unknown"), changed);
}

#[test]
fn recommendations_merge_by_command_and_rank() {
    let signals = vec![
        signal("import_match", "src/a.rs", Some("tests/b.rs"), Some("cargo test --test b"), "high", "r2"),
        signal("history_correlation", "src/c.rs", Some("tests/b.rs"), Some("cargo test --test b"), "medium", "r1"),
        signal("convention_match", "src/a.rs", Some("tests/a.rs"), Some("cargo test --test a"), "high", "r3"),
        signal("direct_test_change", "tests/z.rs", Some("tests/z.rs"), Some("cargo test --test z"), "certain", "r4"),
        signal("sentinel_risk", "src/a.rs", None, None, "certain", "no command"),
        signal("fallback", "src/a.rs", None, Some("cargo test"), "low", "r5"),
    ];
    assert!(scores_within_limit(&signals));
    let recs = build_recommendations(&signals);
    let summary: Vec<(&str, &str, u32)> =
        recs.iter().map(|r| (r.command.as_str(), r.confidence.as_str(), r.score)).collect();
    assert_eq!(
        summary,
        vec![
            ("cargo test --test b", "high", 560),
            ("cargo test --test z", "certain", 450),
            ("cargo test --test a", "high", 340),
            ("cargo test", "low", 100),
        ]
    );
    assert_eq!(recs[0].changed_files, vec![s("src/a.rs"), s("src/c.rs")]);
    assert_eq!(recs[0].reasons, vec![s("r1"), s("r2")]);
    assert_eq!(recs[0].signal_kinds, vec![s("history_correlation"), s("import_match")]);
    assert_eq!(recs[0].test_files, vec![s("tests/b.rs")]);
    assert!(recs[3].test_files.is_empty());
}

#[test]
fn equal_scores_rank_by_confidence_then_command() {
    let signals = vec![
        signal("x", "f", None, Some("zeta"), "high", "r"),
        signal("x", "f", None, Some("alpha"), "high", "r"),
        signal("x", "f", None, Some("beta"), "medium", "r"),
        signal("x", "f", None, Some("beta"), "low", "r"),
    ];
    let recs = build_recommendations(&signals);
    let order: Vec<&str> = recs.iter().map(|r| r.command.as_str()).collect();
    assert_eq!(order, vec!["alpha", "zeta", "beta"]);
    assert_eq!(recs[2].confidence, "medium");
    assert_eq!(recs[2].score, 300);
}

#[test]
fn scoring_tables() {
    assert_eq!(confidence_score("certain"), 400);
    assert_eq!(confidence_score("high"), 300);
    assert_eq!(confidence_score("medium"), 200);
    assert_eq!(confidence_score("low"), 100);
    assert_eq!(confidence_score("other"), 0);
    assert_eq!(signal_score("direct_test_change"), 50);
    assert_eq!(signal_score("convention_match"), 40);
    assert_eq!(signal_score("import_match"), 40);
    assert_eq!(signal_score("history_correlation"), 20);
    assert_eq!(signal_score("fallback"), 0);
    assert_eq!(signal_score("atlas_rdep"), 0);
    for label in ["certain", "high", "medium", "low"] {
        assert_eq!(confidence_label(confidence_rank(label)), label);
    }
    assert_eq!(confidence_label(0), "unknown");
    assert_eq!(confidence_rank("bogus"), 0);
}

#[test]
fn convention_matches_feed_signals_in_order() {
    let changed = vec![s("src/a.rs"), s("src/b.rs")];
    let existing = vec![s("tests/b.rs"), s("tests/a_test.rs")];
    let m = find_convention_matches(&changed, "rust", &existing);
    assert_eq!(m.len(), 2);
    assert_eq!(m[0].1, "tests/a_test.rs");
    assert_eq!(m[1].1, "tests/b.rs");
}

#[test]
fn later_phases_do_not_repeat_pairs() {
    let changed = vec![s("src/claims.rs")];
    let matrix = SentinelMatrix {
        files: vec![SentinelFileRisk {
            path: s("src/claims.rs"),
            risk_score: 10,
            level: s("medium"),
            bugfix_commits: 0,
            related_tests: vec![
                SentinelRelatedTest { path: s("tests/cli_claims.rs"), cochanges: 9 },
                SentinelRelatedTest { path: s("tests/other.rs"), cochanges: 1 },
                SentinelRelatedTest { path: s("tests/other.rs"), cochanges: 1 },
            ],
            reasons: vec![],
        }],
    };
    let repo = RepoFacts {
        test_files: vec![s("tests/cli_claims.rs")],
        existing_files: vec![s("tests/cli_claims.rs")],
        test_imports: vec![vec![]],
        commit_files: vec![vec![vec![s("tests/cli_claims.rs")], vec![s("tests/cli_claims.rs")]]],
        sentinel: Some(matrix),
        atlas: Some(vec![AtlasNode { path: s("tests/other.rs"), deps: vec![s("src/claims.rs")] }]),
    };
    let result = run_analysis(&repo, &changed, &rust_projects()).unwrap();
    let kinds: Vec<(&str, Option<&str>)> =
        result.signals.iter().map(|x| (x.kind.as_str(), x.test_file.as_deref())).collect();
    assert_eq!(
        kinds,
        vec![("convention_match", Some("tests/cli_claims.rs")), ("sentinel_risk", Some("tests/other.rs"))]
    );
    assert_eq!(result.signals[1].confidence, "high");
    assert_eq!(result.signals[1].reason, "Sentinel risk medium (score 10, 0 bugfix commits): fragile file");
}

#[test]
fn every_signal_pairs_kind_with_its_confidence() {
    let documented = [
        ("direct_test_change", "certain"),
        ("convention_match", "high"),
        ("import_match", "high"),
        ("history_correlation", "medium"),
        ("sentinel_risk", "certain"),
        ("sentinel_risk", "high"),
        ("atlas_rdep", "high"),
        ("fallback", "low"),
    ];
    let results = [
        analyze(&["tests/a.rs", "src/db.rs"], &[("tests/a.rs", "use crate::db;"), ("tests/db.rs", "")], None),
        analyze(&["src/x.rs"], &[("src/x.rs", "")], None),
    ];
    for r in &results {
        for sig in &r.signals {
            assert!(documented.contains(&(sig.kind.as_str(), sig.confidence.as_str())), "{sig:?}");
        }
    }
}

#[test]
fn recommendations_do_not_depend_on_signal_order() {
    let signals = vec![
        signal("import_match", "src/a.rs", Some("tests/b.rs"), Some("cargo test --test b"), "high", "r2"),
        signal("history_correlation", "src/c.rs", Some("tests/b.rs"), Some("cargo test --test b"), "medium", "r1"),
        signal("convention_match", "src/a.rs", Some("tests/a.rs"), Some("cargo test --test a"), "high", "r3"),
        signal("fallback", "src/a.rs", None, Some("cargo test"), "low", "r5"),
    ];
    let mut reordered = signals.clone();
    reordered.reverse();
    reordered.swap(0, 2);
    let a = build_recommendations(&signals);
    let b = build_recommendations(&reordered);
    let key = |rs: &Vec<sieve::report::Recommendation>| {
        rs.iter()
            .map(|r| (r.command.clone(), r.confidence.clone(), r.score, r.test_files.clone(), r.changed_files.clone(), r.reasons.clone(), r.signal_kinds.clone()))
            .collect::<Vec<_>>()
    };
    assert_eq!(key(&a), key(&b));
}
