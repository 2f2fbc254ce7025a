use sieve::analyze::{extract_module_name, is_test_file, normalize_path, test_command_for_file};
use sieve::conventions::{
    discover_test_files, find_convention_matches, generate_test_candidates, scan_roots,
    skips_directory, FoundFile, NameRule,
};

fn s(x: &str) -> String {
    x.to_string()
}

fn found(path: &str) -> FoundFile {
    let name = path.rsplit('/').next().unwrap().to_string();
    FoundFile { path: s(path), name }
}

#[test]
fn rust_candidates() {
    let c = generate_test_candidates("src/claims.rs", "rust");
    assert_eq!(
        c,
        vec![
            (s("tests/claims.rs"), s("src->tests mirror")),
            (s("tests/claims_test.rs"), s("src->tests_test")),
            (s("tests/cli_claims.rs"), s("src->cli_test")),
        ]
    );
    assert!(generate_test_candidates("lib/claims.rs", "rust").is_empty());
}

#[test]
fn node_python_go_candidates() {
    let c = generate_test_candidates("src/utils.ts", "node");
    assert_eq!(c[0].0, "src/utils.test.ts");
    assert_eq!(c[1].0, "__tests__/utils.test.ts");
    assert_eq!(c[2].0, "test/utils.test.ts");
    assert_eq!(c[3].0, "src/utils.spec.ts");
    let c = generate_test_candidates("pkg/module.py", "python");
    assert_eq!(c, vec![(s("tests/test_module.py"), s("tests/test_")), (s("pkg/test_module.py"), s("co-located test_"))]);
    let c = generate_test_candidates("cmd/main.go", "go");
    assert_eq!(c, vec![(s("cmd/main_test.go"), s("go _test.go"))]);
    assert!(generate_test_candidates("cmd/main_test.go", "go").is_empty());
    // A file at the root has an empty parent.
    assert_eq!(generate_test_candidates("main.go", "go")[0].0, "/main_test.go");
    assert!(generate_test_candidates("x.rb", "ruby").is_empty());
}

#[test]
fn convention_matches_keep_existing_candidates() {
    let changed = vec![s("src/claims.rs"), s("src/db.rs")];
    let existing = vec![s("tests/cli_claims.rs"), s("tests/db.rs")];
    let m = find_convention_matches(&changed, "rust", &existing);
    assert_eq!(
        m,
        vec![
            (s("src/claims.rs"), s("tests/cli_claims.rs"), s("src->cli_test")),
            (s("src/db.rs"), s("tests/db.rs"), s("src->tests mirror")),
        ]
    );
}

#[test]
fn test_file_conventions() {
    assert!(is_test_file("tests/cli.rs", "rust"));
    assert!(is_test_file("crates/x/tests/a.rs", "rust"));
    assert!(!is_test_file("src/claims.rs", "rust"));
    assert!(is_test_file("src/a.test.js", "node"));
    assert!(is_test_file("src/__tests__/a.js", "node"));
    assert!(is_test_file("test_a.py", "python"));
    assert!(is_test_file("a_test.go", "go"));
    assert!(!is_test_file("tests/cli.rs", "unknown"));
}

#[test]
fn module_names_and_commands() {
    assert_eq!(extract_module_name("src/claims.rs", "rust").as_deref(), Some("claims"));
    assert_eq!(extract_module_name("src/utils.ts", "node").as_deref(), Some("utils"));
    assert_eq!(extract_module_name("src/claims.rs", "unknown"), None);
    assert_eq!(test_command_for_file("tests/cli_claims.rs", "rust").as_deref(), Some("cargo test --test cli_claims"));
    assert_eq!(test_command_for_file("src/lib.rs", "rust").as_deref(), Some("cargo test"));
    assert_eq!(test_command_for_file("src/a.test.js", "node").as_deref(), Some("npx jest src/a.test.js"));
    assert_eq!(test_command_for_file("tests/test_a.py", "python").as_deref(), Some("python -m pytest tests/test_a.py"));
    assert_eq!(test_command_for_file("pkg/a_test.go", "go").as_deref(), Some("go test ./pkg"));
    assert_eq!(test_command_for_file("a_test.go", "go").as_deref(), Some("go test ."));
    assert_eq!(test_command_for_file("x", "ruby"), None);
}

#[test]
fn paths_are_normalized() {
    assert_eq!(normalize_path("./src/a.rs"), "src/a.rs");
    assert_eq!(normalize_path("src\\win\\a.rs"), "src/win/a.rs");
    assert_eq!(normalize_path("././a"), "./a");
    assert_eq!(normalize_path(""), "");
}

#[test]
fn scan_plans() {
    let r = scan_roots("node");
    let dirs: Vec<&str> = r.iter().map(|x| x.dir.as_str()).collect();
    assert_eq!(dirs, vec!["__tests__", "test", "tests", "src"]);
    assert!(r.iter().all(|x| x.recursive && x.rule == NameRule::ScriptTest));
    assert_eq!(scan_roots("rust").len(), 1);
    assert!(!scan_roots("rust")[0].recursive);
    assert!(scan_roots("other").is_empty());
    assert!(skips_directory(NameRule::ScriptTest, "node_modules"));
    assert!(skips_directory(NameRule::GoTest, "vendor"));
    assert!(!skips_directory(NameRule::GoTest, "target"));
}

#[test]
fn discovery_filters_found_files() {
    let found_rust = vec![vec![found("tests/cli.rs"), found("tests/data.json"), found("tests/common")]];
    assert_eq!(discover_test_files("rust", &found_rust), vec![s("tests/cli.rs")]);
    let found_py = vec![
        vec![found("tests/test_a.py"), found("tests/helpers.py"), found("tests/sub/b_test.py")],
        vec![found("test_root.py"), found("setup.py"), found("test_notes.txt")],
    ];
    assert_eq!(
        discover_test_files("python", &found_py),
        vec![s("tests/test_a.py"), s("tests/sub/b_test.py"), s("test_root.py")]
    );
    let found_go = vec![vec![found("a_test.go"), found("pkg/b.go"), found("pkg/b_test.go")]];
    assert_eq!(discover_test_files("go", &found_go), vec![s("a_test.go"), s("pkg/b_test.go")]);
    // Walk results beyond the plan count for nothing.
    assert!(discover_test_files("unknown", &found_go).is_empty());
}
