use sieve::detect::{detect_projects, test_command_for, DetectedProject, ProjectMarkers};
use sieve::text::{contains, decimal_string, ends_with, lex_less, parse_name_list, starts_with, trim};

fn markers() -> ProjectMarkers {
    ProjectMarkers {
        cargo_toml: false,
        package_json: false,
        pyproject_toml: false,
        setup_py: false,
        requirements_txt: false,
        go_mod: false,
        src_tauri: false,
    }
}

#[test]
fn string_predicates() {
    assert!(starts_with("tests/a.rs", "tests/"));
    assert!(!starts_with("src/tests/a.rs", "tests/"));
    assert!(contains("src/tests/a.rs", "/tests/"));
    assert!(contains("abc", ""));
    assert!(!contains("ab", "abc"));
    assert!(ends_with("foo_test.go", "_test.go"));
    assert!(!ends_with("foo_test.go.bak", "_test.go"));
}

#[test]
fn trim_matches_std() {
    for s in ["", "  ", " a ", "\ta\r", "\u{3000}x y\u{2028}", "a", "\u{85}b\u{a0}"] {
        assert_eq!(trim(s), s.trim().to_string());
    }
}

#[test]
fn name_list_skips_blank_lines_and_trims() {
    let text = "src/a.rs\n\n  src/b.rs  \r\n\t\nlast";
    assert_eq!(
        parse_name_list(text),
        vec!["src/a.rs".to_string(), "src/b.rs".to_string(), "last".to_string()]
    );
    assert!(parse_name_list("").is_empty());
    assert!(parse_name_list("\n\n").is_empty());
}

#[test]
fn decimal_numerals() {
    assert_eq!(decimal_string(0), "0");
    assert_eq!(decimal_string(7), "7");
    assert_eq!(decimal_string(340), "340");
    assert_eq!(decimal_string(u64::MAX), u64::MAX.to_string());
}

#[test]
fn lexicographic_order_matches_string_order() {
    let words = ["", "a", "b", "ab", "abc", "B", "é", "z", "tests/a.rs", "tests/b.rs"];
    for a in words {
        for b in words {
            assert_eq!(lex_less(a, b), a < b, "{a:?} < {b:?}");
        }
    }
}

#[test]
fn detects_projects_in_order() {
    let mut m = markers();
    assert!(detect_projects(&m).is_empty());
    m.cargo_toml = true;
    m.setup_py = true;
    m.src_tauri = true;
    let p = detect_projects(&m);
    let kinds: Vec<(&str, &str)> = p.iter().map(|p| (p.kind.as_str(), p.root.as_str())).collect();
    assert_eq!(kinds, vec![("rust", "."), ("python", "."), ("tauri", "src-tauri")]);
}

#[test]
fn project_test_commands() {
    let cmd = |k: &str| test_command_for(&DetectedProject { kind: k.to_string(), root: ".".to_string() });
    assert_eq!(cmd("rust").as_deref(), Some("cargo test"));
    assert_eq!(cmd("tauri").as_deref(), Some("cargo test"));
    assert_eq!(cmd("node").as_deref(), Some("npm test"));
    assert_eq!(cmd("python").as_deref(), Some("python -m pytest"));
    assert_eq!(cmd("go").as_deref(), Some("go test ./..."));
    assert_eq!(cmd("java"), None);
}
