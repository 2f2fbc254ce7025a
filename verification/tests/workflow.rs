use sieve::cli::{Cli, Command, OutputFormat};
use sieve::diff::{get_changed_files, git_args, next_diff_step, DiffQuery, DiffStep};
use sieve::error::SieveError;
use sieve::history::{counts_within_limit, find_co_changed_tests, HISTORY_COMMIT_LIMIT};

fn s(x: &str) -> String {
    x.to_string()
}

fn done(step: DiffStep) -> Vec<String> {
    match step {
        DiffStep::Done(v) => v,
        DiffStep::Run(q) => panic!("expected done, got {q:?}"),
    }
}

#[test]
fn explicit_files_win() {
    assert_eq!(done(get_changed_files(&vec![s("src/a.rs")])), vec![s("src/a.rs")]);
    assert!(matches!(get_changed_files(&vec![]), DiffStep::Run(DiffQuery::Staged)));
}

#[test]
fn listings_are_tried_in_order() {
    let base = None;
    let step = next_diff_step(&DiffQuery::Staged, &base, vec![]);
    let q = match step {
        DiffStep::Run(q) => q,
        _ => panic!(),
    };
    assert!(matches!(&q, DiffQuery::Unstaged(b) if b == "HEAD"));
    assert_eq!(git_args(&q), vec![s("diff"), s("--name-only"), s("HEAD")]);
    let step = next_diff_step(&q, &base, vec![]);
    assert!(matches!(step, DiffStep::Run(DiffQuery::Untracked)));
    assert!(done(next_diff_step(&DiffQuery::Untracked, &base, vec![])).is_empty());
    assert_eq!(done(next_diff_step(&DiffQuery::Staged, &base, vec![s("x")])), vec![s("x")]);
    let step = next_diff_step(&DiffQuery::Staged, &Some(s("main")), vec![]);
    assert!(matches!(step, DiffStep::Run(DiffQuery::Unstaged(b)) if b == "main"));
    assert_eq!(git_args(&DiffQuery::Staged), vec![s("diff"), s("--cached"), s("--name-only")]);
    assert_eq!(git_args(&DiffQuery::Untracked), vec![s("ls-files"), s("--others"), s("--exclude-standard")]);
}

#[test]
fn error_codes() {
    assert_eq!(SieveError::Validation(s("bad")).exit_code(), 1);
    assert_eq!(SieveError::Io(s("disk")).exit_code(), 2);
    assert_eq!(SieveError::Json(s("eof")).exit_code(), 1);
    assert_eq!(SieveError::Validation(s("bad")).error_code(), "validation_error");
    assert_eq!(SieveError::Io(s("disk")).error_code(), "io_error");
    assert_eq!(SieveError::Json(s("eof")).error_code(), "json_error");
}

#[test]
fn json_format_flag() {
    let cli = Cli { repo: None, format: OutputFormat::Json, command: Command::Files { base: None, file: vec![] } };
    assert!(cli.is_json());
    let cli = Cli { repo: None, format: OutputFormat::Text, command: Command::Analyze { base: None, file: vec![] } };
    assert!(!cli.is_json());
}

#[test]
fn co_changes_are_counted_and_sorted() {
    let changed = vec![s("src/a.rs"), s("src/b.rs")];
    let tests = vec![s("tests/x.rs"), s("tests/y.rs"), s("tests/z.rs")];
    let commits = vec![
        vec![
            vec![s("src/a.rs"), s("tests/x.rs")],
            vec![s("src/a.rs"), s("tests/y.rs"), s("tests/x.rs")],
            vec![s("src/a.rs"), s("tests/y.rs")],
            vec![s("src/a.rs"), s("tests/y.rs")],
        ],
    ];
    assert!(counts_within_limit(&commits, &tests));
    let r = find_co_changed_tests(&changed, &tests, &commits);
    assert_eq!(r.len(), 2);
    assert_eq!(r[0].0, "src/a.rs");
    assert_eq!(r[0].1, vec![(s("tests/y.rs"), 3), (s("tests/x.rs"), 2)]);
    assert_eq!(r[1].0, "src/b.rs");
    assert!(r[1].1.is_empty());
    assert_eq!(HISTORY_COMMIT_LIMIT, 50);
}

#[test]
fn co_change_ties_keep_test_order_and_duplicates_count_twice() {
    let changed = vec![s("src/a.rs")];
    let tests = vec![s("tests/p.rs"), s("tests/q.rs"), s("tests/p.rs")];
    let commits = vec![vec![vec![s("tests/q.rs"), s("tests/p.rs")]]];
    let r = find_co_changed_tests(&changed, &tests, &commits);
    assert_eq!(r[0].1, vec![(s("tests/p.rs"), 2), (s("tests/q.rs"), 1)]);
}
