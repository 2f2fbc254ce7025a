//! Naming conventions that tie source files to test files, and the rules by
//! which a project's test files are recognised.
use vstd::prelude::*;
use crate::text::{has_infix, same_text, starts_with, ends_with, contains, concat, owned, views, list_contains};
use crate::paths::{file_stem_of, extension_of, parent_of, file_stem, extension, parent};

verus! {

/// `o`'s content, or the empty string.
pub open spec fn or_empty(o: Option<Seq<char>>) -> Seq<char> {
    match o {
        Some(x) => x,
        None => Seq::empty(),
    }
}

/// The test files that naming conventions pair with `file`, each with the
/// name of its convention, in the order they are tried.
pub open spec fn test_candidates(file: Seq<char>, kind: Seq<char>) -> Seq<(Seq<char>, Seq<char>)> {
    let stem = or_empty(file_stem_of(file));
    let ext = or_empty(extension_of(file));
    let dir = or_empty(parent_of(file));
    if kind == "rust"@ {
        if "src/"@.is_prefix_of(file) {
            seq![
                ("tests/"@ + file.skip("src/"@.len() as int), "src->tests mirror"@),
                ("tests/"@ + stem + "_test.rs"@, "src->tests_test"@),
                ("tests/cli_"@ + stem + ".rs"@, "src->cli_test"@),
            ]
        } else {
            Seq::empty()
        }
    } else if kind == "node"@ {
        seq![
            (dir + "/"@ + stem + ".test."@ + ext, "co-located test"@),
            ("__tests__/"@ + stem + ".test."@ + ext, "__tests__ dir"@),
            ("test/"@ + stem + ".test."@ + ext, "test dir"@),
            (dir + "/"@ + stem + ".spec."@ + ext, "spec file"@),
        ]
    } else if kind == "python"@ {
        seq![
            ("tests/test_"@ + stem + ".py"@, "tests/test_"@),
            (dir + "/test_"@ + stem + ".py"@, "co-located test_"@),
        ]
    } else if kind == "go"@ {
        if "_test.go"@.is_suffix_of(file) {
            Seq::empty()
        } else {
            seq![(dir + "/"@ + stem + "_test.go"@, "go _test.go"@)]
        }
    } else {
        Seq::empty()
    }
}

/// The naming conventions of each kind. A Rust source under `src/` pairs
/// with its mirror under `tests/`, with `tests/<stem>_test.rs` and with
/// `tests/cli_<stem>.rs`; a Node file with `<dir>/<stem>.test.<ext>`,
/// `__tests__/<stem>.test.<ext>`, `test/<stem>.test.<ext>` and
/// `<dir>/<stem>.spec.<ext>`; a Python file with `tests/test_<stem>.py` and
/// `<dir>/test_<stem>.py`; a Go file that is no test with
/// `<dir>/<stem>_test.go`. Nothing else pairs with anything.
pub proof fn law_candidate_conventions(file: Seq<char>, kind: Seq<char>)
    ensures
        "src/"@.is_prefix_of(file) ==> test_candidates(file, "rust"@) == seq![
            ("tests/"@ + file.skip(4), "src->tests mirror"@),
            ("tests/"@ + or_empty(file_stem_of(file)) + "_test.rs"@, "src->tests_test"@),
            ("tests/cli_"@ + or_empty(file_stem_of(file)) + ".rs"@, "src->cli_test"@),
        ],
        !"src/"@.is_prefix_of(file) ==> test_candidates(file, "rust"@).len() == 0,
        test_candidates(file, "node"@) == seq![
            (or_empty(parent_of(file)) + "/"@ + or_empty(file_stem_of(file)) + ".test."@ + or_empty(
                extension_of(file),
            ), "co-located test"@),
            ("__tests__/"@ + or_empty(file_stem_of(file)) + ".test."@ + or_empty(extension_of(file)),
            "__tests__ dir"@),
            ("test/"@ + or_empty(file_stem_of(file)) + ".test."@ + or_empty(extension_of(file)),
            "test dir"@),
            (or_empty(parent_of(file)) + "/"@ + or_empty(file_stem_of(file)) + ".spec."@ + or_empty(
                extension_of(file),
            ), "spec file"@),
        ],
        test_candidates(file, "python"@) == seq![
            ("tests/test_"@ + or_empty(file_stem_of(file)) + ".py"@, "tests/test_"@),
            (or_empty(parent_of(file)) + "/test_"@ + or_empty(file_stem_of(file)) + ".py"@,
            "co-located test_"@),
        ],
        !"_test.go"@.is_suffix_of(file) ==> test_candidates(file, "go"@) == seq![
            (or_empty(parent_of(file)) + "/"@ + or_empty(file_stem_of(file)) + "_test.go"@,
            "go _test.go"@),
        ],
        "_test.go"@.is_suffix_of(file) ==> test_candidates(file, "go"@).len() == 0,
        kind != "rust"@ && kind != "node"@ && kind != "python"@ && kind != "go"@ ==> test_candidates(
            file,
            kind,
        ).len() == 0,
{
    reveal_strlit("rust");
    reveal_strlit("node");
    reveal_strlit("python");
    reveal_strlit("go");
    reveal_strlit("src/");
    assert("rust"@[0] == 'r' && "node"@[0] == 'n' && "python"@[0] == 'p' && "go"@[0] == 'g');
    assert("src/"@.len() == 4);
}

/// A pair of strings by their views.
pub open spec fn pair_view(p: (String, String)) -> (Seq<char>, Seq<char>) {
    (p.0@, p.1@)
}

/// A triple of strings by their views.
pub open spec fn triple_view(p: (String, String, String)) -> (Seq<char>, Seq<char>, Seq<char>) {
    (p.0@, p.1@, p.2@)
}

/// `a + b + c` as a fresh string.
fn concat3(a: &str, b: &str, c: &str) -> (r: String)
    ensures
        r@ == a@ + b@ + c@,
{
    let ab = concat(a, b);
    concat(ab.as_str(), c)
}

/// `a + b + c + d + e` as a fresh string.
fn concat5(a: &str, b: &str, c: &str, d: &str, e: &str) -> (r: String)
    ensures
        r@ == a@ + b@ + c@ + d@ + e@,
{
    let abc = concat3(a, b, c);
    concat3(abc.as_str(), d, e)
}

/// The candidate test files that naming conventions pair with `file`.
pub fn generate_test_candidates(file: &str, kind: &str) -> (r: Vec<(String, String)>)
    ensures
        r@.map_values(|p: (String, String)| pair_view(p)) == test_candidates(file@, kind@),
{
    let stem = match file_stem(file) {
        Some(s) => s,
        None => String::new(),
    };
    let ext = match extension(file) {
        Some(s) => s,
        None => String::new(),
    };
    let dir = match parent(file) {
        Some(s) => s,
        None => String::new(),
    };
    let st = stem.as_str();
    let ex = ext.as_str();
    let d = dir.as_str();
    let mut candidates: Vec<(String, String)> = Vec::new();
    if same_text(kind, "rust") {
        if starts_with(file, "src/") {
            let n = file.unicode_len();
            let lead = "src/".unicode_len();
            let rest = file.substring_char(lead, n);
            candidates.push((concat("tests/", rest), owned("src->tests mirror")));
            candidates.push((concat3("tests/", st, "_test.rs"), owned("src->tests_test")));
            candidates.push((concat3("tests/cli_", st, ".rs"), owned("src->cli_test")));
        }
    } else if same_text(kind, "node") {
        candidates.push((concat5(d, "/", st, ".test.", ex), owned("co-located test")));
        candidates.push((concat3(concat("__tests__/", st).as_str(), ".test.", ex), owned("__tests__ dir")));
        candidates.push((concat3(concat("test/", st).as_str(), ".test.", ex), owned("test dir")));
        candidates.push((concat5(d, "/", st, ".spec.", ex), owned("spec file")));
    } else if same_text(kind, "python") {
        candidates.push((concat3("tests/test_", st, ".py"), owned("tests/test_")));
        candidates.push((concat3(concat(d, "/test_").as_str(), st, ".py"), owned("co-located test_")));
    } else if same_text(kind, "go") {
        if !ends_with(file, "_test.go") {
            candidates.push((concat3(concat(d, "/").as_str(), st, "_test.go"), owned("go _test.go")));
        }
    }
    proof {
        assert(candidates@.map_values(|p: (String, String)| pair_view(p)) =~= test_candidates(file@, kind@));
    }
    candidates
}

/// The convention matches for one changed file: its candidates that exist.
pub open spec fn matches_for(
    file: Seq<char>,
    kind: Seq<char>,
    existing: Seq<Seq<char>>,
) -> Seq<(Seq<char>, Seq<char>, Seq<char>)> {
    test_candidates(file, kind).filter(|c: (Seq<char>, Seq<char>)| existing.contains(c.0)).map_values(
        |c: (Seq<char>, Seq<char>)| (file, c.0, c.1),
    )
}

/// The convention matches of all changed files, file by file.
pub open spec fn convention_matches(
    files: Seq<Seq<char>>,
    kind: Seq<char>,
    existing: Seq<Seq<char>>,
) -> Seq<(Seq<char>, Seq<char>, Seq<char>)>
    decreases files.len(),
{
    if files.len() == 0 {
        Seq::empty()
    } else {
        convention_matches(files.drop_last(), kind, existing) + matches_for(
            files.last(),
            kind,
            existing,
        )
    }
}

/// A convention match `(f, t, c)` is exactly a changed file `f` whose
/// convention `c` pairs it with a test file `t` that exists.
pub proof fn law_convention_matches(files: Seq<Seq<char>>, kind: Seq<char>, existing: Seq<Seq<char>>)
    ensures
        forall|m: (Seq<char>, Seq<char>, Seq<char>)|
            #[trigger] convention_matches(files, kind, existing).contains(m) <==> (files.contains(m.0)
                && existing.contains(m.1) && test_candidates(m.0, kind).contains((m.1, m.2))),
    decreases files.len(),
{
    if files.len() > 0 {
        let pre = files.drop_last();
        let f = files.last();
        law_convention_matches(pre, kind, existing);
        let head = convention_matches(pre, kind, existing);
        let keep = |c: (Seq<char>, Seq<char>)| existing.contains(c.0);
        let mk = |c: (Seq<char>, Seq<char>)| (f, c.0, c.1);
        let cands = test_candidates(f, kind);
        let kept = cands.filter(keep);
        let tail = matches_for(f, kind, existing);
        assert(tail == kept.map_values(mk));
        assert(convention_matches(files, kind, existing) == head + tail);
        assert forall|m: (Seq<char>, Seq<char>, Seq<char>)|
            #[trigger] convention_matches(files, kind, existing).contains(m) <==> (files.contains(m.0)
                && existing.contains(m.1) && test_candidates(m.0, kind).contains((m.1, m.2))) by {
            if (head + tail).contains(m) {
                let j = choose|j: int| 0 <= j < (head + tail).len() && (head + tail)[j] == m;
                if j < head.len() {
                    assert(head[j] == m);
                    assert(head.contains(m));
                    let i = choose|i: int| 0 <= i < pre.len() && pre[i] == m.0;
                    assert(files[i] == m.0);
                } else {
                    let q = j - head.len();
                    assert(tail[q] == m);
                    assert(mk(kept[q]) == m);
                    cands.lemma_filter_pred(keep, q);
                    assert(kept.contains(kept[q]));
                    cands.lemma_filter_contains_rev(keep, kept[q]);
                    assert(kept[q] == (m.1, m.2));
                    assert(files[files.len() - 1] == f);
                }
            }
            if files.contains(m.0) && existing.contains(m.1) && test_candidates(m.0, kind).contains(
                (m.1, m.2),
            ) {
                let i = choose|i: int| 0 <= i < files.len() && files[i] == m.0;
                if i < pre.len() {
                    assert(pre[i] == m.0);
                    assert(head.contains(m));
                    let j = choose|j: int| 0 <= j < head.len() && head[j] == m;
                    assert((head + tail)[j] == m);
                } else {
                    assert(m.0 == f);
                    let c = choose|c: int| 0 <= c < cands.len() && cands[c] == (m.1, m.2);
                    cands.lemma_filter_contains(keep, c);
                    let q = choose|q: int| 0 <= q < kept.len() && kept[q] == (m.1, m.2);
                    assert(tail[q] == m);
                    assert((head + tail)[head.len() + q] == m);
                }
            }
        }
    }
}

/// Pair each changed file with the candidate test files that exist, as
/// `(changed_file, test_file, convention)`. `existing` lists the repository
/// paths known to exist.
pub fn find_convention_matches(
    changed_files: &Vec<String>,
    project_kind: &str,
    existing: &Vec<String>,
) -> (r: Vec<(String, String, String)>)
    ensures
        r@.map_values(|t: (String, String, String)| triple_view(t)) == convention_matches(
            views(changed_files@),
            project_kind@,
            views(existing@),
        ),
{
    let mut matches: Vec<(String, String, String)> = Vec::new();
    let ghost tv = |t: (String, String, String)| triple_view(t);
    let ghost ex = views(existing@);
    let ghost keep = |c: (Seq<char>, Seq<char>)| ex.contains(c.0);
    let mut i: usize = 0;
    assert(views(changed_files@).take(0) =~= Seq::<Seq<char>>::empty());
    while i < changed_files.len()
        invariant
            i <= changed_files@.len(),
            ex == views(existing@),
            tv == (|t: (String, String, String)| triple_view(t)),
            keep == (|c: (Seq<char>, Seq<char>)| ex.contains(c.0)),
            matches@.map_values(tv) == convention_matches(
                views(changed_files@).take(i as int),
                project_kind@,
                ex,
            ),
        decreases changed_files@.len() - i,
    {
        let file = changed_files[i].as_str();
        let candidates = generate_test_candidates(file, project_kind);
        let ghost cands = test_candidates(file@, project_kind@);
        let ghost mk = |c: (Seq<char>, Seq<char>)| (file@, c.0, c.1);
        let ghost base = matches@.map_values(tv);
        let mut j: usize = 0;
        assert(cands.take(0) =~= Seq::<(Seq<char>, Seq<char>)>::empty());
        while j < candidates.len()
            invariant
                j <= candidates@.len(),
                candidates@.map_values(|p: (String, String)| pair_view(p)) == cands,
                cands == test_candidates(file@, project_kind@),
                ex == views(existing@),
                tv == (|t: (String, String, String)| triple_view(t)),
                keep == (|c: (Seq<char>, Seq<char>)| ex.contains(c.0)),
                mk == (|c: (Seq<char>, Seq<char>)| (file@, c.0, c.1)),
                matches@.map_values(tv) == base + cands.take(j as int).filter(keep).map_values(mk),
            decreases candidates@.len() - j,
        {
            let ghost c = cands[j as int];
            assert(cands.take(j + 1) =~= cands.take(j as int).push(c));
            proof {
                cands.take(j as int).lemma_filter_push(c, keep);
            }
            let cand = &candidates[j];
            assert(pair_view(*cand) == c);
            if list_contains(existing, cand.0.as_str()) {
                let ghost prev = matches@.map_values(tv);
                matches.push((owned(file), owned(cand.0.as_str()), owned(cand.1.as_str())));
                proof {
                    cands.take(j as int).filter(keep).lemma_push_map_commute(mk, c);
                }
                assert(matches@.map_values(tv) =~= prev.push(mk(c)));
            }
            j = j + 1;
        }
        proof {
            assert(cands.take(candidates@.len() as int) =~= cands);
            assert(views(changed_files@).take(i + 1).drop_last() =~= views(changed_files@).take(i as int));
            assert(views(changed_files@).take(i + 1).last() == file@);
        }
        i = i + 1;
    }
    assert(views(changed_files@).take(changed_files@.len() as int) =~= views(changed_files@));
    matches
}

/// How a directory walk recognises test files among the files it finds.
#[derive(Debug, Clone, Copy, PartialEq, Eq, Structural)]
pub enum NameRule {
    /// A Rust integration test: any entry with extension `rs`.
    RustSource,
    /// A JavaScript or TypeScript test: the name holds `test.js`, `test.ts`,
    /// `spec.js`, `spec.ts`, `test.jsx` or `test.tsx`.
    ScriptTest,
    /// A Python test under a test directory: the name holds `test_` or `_test.py`.
    PythonTest,
    /// A Python test at the repository root: `test_*.py`; reported by name.
    PythonRootTest,
    /// A Go test: the path ends in `_test.go`.
    GoTest,
}

/// A directory to walk for test files. `dir` is relative to the repository
/// root (empty for the root itself). A flat walk reports every entry of the
/// directory; a recursive walk descends into subdirectories, except those
/// that `skips_directory` names, and reports only the files.
#[derive(Debug, Clone)]
pub struct ScanRoot {
    pub dir: String,
    pub recursive: bool,
    pub rule: NameRule,
}

/// The walks that find a project's test files, in order.
pub open spec fn scan_plan(kind: Seq<char>) -> Seq<(Seq<char>, bool, NameRule)> {
    if kind == "rust"@ {
        seq![("tests"@, false, NameRule::RustSource)]
    } else if kind == "node"@ {
        seq![
            ("__tests__"@, true, NameRule::ScriptTest),
            ("test"@, true, NameRule::ScriptTest),
            ("tests"@, true, NameRule::ScriptTest),
            ("src"@, true, NameRule::ScriptTest),
        ]
    } else if kind == "python"@ {
        seq![("tests"@, true, NameRule::PythonTest), (""@, false, NameRule::PythonRootTest)]
    } else if kind == "go"@ {
        seq![(""@, true, NameRule::GoTest)]
    } else {
        Seq::empty()
    }
}

/// A scan root by its view.
pub open spec fn root_view(r: ScanRoot) -> (Seq<char>, bool, NameRule) {
    (r.dir@, r.recursive, r.rule)
}

/// The walks to make to find the test files of a project of `kind`.
pub fn scan_roots(kind: &str) -> (r: Vec<ScanRoot>)
    ensures
        r@.map_values(|x: ScanRoot| root_view(x)) == scan_plan(kind@),
{
    let mut roots: Vec<ScanRoot> = Vec::new();
    if same_text(kind, "rust") {
        roots.push(ScanRoot { dir: owned("tests"), recursive: false, rule: NameRule::RustSource });
    } else if same_text(kind, "node") {
        roots.push(ScanRoot { dir: owned("__tests__"), recursive: true, rule: NameRule::ScriptTest });
        roots.push(ScanRoot { dir: owned("test"), recursive: true, rule: NameRule::ScriptTest });
        roots.push(ScanRoot { dir: owned("tests"), recursive: true, rule: NameRule::ScriptTest });
        roots.push(ScanRoot { dir: owned("src"), recursive: true, rule: NameRule::ScriptTest });
    } else if same_text(kind, "python") {
        roots.push(ScanRoot { dir: owned("tests"), recursive: true, rule: NameRule::PythonTest });
        roots.push(ScanRoot { dir: owned(""), recursive: false, rule: NameRule::PythonRootTest });
    } else if same_text(kind, "go") {
        roots.push(ScanRoot { dir: owned(""), recursive: true, rule: NameRule::GoTest });
    }
    assert(roots@.map_values(|x: ScanRoot| root_view(x)) =~= scan_plan(kind@));
    roots
}

/// Whether a recursive walk under `rule` passes over a directory named `name`.
pub open spec fn skipped_dir(rule: NameRule, name: Seq<char>) -> bool {
    match rule {
        NameRule::ScriptTest | NameRule::PythonTest => name == "node_modules"@ || name == ".git"@
            || name == "target"@,
        NameRule::GoTest => name == ".git"@ || name == "vendor"@,
        _ => false,
    }
}

/// Whether a recursive walk under `rule` passes over the directory `name`.
pub fn skips_directory(rule: NameRule, name: &str) -> (r: bool)
    ensures
        r == skipped_dir(rule, name@),
{
    match rule {
        NameRule::ScriptTest | NameRule::PythonTest => same_text(name, "node_modules") || same_text(
            name,
            ".git",
        ) || same_text(name, "target"),
        NameRule::GoTest => same_text(name, ".git") || same_text(name, "vendor"),
        _ => false,
    }
}

/// A file that a walk found: its path relative to the repository root and
/// its own name.
#[derive(Debug, Clone)]
pub struct FoundFile {
    pub path: String,
    pub name: String,
}

/// A found file by its view.
pub open spec fn found_view(f: FoundFile) -> (Seq<char>, Seq<char>) {
    (f.path@, f.name@)
}

/// Whether `rule` takes the found file `(path, name)` for a test file.
pub open spec fn accepts(rule: NameRule, path: Seq<char>, name: Seq<char>) -> bool {
    match rule {
        NameRule::RustSource => extension_of(path) == Some("rs"@),
        NameRule::ScriptTest => has_infix(name, "test.js"@) || has_infix(name, "test.ts"@)
            || has_infix(name, "spec.js"@) || has_infix(name, "spec.ts"@) || has_infix(
            name,
            "test.jsx"@,
        ) || has_infix(name, "test.tsx"@),
        NameRule::PythonTest => has_infix(name, "test_"@) || has_infix(name, "_test.py"@),
        NameRule::PythonRootTest => "test_"@.is_prefix_of(name) && ".py"@.is_suffix_of(name),
        NameRule::GoTest => "_test.go"@.is_suffix_of(path),
    }
}

/// How an accepted file is reported: by its name at the Python root, else by
/// its path.
pub open spec fn reported(rule: NameRule, path: Seq<char>, name: Seq<char>) -> Seq<char> {
    match rule {
        NameRule::PythonRootTest => name,
        _ => path,
    }
}

/// The test files among the files of one walk.
pub open spec fn accepted_in(rule: NameRule, files: Seq<(Seq<char>, Seq<char>)>) -> Seq<Seq<char>> {
    files.filter(|f: (Seq<char>, Seq<char>)| accepts(rule, f.0, f.1)).map_values(
        |f: (Seq<char>, Seq<char>)| reported(rule, f.0, f.1),
    )
}

/// The test files of all walks, walk by walk; the `i`-th list of found files
/// belongs to the `i`-th rule, and lists beyond the rules count for nothing.
pub open spec fn discovered(
    rules: Seq<NameRule>,
    found: Seq<Seq<(Seq<char>, Seq<char>)>>,
) -> Seq<Seq<char>>
    decreases found.len(),
{
    if found.len() == 0 {
        Seq::empty()
    } else {
        discovered(rules, found.drop_last()) + if found.len() <= rules.len() {
            accepted_in(rules[found.len() - 1], found.last())
        } else {
            Seq::empty()
        }
    }
}

/// The rules of the walks for `kind`.
pub open spec fn plan_rules(kind: Seq<char>) -> Seq<NameRule> {
    scan_plan(kind).map_values(|r: (Seq<char>, bool, NameRule)| r.2)
}

/// The found files of each walk by their views.
pub open spec fn found_views(found: Seq<Vec<FoundFile>>) -> Seq<Seq<(Seq<char>, Seq<char>)>> {
    found.map_values(|w: Vec<FoundFile>| w@.map_values(|f: FoundFile| found_view(f)))
}

/// The walks of each kind: a Rust project's `tests` directory, flat, as
/// Rust sources; a Node project's `__tests__`, `test`, `tests` and `src`,
/// recursively, as script tests; a Python project's `tests`, recursively,
/// then its root, flat, for `test_*.py`; a Go project's whole tree. Any
/// other kind is not walked.
pub proof fn law_walk_plans(kind: Seq<char>)
    ensures
        scan_plan("rust"@) == seq![("tests"@, false, NameRule::RustSource)],
        scan_plan("node"@) == seq![
            ("__tests__"@, true, NameRule::ScriptTest),
            ("test"@, true, NameRule::ScriptTest),
            ("tests"@, true, NameRule::ScriptTest),
            ("src"@, true, NameRule::ScriptTest),
        ],
        scan_plan("python"@) == seq![("tests"@, true, NameRule::PythonTest), (""@, false, NameRule::PythonRootTest)],
        scan_plan("go"@) == seq![(""@, true, NameRule::GoTest)],
        kind != "rust"@ && kind != "node"@ && kind != "python"@ && kind != "go"@ ==> scan_plan(kind).len()
            == 0,
{
    reveal_strlit("rust");
    reveal_strlit("node");
    reveal_strlit("python");
    reveal_strlit("go");
    assert("rust"@[0] == 'r' && "node"@[0] == 'n' && "python"@[0] == 'p' && "go"@[0] == 'g');
}

/// What each rule takes for a test file: for Rust, an entry with extension
/// `rs`; for scripts, a name holding `test.js`, `test.ts`, `spec.js`,
/// `spec.ts`, `test.jsx` or `test.tsx`; for Python under a test directory, a
/// name holding `test_` or `_test.py`; at the Python root, a name of the
/// form `test_*.py`; for Go, a path ending in `_test.go`.
pub proof fn law_name_rules(path: Seq<char>, name: Seq<char>)
    ensures
        accepts(NameRule::RustSource, path, name) <==> extension_of(path) == Some("rs"@),
        accepts(NameRule::ScriptTest, path, name) <==> (has_infix(name, "test.js"@) || has_infix(
            name,
            "test.ts"@,
        ) || has_infix(name, "spec.js"@) || has_infix(name, "spec.ts"@) || has_infix(name, "test.jsx"@)
            || has_infix(name, "test.tsx"@)),
        accepts(NameRule::PythonTest, path, name) <==> (has_infix(name, "test_"@) || has_infix(
            name,
            "_test.py"@,
        )),
        accepts(NameRule::PythonRootTest, path, name) <==> ("test_"@.is_prefix_of(name)
            && ".py"@.is_suffix_of(name)),
        accepts(NameRule::GoTest, path, name) <==> "_test.go"@.is_suffix_of(path),
{
}

/// The directories a recursive walk passes over: `node_modules`, `.git` and
/// `target` when looking for script or Python tests, `.git` and `vendor`
/// when looking for Go tests; the flat walks pass over nothing. A test file
/// found at the Python root is reported by its name, any other by its path.
pub proof fn law_walk_skips(path: Seq<char>, name: Seq<char>)
    ensures
        skipped_dir(NameRule::ScriptTest, name) <==> (name == "node_modules"@ || name == ".git"@ || name
            == "target"@),
        skipped_dir(NameRule::PythonTest, name) <==> (name == "node_modules"@ || name == ".git"@ || name
            == "target"@),
        skipped_dir(NameRule::GoTest, name) <==> (name == ".git"@ || name == "vendor"@),
        !skipped_dir(NameRule::RustSource, name) && !skipped_dir(NameRule::PythonRootTest, name),
        reported(NameRule::PythonRootTest, path, name) == name,
        reported(NameRule::RustSource, path, name) == path && reported(NameRule::ScriptTest, path, name)
            == path && reported(NameRule::PythonTest, path, name) == path && reported(
            NameRule::GoTest,
            path,
            name,
        ) == path,
{
}

/// Every file that a walk found and its rule accepts is discovered (by its
/// name at the Python root, else by its path), and nothing else is: each
/// discovered file is one that some walk found and its rule accepted.
pub proof fn law_discovered_files(rules: Seq<NameRule>, found: Seq<Seq<(Seq<char>, Seq<char>)>>)
    ensures
        forall|i: int, j: int|
            #![trigger found[i][j], rules[i]]
            0 <= i < found.len() && i < rules.len() && 0 <= j < found[i].len() && accepts(
                rules[i],
                found[i][j].0,
                found[i][j].1,
            ) ==> discovered(rules, found).contains(reported(rules[i], found[i][j].0, found[i][j].1)),
        forall|x: Seq<char>|
            #[trigger] discovered(rules, found).contains(x) ==> exists|i: int, j: int|
                #![trigger found[i][j], rules[i]]
                0 <= i < found.len() && i < rules.len() && 0 <= j < found[i].len() && accepts(
                    rules[i],
                    found[i][j].0,
                    found[i][j].1,
                ) && x == reported(rules[i], found[i][j].0, found[i][j].1),
    decreases found.len(),
{
    if found.len() > 0 {
        let n = found.len() - 1;
        let pre = found.drop_last();
        law_discovered_files(rules, pre);
        let head = discovered(rules, pre);
        let tail = if found.len() <= rules.len() {
            accepted_in(rules[n], found.last())
        } else {
            Seq::empty()
        };
        assert(discovered(rules, found) == head + tail);
        assert forall|i: int, j: int|
            #![trigger found[i][j], rules[i]]
            0 <= i < found.len() && i < rules.len() && 0 <= j < found[i].len() && accepts(
                rules[i],
                found[i][j].0,
                found[i][j].1,
            ) implies discovered(rules, found).contains(
            reported(rules[i], found[i][j].0, found[i][j].1),
        ) by {
            let e = reported(rules[i], found[i][j].0, found[i][j].1);
            if i < n {
                assert(pre[i][j] == found[i][j]);
                assert(head.contains(e));
                let k = choose|k: int| 0 <= k < head.len() && head[k] == e;
                assert((head + tail)[k] == e);
            } else {
                let rule = rules[n];
                let keep = |f: (Seq<char>, Seq<char>)| accepts(rule, f.0, f.1);
                let rep = |f: (Seq<char>, Seq<char>)| reported(rule, f.0, f.1);
                let w = found.last();
                assert(w[j] == found[i][j]);
                w.lemma_filter_contains(keep, j);
                let kept = w.filter(keep);
                let m = choose|m: int| 0 <= m < kept.len() && kept[m] == w[j];
                assert(tail == kept.map_values(rep));
                assert(tail[m] == e);
                assert((head + tail)[head.len() + m] == e);
            }
        }
        assert forall|x: Seq<char>| #[trigger] discovered(rules, found).contains(x) implies exists|
            i: int,
            j: int,
        |
            #![trigger found[i][j], rules[i]]
            0 <= i < found.len() && i < rules.len() && 0 <= j < found[i].len() && accepts(
                rules[i],
                found[i][j].0,
                found[i][j].1,
            ) && x == reported(rules[i], found[i][j].0, found[i][j].1) by {
            let k = choose|k: int| 0 <= k < (head + tail).len() && (head + tail)[k] == x;
            if k < head.len() {
                assert(head[k] == x);
                assert(head.contains(x));
                let (i, j) = choose|i: int, j: int|
                    #![trigger pre[i][j], rules[i]]
                    0 <= i < pre.len() && i < rules.len() && 0 <= j < pre[i].len() && accepts(
                        rules[i],
                        pre[i][j].0,
                        pre[i][j].1,
                    ) && x == reported(rules[i], pre[i][j].0, pre[i][j].1);
                assert(pre[i][j] == found[i][j]);
            } else {
                let rule = rules[n];
                let keep = |f: (Seq<char>, Seq<char>)| accepts(rule, f.0, f.1);
                let rep = |f: (Seq<char>, Seq<char>)| reported(rule, f.0, f.1);
                let w = found.last();
                let kept = w.filter(keep);
                let m = k - head.len();
                assert(tail == kept.map_values(rep));
                assert(tail[m] == x);
                w.lemma_filter_pred(keep, m);
                assert(kept.contains(kept[m]));
                w.lemma_filter_contains_rev(keep, kept[m]);
                let j = choose|j: int| 0 <= j < w.len() && w[j] == kept[m];
                assert(found[n][j] == w[j]);
            }
        }
    }
}

/// Whether `rule` takes a found file for a test file.
fn accepts_exec(rule: NameRule, path: &str, name: &str) -> (r: bool)
    ensures
        r == accepts(rule, path@, name@),
{
    match rule {
        NameRule::RustSource => match extension(path) {
            Some(e) => same_text(e.as_str(), "rs"),
            None => false,
        },
        NameRule::ScriptTest => contains(name, "test.js") || contains(name, "test.ts") || contains(
            name,
            "spec.js",
        ) || contains(name, "spec.ts") || contains(name, "test.jsx") || contains(name, "test.tsx"),
        NameRule::PythonTest => contains(name, "test_") || contains(name, "_test.py"),
        NameRule::PythonRootTest => starts_with(name, "test_") && ends_with(name, ".py"),
        NameRule::GoTest => ends_with(path, "_test.go"),
    }
}

/// The test files of a project of `project_kind`, from what the walks of
/// `scan_roots(project_kind)` found: `found[i]` holds the files of the
/// `i`-th walk, in the order it met them.
pub fn discover_test_files(project_kind: &str, found: &Vec<Vec<FoundFile>>) -> (r: Vec<String>)
    ensures
        views(r@) == discovered(plan_rules(project_kind@), found_views(found@)),
{
    let roots = scan_roots(project_kind);
    let ghost rules = plan_rules(project_kind@);
    assert(rules.len() == roots@.len());
    assert forall|k: int| 0 <= k < roots@.len() implies roots@[k].rule == rules[k] by {
        assert(roots@.map_values(|x: ScanRoot| root_view(x))[k] == scan_plan(project_kind@)[k]);
    }
    let mut tests: Vec<String> = Vec::new();
    let mut i: usize = 0;
    assert(found_views(found@).take(0) =~= Seq::<Seq<(Seq<char>, Seq<char>)>>::empty());
    while i < found.len()
        invariant
            i <= found@.len(),
            rules == plan_rules(project_kind@),
            rules.len() == roots@.len(),
            forall|k: int| 0 <= k < roots@.len() ==> roots@[k].rule == rules[k],
            views(tests@) == discovered(rules, found_views(found@).take(i as int)),
        decreases found@.len() - i,
    {
        let ghost fv = found_views(found@);
        let ghost base = views(tests@);
        assert(fv.take(i + 1).drop_last() =~= fv.take(i as int));
        assert(fv.take(i + 1).last() == fv[i as int]);
        if i < roots.len() {
            let rule = roots[i].rule;
            let walk = &found[i];
            let ghost files = fv[i as int];
            assert(files == walk@.map_values(|f: FoundFile| found_view(f)));
            let ghost keep = |f: (Seq<char>, Seq<char>)| accepts(rule, f.0, f.1);
            let ghost rep = |f: (Seq<char>, Seq<char>)| reported(rule, f.0, f.1);
            let mut j: usize = 0;
            assert(files.take(0) =~= Seq::<(Seq<char>, Seq<char>)>::empty());
            while j < walk.len()
                invariant
                    j <= walk@.len(),
                    files == walk@.map_values(|f: FoundFile| found_view(f)),
                    keep == (|f: (Seq<char>, Seq<char>)| accepts(rule, f.0, f.1)),
                    rep == (|f: (Seq<char>, Seq<char>)| reported(rule, f.0, f.1)),
                    views(tests@) == base + files.take(j as int).filter(keep).map_values(rep),
                decreases walk@.len() - j,
            {
                let f = &walk[j];
                let ghost fvv = files[j as int];
                assert(fvv == found_view(*f));
                assert(files.take(j + 1) =~= files.take(j as int).push(fvv));
                proof {
                    files.take(j as int).lemma_filter_push(fvv, keep);
                }
                if accepts_exec(rule, f.path.as_str(), f.name.as_str()) {
                    let ghost prev = views(tests@);
                    let out = match rule {
                        NameRule::PythonRootTest => owned(f.name.as_str()),
                        _ => owned(f.path.as_str()),
                    };
                    tests.push(out);
                    proof {
                        files.take(j as int).filter(keep).lemma_push_map_commute(rep, fvv);
                        assert(views(tests@) =~= prev.push(rep(fvv)));
                    }
                }
                j = j + 1;
            }
            assert(files.take(walk@.len() as int) =~= files);
            assert(views(tests@) == discovered(rules, fv.take(i + 1)));
        } else {
            assert(views(tests@) =~= discovered(rules, fv.take(i + 1)));
        }
        i = i + 1;
    }
    assert(found_views(found@).take(found@.len() as int) =~= found_views(found@));
    tests
}

} // verus!
