//! The analysis: from the changed files and the facts read from the
//! repository, derive the raw evidence signals.
use vstd::prelude::*;
use crate::text::{has_infix, same_text, starts_with, ends_with, contains, concat, owned, views, decimal, decimal_string};
use crate::paths::{file_stem_of, parent_of, file_stem, parent};
use crate::error::SieveError;
use crate::detect::{opt_view, DetectedProject, project_command, test_command_for};
use crate::conventions::{convention_matches, find_convention_matches, triple_view};
use crate::imports::{importing, import_views, find_test_files_importing};
use crate::history::{find_co_changed_tests, correlated, commits_of, co_count, commit_views, count_view};

verus! {

/// Whether `file` is a test file by the conventions of `kind`.
pub open spec fn is_test_path(file: Seq<char>, kind: Seq<char>) -> bool {
    if kind == "rust"@ {
        "tests/"@.is_prefix_of(file) || has_infix(file, "/tests/"@)
    } else if kind == "node"@ {
        has_infix(file, ".test."@) || has_infix(file, ".spec."@) || has_infix(file, "__tests__"@)
    } else if kind == "python"@ {
        has_infix(file, "test_"@) || has_infix(file, "_test.py"@)
    } else if kind == "go"@ {
        "_test.go"@.is_suffix_of(file)
    } else {
        false
    }
}

/// Whether `file` is a test file by the conventions of project kind `kind`.
pub fn is_test_file(file: &str, kind: &str) -> (r: bool)
    ensures
        r == is_test_path(file@, kind@),
{
    if same_text(kind, "rust") {
        starts_with(file, "tests/") || contains(file, "/tests/")
    } else if same_text(kind, "node") {
        contains(file, ".test.") || contains(file, ".spec.") || contains(file, "__tests__")
    } else if same_text(kind, "python") {
        contains(file, "test_") || contains(file, "_test.py")
    } else if same_text(kind, "go") {
        ends_with(file, "_test.go")
    } else {
        false
    }
}

/// The test-file conventions, kind by kind: in a Rust project a file under
/// `tests/` (at the root or deeper); in a Node project a file whose path
/// holds `.test.`, `.spec.` or `__tests__`; in a Python project one whose
/// path holds `test_` or `_test.py`; in a Go project one ending in
/// `_test.go`. For any other kind no file is a test file.
pub proof fn law_test_file_conventions(file: Seq<char>, kind: Seq<char>)
    ensures
        is_test_path(file, "rust"@) <==> ("tests/"@.is_prefix_of(file) || has_infix(file, "/tests/"@)),
        is_test_path(file, "node"@) <==> (has_infix(file, ".test."@) || has_infix(file, ".spec."@)
            || has_infix(file, "__tests__"@)),
        is_test_path(file, "python"@) <==> (has_infix(file, "test_"@) || has_infix(file, "_test.py"@)),
        is_test_path(file, "go"@) <==> "_test.go"@.is_suffix_of(file),
        kind != "rust"@ && kind != "node"@ && kind != "python"@ && kind != "go"@ ==> !is_test_path(
            file,
            kind,
        ),
{
    reveal_strlit("rust");
    reveal_strlit("node");
    reveal_strlit("python");
    reveal_strlit("go");
    assert("rust"@[0] == 'r' && "node"@[0] == 'n' && "python"@[0] == 'p' && "go"@[0] == 'g');
}

/// Whether `kind` is one of the project kinds whose files the analysis reads.
pub open spec fn is_known_kind(kind: Seq<char>) -> bool {
    kind == "rust"@ || kind == "node"@ || kind == "python"@ || kind == "go"@
}

/// The module name a source file provides: its file stem, for a known kind.
pub open spec fn module_name_of(file: Seq<char>, kind: Seq<char>) -> Option<Seq<char>> {
    if is_known_kind(kind) {
        file_stem_of(file)
    } else {
        None
    }
}

/// The module name that tests would import to use `file`.
pub fn extract_module_name(file: &str, kind: &str) -> (r: Option<String>)
    ensures
        opt_view(r) == module_name_of(file@, kind@),
{
    let stem = file_stem(file);
    if same_text(kind, "rust") || same_text(kind, "node") || same_text(kind, "python")
        || same_text(kind, "go") {
        stem
    } else {
        None
    }
}

/// `c` with a backslash turned into a forward slash.
pub open spec fn forward_slash(c: char) -> char {
    if c == '\\' {
        '/'
    } else {
        c
    }
}

/// A path with one leading `./` removed and every backslash turned into `/`.
pub open spec fn normalized(p: Seq<char>) -> Seq<char> {
    let q = if "./"@.is_prefix_of(p) {
        p.skip("./"@.len() as int)
    } else {
        p
    };
    q.map_values(|c: char| forward_slash(c))
}

/// Normalising drops one leading `./` and turns each backslash into a
/// forward slash, leaving every other character in its place; no backslash
/// is left.
pub proof fn law_normalized_paths(p: Seq<char>)
    ensures
        forall|k: int| 0 <= k < normalized(p).len() ==> #[trigger] normalized(p)[k] != '\\',
        !"./"@.is_prefix_of(p) ==> normalized(p).len() == p.len() && forall|k: int|
            0 <= k < p.len() ==> #[trigger] normalized(p)[k] == if p[k] == '\\' {
                '/'
            } else {
                p[k]
            },
        "./"@.is_prefix_of(p) ==> normalized(p).len() == p.len() - 2 && forall|k: int|
            0 <= k < p.len() - 2 ==> #[trigger] normalized(p)[k] == if p[k + 2] == '\\' {
                '/'
            } else {
                p[k + 2]
            },
{
    reveal_strlit("./");
}

/// The source files whose history is read are exactly the changed files
/// that are no test files.
pub proof fn law_source_files(files: Seq<Seq<char>>, kind: Seq<char>)
    ensures
        forall|f: Seq<char>|
            #[trigger] source_files_of(files, kind).contains(f) <==> (files.contains(f) && !is_test_path(
                f,
                kind,
            )),
{
    let keep = |f: Seq<char>| !is_test_path(f, kind);
    assert forall|f: Seq<char>|
        #[trigger] source_files_of(files, kind).contains(f) <==> (files.contains(f) && !is_test_path(
            f,
            kind,
        )) by {
        if files.filter(keep).contains(f) {
            files.lemma_filter_contains_rev(keep, f);
            let j = choose|j: int| 0 <= j < files.filter(keep).len() && files.filter(keep)[j] == f;
            files.lemma_filter_pred(keep, j);
        }
        if files.contains(f) && !is_test_path(f, kind) {
            let i = choose|i: int| 0 <= i < files.len() && files[i] == f;
            files.lemma_filter_contains(keep, i);
        }
    }
}

/// Normalize a path for comparison.
pub fn normalize_path(path: &str) -> (r: String)
    ensures
        r@ == normalized(path@),
{
    let n = path.unicode_len();
    let lead = "./".unicode_len();
    let start: usize = if starts_with(path, "./") {
        lead
    } else {
        0
    };
    let ghost q = if "./"@.is_prefix_of(path@) {
        path@.skip("./"@.len() as int)
    } else {
        path@
    };
    let mut out = String::new();
    let mut i = start;
    while i < n
        invariant
            n == path@.len(),
            start <= i <= n,
            q == path@.skip(start as int),
            out@ == path@.subrange(start as int, i as int).map_values(|c: char| forward_slash(c)),
        decreases n - i,
    {
        let c = path.get_char(i);
        let ghost before = out@;
        if c == '\\' {
            proof {
                reveal_strlit("/");
            }
            out.append("/");
        } else {
            let one = path.substring_char(i, i + 1);
            assert(one@ =~= seq![c]);
            out.append(one);
        }
        assert(path@.subrange(start as int, i + 1) =~= path@.subrange(start as int, i as int).push(c));
        assert(out@ =~= path@.subrange(start as int, i + 1).map_values(|c: char| forward_slash(c)));
        i = i + 1;
    }
    assert(path@.subrange(start as int, n as int) =~= q);
    out
}

/// The command that runs one test file, by the conventions of `kind`.
pub open spec fn file_command(file: Seq<char>, kind: Seq<char>) -> Option<Seq<char>> {
    if kind == "rust"@ {
        if "tests/"@.is_prefix_of(file) {
            match file_stem_of(file) {
                Some(stem) => Some("cargo test --test "@ + stem),
                None => None,
            }
        } else {
            Some("cargo test"@)
        }
    } else if kind == "node"@ {
        Some("npx jest "@ + file)
    } else if kind == "python"@ {
        Some("python -m pytest "@ + file)
    } else if kind == "go"@ {
        match parent_of(file) {
            Some(dir) => if dir.len() == 0 {
                Some("go test ."@)
            } else {
                Some("go test ./"@ + dir)
            },
            None => None,
        }
    } else {
        None
    }
}

/// The command that runs one test file: in a Rust project, for a file under
/// `tests/`, `cargo test --test` and the file's stem, else `cargo test`; in a
/// Node project `npx jest` and the path; in a Python project `python -m
/// pytest` and the path; in a Go project `go test` on the file's directory
/// (`.` at the root). Any other kind has none.
pub proof fn law_file_commands(file: Seq<char>, kind: Seq<char>)
    ensures
        "tests/"@.is_prefix_of(file) ==> file_command(file, "rust"@) == (match file_stem_of(file) {
            Some(stem) => Some("cargo test --test "@ + stem),
            None => None,
        }),
        !"tests/"@.is_prefix_of(file) ==> file_command(file, "rust"@) == Some("cargo test"@),
        file_command(file, "node"@) == Some("npx jest "@ + file),
        file_command(file, "python"@) == Some("python -m pytest "@ + file),
        file_command(file, "go"@) == (match parent_of(file) {
            Some(dir) => if dir.len() == 0 {
                Some("go test ."@)
            } else {
                Some("go test ./"@ + dir)
            },
            None => None,
        }),
        kind != "rust"@ && kind != "node"@ && kind != "python"@ && kind != "go"@ ==> file_command(
            file,
            kind,
        ) is None,
        module_name_of(file, "rust"@) == file_stem_of(file) && module_name_of(file, "node"@)
            == file_stem_of(file) && module_name_of(file, "python"@) == file_stem_of(file)
            && module_name_of(file, "go"@) == file_stem_of(file),
        kind != "rust"@ && kind != "node"@ && kind != "python"@ && kind != "go"@ ==> module_name_of(
            file,
            kind,
        ) is None,
{
    reveal_strlit("rust");
    reveal_strlit("node");
    reveal_strlit("python");
    reveal_strlit("go");
    assert("rust"@[0] == 'r' && "node"@[0] == 'n' && "python"@[0] == 'p' && "go"@[0] == 'g');
}

/// The command that runs the test file `file`.
pub fn test_command_for_file(file: &str, kind: &str) -> (r: Option<String>)
    ensures
        opt_view(r) == file_command(file@, kind@),
{
    if same_text(kind, "rust") {
        if starts_with(file, "tests/") {
            match file_stem(file) {
                Some(stem) => Some(concat("cargo test --test ", stem.as_str())),
                None => None,
            }
        } else {
            Some(owned("cargo test"))
        }
    } else if same_text(kind, "node") {
        Some(concat("npx jest ", file))
    } else if same_text(kind, "python") {
        Some(concat("python -m pytest ", file))
    } else if same_text(kind, "go") {
        match parent(file) {
            Some(dir) => if dir.unicode_len() == 0 {
                Some(owned("go test ."))
            } else {
                Some(concat("go test ./", dir.as_str()))
            },
            None => None,
        }
    } else {
        None
    }
}

/// One piece of evidence that a test is relevant to a changed file.
#[derive(Debug, Clone)]
pub struct Signal {
    pub kind: String,
    pub changed_file: String,
    pub test_file: Option<String>,
    pub command: Option<String>,
    pub confidence: String,
    pub reason: String,
}

/// What the analysis found: the changed files, the raw signals, and the
/// command that runs the whole suite of the primary project.
#[derive(Debug, Clone)]
pub struct AnalysisResult {
    pub changed_files: Vec<String>,
    pub signals: Vec<Signal>,
    pub full_validation_command: Option<String>,
}

/// A signal by its strings' views.
pub struct SignalView {
    pub kind: Seq<char>,
    pub changed_file: Seq<char>,
    pub test_file: Option<Seq<char>>,
    pub command: Option<Seq<char>>,
    pub confidence: Seq<char>,
    pub reason: Seq<char>,
}

/// The view of a signal.
pub open spec fn signal_view(s: Signal) -> SignalView {
    SignalView {
        kind: s.kind@,
        changed_file: s.changed_file@,
        test_file: opt_view(s.test_file),
        command: opt_view(s.command),
        confidence: s.confidence@,
        reason: s.reason@,
    }
}

/// The views of a list of signals.
pub open spec fn signal_views(s: Seq<Signal>) -> Seq<SignalView> {
    s.map_values(|x: Signal| signal_view(x))
}

/// A signal view from its parts.
pub open spec fn sig(
    kind: Seq<char>,
    changed_file: Seq<char>,
    test_file: Option<Seq<char>>,
    command: Option<Seq<char>>,
    confidence: Seq<char>,
    reason: Seq<char>,
) -> SignalView {
    SignalView { kind, changed_file, test_file, command, confidence, reason }
}

/// A signal from its parts.
fn make_signal(
    kind: &str,
    changed_file: &str,
    test_file: Option<String>,
    command: Option<String>,
    confidence: &str,
    reason: String,
) -> (r: Signal)
    ensures
        signal_view(r) == sig(
            kind@,
            changed_file@,
            opt_view(test_file),
            opt_view(command),
            confidence@,
            reason@,
        ),
{
    Signal {
        kind: owned(kind),
        changed_file: owned(changed_file),
        test_file,
        command,
        confidence: owned(confidence),
        reason,
    }
}

/// First signals: every changed file that is itself a test, with certain
/// confidence.
pub open spec fn direct_signals(files: Seq<Seq<char>>, kind: Seq<char>) -> Seq<SignalView>
    decreases files.len(),
{
    if files.len() == 0 {
        Seq::empty()
    } else {
        let f = files.last();
        direct_signals(files.drop_last(), kind) + if is_test_path(f, kind) {
            seq![
                sig(
                    "direct_test_change"@,
                    f,
                    Some(f),
                    file_command(f, kind),
                    "certain"@,
                    f + " is itself a test file"@,
                ),
            ]
        } else {
            Seq::empty()
        }
    }
}

/// Append the signals of changed test files.
fn push_direct_signals(signals: &mut Vec<Signal>, changed_files: &Vec<String>, kind: &str)
    ensures
        signal_views(final(signals)@) == signal_views(old(signals)@) + direct_signals(
            views(changed_files@),
            kind@,
        ),
{
    let ghost base = signal_views(signals@);
    let ghost fv = views(changed_files@);
    let mut i: usize = 0;
    assert(fv.take(0) =~= Seq::<Seq<char>>::empty());
    assert(base + direct_signals(fv.take(0), kind@) =~= base);
    while i < changed_files.len()
        invariant
            i <= changed_files@.len(),
            fv == views(changed_files@),
            signal_views(signals@) == base + direct_signals(fv.take(i as int), kind@),
        decreases changed_files@.len() - i,
    {
        let file = changed_files[i].as_str();
        assert(fv.take(i + 1).drop_last() =~= fv.take(i as int));
        assert(fv.take(i + 1).last() == file@);
        let ghost prev = signal_views(signals@);
        if is_test_file(file, kind) {
            let s = make_signal(
                "direct_test_change",
                file,
                Some(owned(file)),
                test_command_for_file(file, kind),
                "certain",
                concat(file, " is itself a test file"),
            );
            signals.push(s);
            assert(signal_views(signals@) =~= prev.push(signal_view(s)));
        }
        assert(signal_views(signals@) =~= base + direct_signals(fv.take(i + 1), kind@));
        i = i + 1;
    }
    assert(fv.take(changed_files@.len() as int) =~= fv);
}

/// Second signals: every convention match, with high confidence.
pub open spec fn convention_signals(
    matches: Seq<(Seq<char>, Seq<char>, Seq<char>)>,
    kind: Seq<char>,
) -> Seq<SignalView> {
    matches.map_values(
        |m: (Seq<char>, Seq<char>, Seq<char>)|
            sig(
                "convention_match"@,
                m.0,
                Some(m.1),
                file_command(m.1, kind),
                "high"@,
                "Convention: "@ + m.2,
            ),
    )
}

/// Append a signal for every convention match.
fn push_convention_signals(
    signals: &mut Vec<Signal>,
    matches: &Vec<(String, String, String)>,
    kind: &str,
)
    ensures
        signal_views(final(signals)@) == signal_views(old(signals)@) + convention_signals(
            matches@.map_values(|t: (String, String, String)| triple_view(t)),
            kind@,
        ),
{
    let ghost base = signal_views(signals@);
    let ghost mv = matches@.map_values(|t: (String, String, String)| triple_view(t));
    let mut i: usize = 0;
    while i < matches.len()
        invariant
            i <= matches@.len(),
            mv == matches@.map_values(|t: (String, String, String)| triple_view(t)),
            signal_views(signals@) == base + convention_signals(mv.take(i as int), kind@),
        decreases matches@.len() - i,
    {
        let m = &matches[i];
        let ghost prev = signal_views(signals@);
        let s = make_signal(
            "convention_match",
            m.0.as_str(),
            Some(owned(m.1.as_str())),
            test_command_for_file(m.1.as_str(), kind),
            "high",
            concat("Convention: ", m.2.as_str()),
        );
        signals.push(s);
        assert(signal_views(signals@) =~= prev.push(signal_view(s)));
        assert(mv.take(i + 1) =~= mv.take(i as int).push(triple_view(*m)));
        assert(convention_signals(mv.take(i + 1), kind@) =~= convention_signals(mv.take(i as int), kind@).push(signal_view(s)));
        assert(signal_views(signals@) =~= base + convention_signals(mv.take(i + 1), kind@));
        i = i + 1;
    }
    assert(mv.take(matches@.len() as int) =~= mv);
}

/// The import signals of one changed file: each test file that imports its
/// module and that no convention already matched.
pub open spec fn import_signals_for(
    f: Seq<char>,
    kind: Seq<char>,
    tests: Seq<Seq<char>>,
    imports: Seq<Seq<Seq<char>>>,
    conv_tests: Seq<Seq<char>>,
) -> Seq<SignalView> {
    if is_test_path(f, kind) {
        Seq::empty()
    } else {
        match module_name_of(f, kind) {
            Some(m) => importing(m, tests, imports).filter(|t: Seq<char>| !conv_tests.contains(t)).map_values(
                |t: Seq<char>|
                    sig(
                        "import_match"@,
                        f,
                        Some(t),
                        file_command(t, kind),
                        "high"@,
                        "Test imports module '"@ + m + "'"@,
                    ),
            ),
            None => Seq::empty(),
        }
    }
}

/// Each convention match `(file, test, convention)` gives one
/// `convention_match` signal on the file, naming the test and its command,
/// with high confidence and the convention as its reason. A changed file
/// that is no test and provides module `m` gives one `import_match` signal,
/// with high confidence, for each test file that imports `m` and that no
/// convention matched, and no other; a changed test file gives none.
pub proof fn law_match_signals(
    matches: Seq<(Seq<char>, Seq<char>, Seq<char>)>,
    kind: Seq<char>,
    f: Seq<char>,
    m: Seq<char>,
    tests: Seq<Seq<char>>,
    imports: Seq<Seq<Seq<char>>>,
    conv_tests: Seq<Seq<char>>,
)
    ensures
        convention_signals(matches, kind).len() == matches.len(),
        forall|k: int|
            0 <= k < matches.len() ==> #[trigger] convention_signals(matches, kind)[k] == sig(
                "convention_match"@,
                matches[k].0,
                Some(matches[k].1),
                file_command(matches[k].1, kind),
                "high"@,
                "Convention: "@ + matches[k].2,
            ),
        is_test_path(f, kind) ==> import_signals_for(f, kind, tests, imports, conv_tests).len() == 0,
        !is_test_path(f, kind) && module_name_of(f, kind) == Some(m) ==> forall|t: Seq<char>|
            #[trigger] import_signals_for(f, kind, tests, imports, conv_tests).contains(
                sig(
                    "import_match"@,
                    f,
                    Some(t),
                    file_command(t, kind),
                    "high"@,
                    "Test imports module '"@ + m + "'"@,
                ),
            ) <==> (importing(m, tests, imports).contains(t) && !conv_tests.contains(t)),
        !is_test_path(f, kind) && module_name_of(f, kind) == Some(m) ==> forall|k: int|
            0 <= k < import_signals_for(f, kind, tests, imports, conv_tests).len() ==> {
                let s = #[trigger] import_signals_for(f, kind, tests, imports, conv_tests)[k];
                &&& s.test_file is Some
                &&& s == sig(
                    "import_match"@,
                    f,
                    s.test_file,
                    file_command(s.test_file->0, kind),
                    "high"@,
                    "Test imports module '"@ + m + "'"@,
                )
            },
        module_name_of(f, kind) is None ==> import_signals_for(f, kind, tests, imports, conv_tests).len()
            == 0,
{
    if !is_test_path(f, kind) && module_name_of(f, kind) == Some(m) {
        let keep = |t: Seq<char>| !conv_tests.contains(t);
        let mk = |t: Seq<char>|
            sig("import_match"@, f, Some(t), file_command(t, kind), "high"@, "Test imports module '"@ + m + "'"@);
        let found = importing(m, tests, imports);
        let kept = found.filter(keep);
        let out = import_signals_for(f, kind, tests, imports, conv_tests);
        assert(out == kept.map_values(mk));
        assert forall|t: Seq<char>|
            #[trigger] out.contains(
                sig(
                    "import_match"@,
                    f,
                    Some(t),
                    file_command(t, kind),
                    "high"@,
                    "Test imports module '"@ + m + "'"@,
                ),
            ) <==> (found.contains(t) && !conv_tests.contains(t)) by {
            assert(mk(t) == sig(
                "import_match"@,
                f,
                Some(t),
                file_command(t, kind),
                "high"@,
                "Test imports module '"@ + m + "'"@,
            ));
            if out.contains(mk(t)) {
                let j = choose|j: int| 0 <= j < out.len() && out[j] == mk(t);
                assert(mk(kept[j]) == mk(t));
                assert(kept[j] == t);
                found.lemma_filter_pred(keep, j);
                assert(kept.contains(t));
                found.lemma_filter_contains_rev(keep, t);
            }
            if found.contains(t) && !conv_tests.contains(t) {
                let i = choose|i: int| 0 <= i < found.len() && found[i] == t;
                found.lemma_filter_contains(keep, i);
                let j = choose|j: int| 0 <= j < kept.len() && kept[j] == t;
                assert(out[j] == mk(t));
            }
        }
    }
}

/// Third signals: import matches, changed file by changed file.
pub open spec fn import_signals(
    files: Seq<Seq<char>>,
    kind: Seq<char>,
    tests: Seq<Seq<char>>,
    imports: Seq<Seq<Seq<char>>>,
    conv_tests: Seq<Seq<char>>,
) -> Seq<SignalView>
    decreases files.len(),
{
    if files.len() == 0 {
        Seq::empty()
    } else {
        import_signals(files.drop_last(), kind, tests, imports, conv_tests) + import_signals_for(
            files.last(),
            kind,
            tests,
            imports,
            conv_tests,
        )
    }
}

/// Whether some convention match names test file `t`.
fn matched_by_convention(matches: &Vec<(String, String, String)>, t: &str) -> (r: bool)
    ensures
        r == matches@.map_values(|m: (String, String, String)| triple_view(m).1).contains(t@),
{
    let ghost mv = matches@.map_values(|m: (String, String, String)| triple_view(m).1);
    let mut i: usize = 0;
    while i < matches.len()
        invariant
            i <= matches@.len(),
            mv == matches@.map_values(|m: (String, String, String)| triple_view(m).1),
            forall|k: int| 0 <= k < i ==> mv[k] != t@,
        decreases matches@.len() - i,
    {
        if same_text(matches[i].1.as_str(), t) {
            assert(mv[i as int] == t@);
            return true;
        }
        i = i + 1;
    }
    false
}

/// Append the import signals of all changed files.
fn push_import_signals(
    signals: &mut Vec<Signal>,
    changed_files: &Vec<String>,
    kind: &str,
    test_files: &Vec<String>,
    test_imports: &Vec<Vec<String>>,
    matches: &Vec<(String, String, String)>,
)
    ensures
        signal_views(final(signals)@) == signal_views(old(signals)@) + import_signals(
            views(changed_files@),
            kind@,
            views(test_files@),
            import_views(test_imports@),
            matches@.map_values(|m: (String, String, String)| triple_view(m).1),
        ),
{
    let ghost base = signal_views(signals@);
    let ghost fv = views(changed_files@);
    let ghost tv = views(test_files@);
    let ghost iv = import_views(test_imports@);
    let ghost ct = matches@.map_values(|m: (String, String, String)| triple_view(m).1);
    let mut i: usize = 0;
    assert(fv.take(0) =~= Seq::<Seq<char>>::empty());
    assert(base + import_signals(fv.take(0), kind@, tv, iv, ct) =~= base);
    while i < changed_files.len()
        invariant
            i <= changed_files@.len(),
            fv == views(changed_files@),
            tv == views(test_files@),
            iv == import_views(test_imports@),
            ct == matches@.map_values(|m: (String, String, String)| triple_view(m).1),
            signal_views(signals@) == base + import_signals(fv.take(i as int), kind@, tv, iv, ct),
        decreases changed_files@.len() - i,
    {
        let file = changed_files[i].as_str();
        assert(fv.take(i + 1).drop_last() =~= fv.take(i as int));
        assert(fv.take(i + 1).last() == file@);
        let ghost before = signal_views(signals@);
        if !is_test_file(file, kind) {
            match extract_module_name(file, kind) {
                Some(module) => {
                    let importers = find_test_files_importing(module.as_str(), test_files, test_imports);
                    let ghost imp = importing(module@, tv, iv);
                    let ghost keep = |t: Seq<char>| !ct.contains(t);
                    let ghost mk = |t: Seq<char>|
                        sig(
                            "import_match"@,
                            file@,
                            Some(t),
                            file_command(t, kind@),
                            "high"@,
                            "Test imports module '"@ + module@ + "'"@,
                        );
                    let mut j: usize = 0;
                    assert(imp.take(0) =~= Seq::<Seq<char>>::empty());
                    while j < importers.len()
                        invariant
                            j <= importers@.len(),
                            views(importers@) == imp,
                            ct == matches@.map_values(|m: (String, String, String)| triple_view(m).1),
                            keep == (|t: Seq<char>| !ct.contains(t)),
                            mk == (|t: Seq<char>|
                                sig(
                                    "import_match"@,
                                    file@,
                                    Some(t),
                                    file_command(t, kind@),
                                    "high"@,
                                    "Test imports module '"@ + module@ + "'"@,
                                )),
                            signal_views(signals@) == before + imp.take(j as int).filter(keep).map_values(mk),
                        decreases importers@.len() - j,
                    {
                        let t = importers[j].as_str();
                        assert(imp.take(j + 1) =~= imp.take(j as int).push(t@));
                        proof {
                            imp.take(j as int).lemma_filter_push(t@, keep);
                        }
                        if !matched_by_convention(matches, t) {
                            let ghost prev = signal_views(signals@);
                            let reason = concat(concat("Test imports module '", module.as_str()).as_str(), "'");
                            let s = make_signal(
                                "import_match",
                                file,
                                Some(owned(t)),
                                test_command_for_file(t, kind),
                                "high",
                                reason,
                            );
                            signals.push(s);
                            proof {
                                imp.take(j as int).filter(keep).lemma_push_map_commute(mk, t@);
                                assert(signal_views(signals@) =~= prev.push(signal_view(s)));
                            }
                        }
                        j = j + 1;
                    }
                    assert(imp.take(importers@.len() as int) =~= imp);
                },
                None => {},
            }
        }
        assert(signal_views(signals@) =~= base + import_signals(fv.take(i + 1), kind@, tv, iv, ct));
        i = i + 1;
    }
    assert(fv.take(changed_files@.len() as int) =~= fv);
}

/// Whether some signal of `acc` ties `changed` to the test file `test`.
pub open spec fn has_pair(acc: Seq<SignalView>, changed: Seq<char>, test: Seq<char>) -> bool {
    exists|k: int|
        0 <= k < acc.len() && (#[trigger] acc[k]).changed_file == changed && acc[k].test_file == Some(
            test,
        )
}

/// Whether some signal of `signals` ties `changed` to the test file `test`.
fn has_signal_for(signals: &Vec<Signal>, changed: &str, test: &str) -> (r: bool)
    ensures
        r == has_pair(signal_views(signals@), changed@, test@),
{
    let ghost sv = signal_views(signals@);
    let mut i: usize = 0;
    while i < signals.len()
        invariant
            i <= signals@.len(),
            sv == signal_views(signals@),
            forall|k: int|
                0 <= k < i ==> !((#[trigger] sv[k]).changed_file == changed@ && sv[k].test_file
                    == Some(test@)),
        decreases signals@.len() - i,
    {
        let s = &signals[i];
        assert(sv[i as int] == signal_view(*s));
        if same_text(s.changed_file.as_str(), changed) {
            match &s.test_file {
                Some(t) => {
                    if same_text(t.as_str(), test) {
                        return true;
                    }
                },
                None => {},
            }
        }
        i = i + 1;
    }
    false
}

/// The changed files that are not tests.
pub open spec fn source_files_of(files: Seq<Seq<char>>, kind: Seq<char>) -> Seq<Seq<char>> {
    files.filter(|f: Seq<char>| !is_test_path(f, kind))
}

/// The changed files that are not test files, in order.
pub fn source_files(changed_files: &Vec<String>, kind: &str) -> (r: Vec<String>)
    ensures
        views(r@) == source_files_of(views(changed_files@), kind@),
{
    let ghost fv = views(changed_files@);
    let ghost keep = |f: Seq<char>| !is_test_path(f, kind@);
    let mut out: Vec<String> = Vec::new();
    let mut i: usize = 0;
    assert(fv.take(0) =~= Seq::<Seq<char>>::empty());
    while i < changed_files.len()
        invariant
            i <= changed_files@.len(),
            fv == views(changed_files@),
            keep == (|f: Seq<char>| !is_test_path(f, kind@)),
            views(out@) == fv.take(i as int).filter(keep),
        decreases changed_files@.len() - i,
    {
        let f = changed_files[i].as_str();
        assert(fv.take(i + 1) =~= fv.take(i as int).push(f@));
        proof {
            fv.take(i as int).lemma_filter_push(f@, keep);
        }
        let ghost prev = views(out@);
        if !is_test_file(f, kind) {
            out.push(owned(f));
            assert(views(out@) =~= prev.push(f@));
        }
        i = i + 1;
    }
    assert(fv.take(changed_files@.len() as int) =~= fv);
    out
}

/// Whether the history is consulted: there are changed source files and
/// known test files.
pub fn history_needed(sources: &Vec<String>, test_files: &Vec<String>) -> (r: bool)
    ensures
        r == (sources@.len() > 0 && test_files@.len() > 0),
{
    sources.len() > 0 && test_files.len() > 0
}

/// The co-change entries of one changed file as `(changed, test, count)`.
pub open spec fn items_for(src: Seq<char>, list: Seq<(Seq<char>, nat)>) -> Seq<(Seq<char>, Seq<char>, nat)> {
    list.map_values(|p: (Seq<char>, nat)| (src, p.0, p.1))
}

/// All co-change entries, changed file by changed file.
pub open spec fn history_items(
    sources: Seq<Seq<char>>,
    commit_files: Seq<Vec<Vec<String>>>,
    tests: Seq<Seq<char>>,
) -> Seq<(Seq<char>, Seq<char>, nat)>
    decreases sources.len(),
{
    if sources.len() == 0 {
        Seq::empty()
    } else {
        let i = sources.len() - 1;
        history_items(sources.drop_last(), commit_files, tests) + items_for(
            sources[i],
            correlated(commits_of(commit_files, i), tests),
        )
    }
}

/// One co-change entry: a medium-confidence signal when the pair changed
/// together at least twice and no earlier signal ties them.
pub open spec fn history_step(
    acc: Seq<SignalView>,
    item: (Seq<char>, Seq<char>, nat),
    kind: Seq<char>,
) -> Seq<SignalView> {
    if item.2 >= 2 && !has_pair(acc, item.0, item.1) {
        acc.push(
            sig(
                "history_correlation"@,
                item.0,
                Some(item.1),
                file_command(item.1, kind),
                "medium"@,
                "Co-changed in "@ + decimal(item.2) + " commits"@,
            ),
        )
    } else {
        acc
    }
}

/// The co-change entries applied in order.
pub open spec fn history_fold(
    acc: Seq<SignalView>,
    items: Seq<(Seq<char>, Seq<char>, nat)>,
    kind: Seq<char>,
) -> Seq<SignalView>
    decreases items.len(),
{
    if items.len() == 0 {
        acc
    } else {
        history_step(history_fold(acc, items.drop_last(), kind), items.last(), kind)
    }
}

/// The co-change counts of the history fit in `usize`.
pub open spec fn counts_fit(commit_files: Seq<Vec<Vec<String>>>, tests: Seq<Seq<char>>) -> bool {
    forall|i: int, t: Seq<char>|
        0 <= i < commit_files.len() ==> #[trigger] co_count(
            commit_views(commit_files[i]@),
            tests,
            t,
        ) <= usize::MAX
}

/// Fourth signals: git history correlation.
fn push_history_signals(
    signals: &mut Vec<Signal>,
    sources: &Vec<String>,
    kind: &str,
    test_files: &Vec<String>,
    commit_files: &Vec<Vec<Vec<String>>>,
)
    requires
        counts_fit(commit_files@, views(test_files@)),
    ensures
        signal_views(final(signals)@) == history_fold(
            signal_views(old(signals)@),
            history_items(views(sources@), commit_files@, views(test_files@)),
            kind@,
        ),
{
    let ghost base = signal_views(signals@);
    let ghost sv = views(sources@);
    let ghost tv = views(test_files@);
    let co = find_co_changed_tests(sources, test_files, commit_files);
    let mut i: usize = 0;
    assert(sv.take(0) =~= Seq::<Seq<char>>::empty());
    while i < co.len()
        invariant
            i <= co@.len(),
            co@.len() == sources@.len(),
            sv == views(sources@),
            tv == views(test_files@),
            forall|i: int|
                0 <= i < co@.len() ==> (#[trigger] co@[i]).0@ == sources@[i]@ && co@[i].1@.map_values(
                    |p: (String, usize)| count_view(p),
                ) == correlated(commits_of(commit_files@, i), tv),
            signal_views(signals@) == history_fold(
                base,
                history_items(sv.take(i as int), commit_files@, tv),
                kind@,
            ),
        decreases co@.len() - i,
    {
        let entry = &co[i];
        let src = entry.0.as_str();
        let list = &entry.1;
        let ghost lv = list@.map_values(|p: (String, usize)| count_view(p));
        let ghost prefix = history_items(sv.take(i as int), commit_files@, tv);
        let ghost its = items_for(src@, lv);
        assert(sv.take(i + 1).drop_last() =~= sv.take(i as int));
        assert(sv.take(i + 1)[i as int] == src@);
        assert(history_items(sv.take(i + 1), commit_files@, tv) == prefix + its);
        let mut j: usize = 0;
        assert(prefix + its.take(0) =~= prefix);
        while j < list.len()
            invariant
                j <= list@.len(),
                lv == list@.map_values(|p: (String, usize)| count_view(p)),
                its == items_for(src@, lv),
                signal_views(signals@) == history_fold(base, prefix + its.take(j as int), kind@),
            decreases list@.len() - j,
        {
            let t = list[j].0.as_str();
            let n = list[j].1;
            assert((prefix + its.take(j + 1)).drop_last() =~= prefix + its.take(j as int));
            assert((prefix + its.take(j + 1)).last() == (src@, t@, n as nat));
            let ghost acc = signal_views(signals@);
            if n >= 2 && !has_signal_for(signals, src, t) {
                let reason = concat(
                    concat("Co-changed in ", decimal_string(n as u64).as_str()).as_str(),
                    " commits",
                );
                let s = make_signal(
                    "history_correlation",
                    src,
                    Some(owned(t)),
                    test_command_for_file(t, kind),
                    "medium",
                    reason,
                );
                signals.push(s);
                assert(signal_views(signals@) =~= acc.push(signal_view(s)));
            }
            j = j + 1;
        }
        assert(its.take(list@.len() as int) =~= its);
        i = i + 1;
    }
    assert(sv.take(co@.len() as int) =~= sv);
}

/// A test that the fragility matrix relates to a file.
#[derive(Debug, Clone)]
pub struct SentinelRelatedTest {
    pub path: String,
    pub cochanges: usize,
}

/// The fragility matrix's risk entry for one file.
#[derive(Debug, Clone)]
pub struct SentinelFileRisk {
    pub path: String,
    pub risk_score: u32,
    pub level: String,
    pub bugfix_commits: usize,
    pub related_tests: Vec<SentinelRelatedTest>,
    pub reasons: Vec<String>,
}

/// The fragility matrix: risk levels of files.
#[derive(Debug, Clone)]
pub struct SentinelMatrix {
    pub files: Vec<SentinelFileRisk>,
}

/// The paths of a risk entry's related tests.
pub open spec fn related_paths(r: SentinelFileRisk) -> Seq<Seq<char>> {
    r.related_tests@.map_values(|t: SentinelRelatedTest| t.path@)
}

/// The first risk entry for `file`.
pub open spec fn first_risk(risks: Seq<SentinelFileRisk>, file: Seq<char>) -> Option<SentinelFileRisk>
    decreases risks.len(),
{
    if risks.len() == 0 {
        None
    } else if risks[0].path@ == file {
        Some(risks[0])
    } else {
        first_risk(risks.drop_first(), file)
    }
}

/// The confidence that a risk level earns.
pub open spec fn risk_confidence(level: Seq<char>) -> Seq<char> {
    if level == "high"@ {
        "certain"@
    } else {
        "high"@
    }
}

/// The reason given for a related test of a risky file.
pub open spec fn risk_reason(r: SentinelFileRisk) -> Seq<char> {
    "Sentinel risk "@ + r.level@ + " (score "@ + decimal(r.risk_score as nat) + ", "@ + decimal(
        r.bugfix_commits as nat,
    ) + " bugfix commits): "@ + if r.reasons@.len() > 0 {
        r.reasons@[0]@
    } else {
        "fragile file"@
    }
}

/// The reason given when a risky file has no related tests.
pub open spec fn risk_suite_reason(r: SentinelFileRisk) -> Seq<char> {
    "Sentinel risk "@ + r.level@ + " (score "@ + decimal(r.risk_score as nat)
        + ") — full test suite recommended"@
}

/// The related tests of a risky file applied in order: each one that no
/// earlier signal ties to the file.
pub open spec fn related_fold(
    acc: Seq<SignalView>,
    f: Seq<char>,
    related: Seq<Seq<char>>,
    kind: Seq<char>,
    confidence: Seq<char>,
    reason: Seq<char>,
) -> Seq<SignalView>
    decreases related.len(),
{
    if related.len() == 0 {
        acc
    } else {
        let prev = related_fold(acc, f, related.drop_last(), kind, confidence, reason);
        let t = related.last();
        if has_pair(prev, f, t) {
            prev
        } else {
            prev.push(sig("sentinel_risk"@, f, Some(t), file_command(t, kind), confidence, reason))
        }
    }
}

/// Each related test of a risky file is tied to the file once the related
/// tests are applied, by an earlier signal or by a new `sentinel_risk` one
/// that names the test and its command.
proof fn lemma_related_fold_covers(
    acc: Seq<SignalView>,
    f: Seq<char>,
    related: Seq<Seq<char>>,
    kind: Seq<char>,
    confidence: Seq<char>,
    reason: Seq<char>,
)
    ensures
        forall|i: int|
            0 <= i < related.len() ==> has_pair(
                related_fold(acc, f, related, kind, confidence, reason),
                f,
                #[trigger] related[i],
            ),
        forall|k: int|
            acc.len() <= k < related_fold(acc, f, related, kind, confidence, reason).len() ==> {
                let s = #[trigger] related_fold(acc, f, related, kind, confidence, reason)[k];
                &&& s.test_file is Some
                &&& s == sig(
                    "sentinel_risk"@,
                    f,
                    s.test_file,
                    file_command(s.test_file->0, kind),
                    confidence,
                    reason,
                )
            },
        related_fold(acc, f, related, kind, confidence, reason).take(acc.len() as int) == acc,
    decreases related.len(),
{
    if related.len() == 0 {
        assert(acc.take(acc.len() as int) =~= acc);
    } else {
        let pre = related.drop_last();
        lemma_related_fold_covers(acc, f, pre, kind, confidence, reason);
        law_related_tests_add_no_repeat(acc, f, pre, kind, confidence, reason);
        let prev = related_fold(acc, f, pre, kind, confidence, reason);
        let r = related_fold(acc, f, related, kind, confidence, reason);
        let t = related.last();
        assert(forall|k: int| 0 <= k < prev.len() ==> r[k] == prev[k]);
        assert(r.take(acc.len() as int) =~= prev.take(acc.len() as int));
        assert forall|i: int| 0 <= i < related.len() implies has_pair(r, f, #[trigger] related[i]) by {
            if i < pre.len() {
                assert(pre[i] == related[i]);
                let k = choose|k: int|
                    0 <= k < prev.len() && (#[trigger] prev[k]).changed_file == f && prev[k].test_file == Some(
                        pre[i],
                    );
                assert(r[k] == prev[k]);
            } else if has_pair(prev, f, t) {
                let k = choose|k: int|
                    0 <= k < prev.len() && (#[trigger] prev[k]).changed_file == f && prev[k].test_file == Some(t);
                assert(r[k] == prev[k]);
            } else {
                assert(r[prev.len() as int].changed_file == f);
            }
        }
    }
}

/// The fragility matrix speaks only for a changed file that is no test and
/// whose first risk entry is at level `high` or `medium`; it leaves the
/// signals as they were otherwise. For such a file every related test is
/// tied to it after the step, each new signal being a `sentinel_risk` one
/// with the level's confidence; and a file with no related tests, about
/// which nothing was said yet, gets one such signal with the suite command.
pub proof fn law_sentinel_step(
    acc: Seq<SignalView>,
    f: Seq<char>,
    kind: Seq<char>,
    risks: Seq<SentinelFileRisk>,
    suite: Option<Seq<char>>,
)
    ensures
        is_test_path(f, kind) ==> sentinel_step(acc, f, kind, risks, suite) == acc,
        match first_risk(risks, f) {
            Some(r) => if !is_test_path(f, kind) && (r.level@ == "high"@ || r.level@ == "medium"@) {
                let out = sentinel_step(acc, f, kind, risks, suite);
                &&& out.take(acc.len() as int) == acc
                &&& forall|i: int|
                    0 <= i < r.related_tests@.len() ==> has_pair(
                        out,
                        f,
                        (#[trigger] r.related_tests@[i]).path@,
                    )
                &&& forall|k: int|
                    acc.len() <= k < out.len() ==> (#[trigger] out[k]).kind == "sentinel_risk"@
                        && out[k].changed_file == f && out[k].confidence == risk_confidence(r.level@)
                &&& forall|k: int|
                    acc.len() <= k < out.len() && (#[trigger] out[k]).test_file is Some ==> out[k] == sig(
                        "sentinel_risk"@,
                        f,
                        out[k].test_file,
                        file_command(out[k].test_file->0, kind),
                        risk_confidence(r.level@),
                        risk_reason(r),
                    )
                &&& (r.related_tests@.len() == 0 && !mentions(acc, f)) ==> out == acc.push(
                    sig("sentinel_risk"@, f, None, suite, risk_confidence(r.level@), risk_suite_reason(r)),
                )
            } else {
                sentinel_step(acc, f, kind, risks, suite) == acc
            },
            None => sentinel_step(acc, f, kind, risks, suite) == acc,
        },
{
    if !is_test_path(f, kind) {
        match first_risk(risks, f) {
            Some(r) => {
                if r.level@ == "high"@ || r.level@ == "medium"@ {
                    let conf = risk_confidence(r.level@);
                    let rel = related_paths(r);
                    lemma_related_fold_covers(acc, f, rel, kind, conf, risk_reason(r));
                    let acc2 = related_fold(acc, f, rel, kind, conf, risk_reason(r));
                    let out = sentinel_step(acc, f, kind, risks, suite);
                    assert(forall|k: int| 0 <= k < acc2.len() ==> out[k] == acc2[k]);
                    assert(out.take(acc.len() as int) =~= acc2.take(acc.len() as int));
                    assert forall|i: int| 0 <= i < r.related_tests@.len() implies has_pair(
                        out,
                        f,
                        (#[trigger] r.related_tests@[i]).path@,
                    ) by {
                        assert(rel[i] == r.related_tests@[i].path@);
                        let k = choose|k: int|
                            0 <= k < acc2.len() && (#[trigger] acc2[k]).changed_file == f && acc2[k].test_file
                                == Some(rel[i]);
                        assert(out[k] == acc2[k]);
                    }
                    law_related_tests_add_no_repeat(acc, f, rel, kind, conf, risk_reason(r));
                    if rel.len() == 0 {
                        assert(acc2 == acc);
                    }
                }
            },
            None => {},
        }
    }
}

/// Whether some signal of `acc` is about `f`.
pub open spec fn mentions(acc: Seq<SignalView>, f: Seq<char>) -> bool {
    exists|k: int| 0 <= k < acc.len() && (#[trigger] acc[k]).changed_file == f
}

/// One changed file against the fragility matrix.
pub open spec fn sentinel_step(
    acc: Seq<SignalView>,
    f: Seq<char>,
    kind: Seq<char>,
    risks: Seq<SentinelFileRisk>,
    suite: Option<Seq<char>>,
) -> Seq<SignalView> {
    if is_test_path(f, kind) {
        acc
    } else {
        match first_risk(risks, f) {
            Some(r) => if r.level@ == "high"@ || r.level@ == "medium"@ {
                let conf = risk_confidence(r.level@);
                let acc2 = related_fold(acc, f, related_paths(r), kind, conf, risk_reason(r));
                if r.related_tests@.len() == 0 && !mentions(acc2, f) {
                    acc2.push(sig("sentinel_risk"@, f, None, suite, conf, risk_suite_reason(r)))
                } else {
                    acc2
                }
            } else {
                acc
            },
            None => acc,
        }
    }
}

/// Fifth signals: the fragility matrix, changed file by changed file.
pub open spec fn sentinel_fold(
    acc: Seq<SignalView>,
    files: Seq<Seq<char>>,
    kind: Seq<char>,
    risks: Seq<SentinelFileRisk>,
    suite: Option<Seq<char>>,
) -> Seq<SignalView>
    decreases files.len(),
{
    if files.len() == 0 {
        acc
    } else {
        sentinel_step(sentinel_fold(acc, files.drop_last(), kind, risks, suite), files.last(), kind, risks, suite)
    }
}

/// Whether some signal of `signals` is about `f`.
fn has_signal_about(signals: &Vec<Signal>, f: &str) -> (r: bool)
    ensures
        r == mentions(signal_views(signals@), f@),
{
    let ghost sv = signal_views(signals@);
    let mut i: usize = 0;
    while i < signals.len()
        invariant
            i <= signals@.len(),
            sv == signal_views(signals@),
            forall|k: int| 0 <= k < i ==> (#[trigger] sv[k]).changed_file != f@,
        decreases signals@.len() - i,
    {
        assert(sv[i as int] == signal_view(signals@[i as int]));
        if same_text(signals[i].changed_file.as_str(), f) {
            return true;
        }
        i = i + 1;
    }
    false
}

/// The first risk entry for `file`, by position.
fn find_risk(risks: &Vec<SentinelFileRisk>, file: &str) -> (r: Option<usize>)
    ensures
        match r {
            Some(k) => k < risks@.len() && first_risk(risks@, file@) == Some(risks@[k as int]),
            None => first_risk(risks@, file@) is None,
        },
{
    let mut i: usize = 0;
    assert(risks@.skip(0) =~= risks@);
    while i < risks.len()
        invariant
            i <= risks@.len(),
            first_risk(risks@, file@) == first_risk(risks@.skip(i as int), file@),
        decreases risks@.len() - i,
    {
        if same_text(risks[i].path.as_str(), file) {
            return Some(i);
        }
        assert(risks@.skip(i as int).drop_first() =~= risks@.skip(i + 1));
        i = i + 1;
    }
    None
}

/// The command that runs the primary project's suite.
pub open spec fn suite_command(projects: Seq<DetectedProject>) -> Option<Seq<char>> {
    if projects.len() > 0 {
        project_command(projects[0].kind@)
    } else {
        None
    }
}

/// The primary project's suite command.
fn primary_suite_command(projects: &Vec<DetectedProject>) -> (r: Option<String>)
    ensures
        opt_view(r) == suite_command(projects@),
{
    if projects.len() > 0 {
        test_command_for(&projects[0])
    } else {
        None
    }
}

/// Append the signals of one risky file's related tests.
fn push_related_signals(
    signals: &mut Vec<Signal>,
    file: &str,
    risk: &SentinelFileRisk,
    kind: &str,
    confidence: &str,
    reason: &str,
)
    ensures
        signal_views(final(signals)@) == related_fold(
            signal_views(old(signals)@),
            file@,
            related_paths(*risk),
            kind@,
            confidence@,
            reason@,
        ),
{
    let ghost base = signal_views(signals@);
    let ghost rp = related_paths(*risk);
    let mut j: usize = 0;
    assert(rp.take(0) =~= Seq::<Seq<char>>::empty());
    while j < risk.related_tests.len()
        invariant
            j <= risk.related_tests@.len(),
            rp == related_paths(*risk),
            signal_views(signals@) == related_fold(
                base,
                file@,
                rp.take(j as int),
                kind@,
                confidence@,
                reason@,
            ),
        decreases risk.related_tests@.len() - j,
    {
        let t = risk.related_tests[j].path.as_str();
        assert(rp.take(j + 1).drop_last() =~= rp.take(j as int));
        assert(rp.take(j + 1).last() == t@);
        let ghost acc = signal_views(signals@);
        if !has_signal_for(signals, file, t) {
            let s = make_signal(
                "sentinel_risk",
                file,
                Some(owned(t)),
                test_command_for_file(t, kind),
                confidence,
                owned(reason),
            );
            signals.push(s);
            assert(signal_views(signals@) =~= acc.push(signal_view(s)));
        }
        j = j + 1;
    }
    assert(rp.take(risk.related_tests@.len() as int) =~= rp);
}

/// `a + b + c + d` as a fresh string.
fn concat4(a: &str, b: &str, c: &str, d: &str) -> (r: String)
    ensures
        r@ == a@ + b@ + c@ + d@,
{
    let ab = concat(a, b);
    let abc = concat(ab.as_str(), c);
    concat(abc.as_str(), d)
}

/// Fifth signals: append what the fragility matrix says of each changed file.
fn push_sentinel_signals(
    signals: &mut Vec<Signal>,
    changed_files: &Vec<String>,
    kind: &str,
    matrix: &SentinelMatrix,
    suite: &Option<String>,
)
    ensures
        signal_views(final(signals)@) == sentinel_fold(
            signal_views(old(signals)@),
            views(changed_files@),
            kind@,
            matrix.files@,
            opt_view(*suite),
        ),
{
    let ghost base = signal_views(signals@);
    let ghost fv = views(changed_files@);
    let mut i: usize = 0;
    assert(fv.take(0) =~= Seq::<Seq<char>>::empty());
    while i < changed_files.len()
        invariant
            i <= changed_files@.len(),
            fv == views(changed_files@),
            signal_views(signals@) == sentinel_fold(
                base,
                fv.take(i as int),
                kind@,
                matrix.files@,
                opt_view(*suite),
            ),
        decreases changed_files@.len() - i,
    {
        let file = changed_files[i].as_str();
        assert(fv.take(i + 1).drop_last() =~= fv.take(i as int));
        assert(fv.take(i + 1).last() == file@);
        if !is_test_file(file, kind) {
            match find_risk(&matrix.files, file) {
                Some(k) => {
                    let risk = &matrix.files[k];
                    let level = risk.level.as_str();
                    if same_text(level, "high") || same_text(level, "medium") {
                        let conf = if same_text(level, "high") {
                            "certain"
                        } else {
                            "high"
                        };
                        let tail = if risk.reasons.len() > 0 {
                            risk.reasons[0].as_str()
                        } else {
                            "fragile file"
                        };
                        let score = decimal_string(risk.risk_score as u64);
                        let bugfix = decimal_string(risk.bugfix_commits as u64);
                        let r1 = concat4("Sentinel risk ", level, " (score ", score.as_str());
                        let r2 = concat4(r1.as_str(), ", ", bugfix.as_str(), " bugfix commits): ");
                        let reason = concat(r2.as_str(), tail);
                        assert(reason@ == risk_reason(*risk));
                        push_related_signals(signals, file, risk, kind, conf, reason.as_str());
                        if risk.related_tests.len() == 0 && !has_signal_about(signals, file) {
                            let ghost acc = signal_views(signals@);
                            let r3 = concat4("Sentinel risk ", level, " (score ", score.as_str());
                            let suite_reason = concat(r3.as_str(), ") — full test suite recommended");
                            let cmd = match suite {
                                Some(c) => Some(owned(c.as_str())),
                                None => None,
                            };
                            let s = make_signal("sentinel_risk", file, None, cmd, conf, suite_reason);
                            signals.push(s);
                            assert(signal_views(signals@) =~= acc.push(signal_view(s)));
                        }
                    }
                },
                None => {},
            }
        }
        i = i + 1;
    }
    assert(fv.take(changed_files@.len() as int) =~= fv);
}

/// Most signals that the dependency graph may add, to keep hub files quiet.
pub const ATLAS_SIGNAL_CAP: usize = 10;

/// A node of the dependency graph: a file and the files it depends on.
#[derive(Debug, Clone)]
pub struct AtlasNode {
    pub path: String,
    pub deps: Vec<String>,
}

/// The files that depend on `target` through one node: the node's
/// normalized path once for each dependency that normalizes to `target`,
/// self-edges left out.
pub open spec fn node_dependents(n: AtlasNode, target: Seq<char>) -> Seq<Seq<char>> {
    views(n.deps@).filter(
        |d: Seq<char>| normalized(d) == target && normalized(d) != normalized(n.path@),
    ).map_values(|d: Seq<char>| normalized(n.path@))
}

/// The reverse dependencies of `target` in the graph, node by node.
pub open spec fn dependents(nodes: Seq<AtlasNode>, target: Seq<char>) -> Seq<Seq<char>>
    decreases nodes.len(),
{
    if nodes.len() == 0 {
        Seq::empty()
    } else {
        dependents(nodes.drop_last(), target) + node_dependents(nodes.last(), target)
    }
}

/// A file depends on `target` exactly when it is the (normalized) path of a
/// node with a dependency that normalizes to `target`, the node not being
/// `target` itself.
pub proof fn law_reverse_dependencies(nodes: Seq<AtlasNode>, target: Seq<char>)
    ensures
        forall|x: Seq<char>|
            #[trigger] dependents(nodes, target).contains(x) <==> exists|i: int, j: int|
                #![trigger nodes[i].deps@[j]]
                0 <= i < nodes.len() && 0 <= j < nodes[i].deps@.len() && normalized(nodes[i].deps@[j]@)
                    == target && normalized(nodes[i].path@) != target && x == normalized(nodes[i].path@),
    decreases nodes.len(),
{
    if nodes.len() > 0 {
        let pre = nodes.drop_last();
        let n = nodes.last();
        law_reverse_dependencies(pre, target);
        let head = dependents(pre, target);
        let dv = views(n.deps@);
        let keep = |d: Seq<char>| normalized(d) == target && normalized(d) != normalized(n.path@);
        let mk = |d: Seq<char>| normalized(n.path@);
        let kept = dv.filter(keep);
        let tail = node_dependents(n, target);
        assert(tail == kept.map_values(mk));
        assert(dependents(nodes, target) == head + tail);
        assert forall|x: Seq<char>| #[trigger] dependents(nodes, target).contains(x) <==> exists|i: int, j: int|
            #![trigger nodes[i].deps@[j]]
            0 <= i < nodes.len() && 0 <= j < nodes[i].deps@.len() && normalized(nodes[i].deps@[j]@) == target
                && normalized(nodes[i].path@) != target && x == normalized(nodes[i].path@) by {
            if (head + tail).contains(x) {
                let q = choose|q: int| 0 <= q < (head + tail).len() && (head + tail)[q] == x;
                if q < head.len() {
                    assert(head[q] == x);
                    assert(head.contains(x));
                    let (i, j) = choose|i: int, j: int|
                        #![trigger pre[i].deps@[j]]
                        0 <= i < pre.len() && 0 <= j < pre[i].deps@.len() && normalized(pre[i].deps@[j]@)
                            == target && normalized(pre[i].path@) != target && x == normalized(pre[i].path@);
                    assert(nodes[i] == pre[i]);
                    assert(nodes[i].deps@[j] == pre[i].deps@[j]);
                } else {
                    let m = q - head.len();
                    assert(tail[m] == x);
                    dv.lemma_filter_pred(keep, m);
                    assert(kept.contains(kept[m]));
                    dv.lemma_filter_contains_rev(keep, kept[m]);
                    let j = choose|j: int| 0 <= j < dv.len() && dv[j] == kept[m];
                    let i = nodes.len() - 1;
                    assert(nodes[i] == n);
                    assert(nodes[i].deps@[j]@ == dv[j]);
                }
            }
            if exists|i: int, j: int|
                #![trigger nodes[i].deps@[j]]
                0 <= i < nodes.len() && 0 <= j < nodes[i].deps@.len() && normalized(nodes[i].deps@[j]@)
                    == target && normalized(nodes[i].path@) != target && x == normalized(nodes[i].path@) {
                let (i, j) = choose|i: int, j: int|
                    #![trigger nodes[i].deps@[j]]
                    0 <= i < nodes.len() && 0 <= j < nodes[i].deps@.len() && normalized(nodes[i].deps@[j]@)
                        == target && normalized(nodes[i].path@) != target && x == normalized(nodes[i].path@);
                if i < pre.len() {
                    assert(pre[i] == nodes[i]);
                    assert(pre[i].deps@[j] == nodes[i].deps@[j]);
                    assert(head.contains(x));
                    let q = choose|q: int| 0 <= q < head.len() && head[q] == x;
                    assert((head + tail)[q] == x);
                } else {
                    assert(nodes[i] == n);
                    assert(dv[j] == n.deps@[j]@);
                    dv.lemma_filter_contains(keep, j);
                    let m = choose|m: int| 0 <= m < kept.len() && kept[m] == dv[j];
                    assert(tail[m] == x);
                    assert((head + tail)[head.len() + m] == x);
                }
            }
        }
    }
}

/// The files that depend on `target` according to the dependency graph
/// `nodes`, with paths normalized.
pub fn reverse_dependencies(nodes: &Vec<AtlasNode>, target: &str) -> (r: Vec<String>)
    ensures
        views(r@) == dependents(nodes@, target@),
{
    let mut out: Vec<String> = Vec::new();
    let mut i: usize = 0;
    assert(nodes@.take(0) =~= Seq::<AtlasNode>::empty());
    while i < nodes.len()
        invariant
            i <= nodes@.len(),
            views(out@) == dependents(nodes@.take(i as int), target@),
        decreases nodes@.len() - i,
    {
        let node = &nodes[i];
        assert(nodes@.take(i + 1).drop_last() =~= nodes@.take(i as int));
        assert(nodes@.take(i + 1).last() == *node);
        let src = normalize_path(node.path.as_str());
        let ghost base = views(out@);
        let ghost dv = views(node.deps@);
        let ghost keep = |d: Seq<char>| normalized(d) == target@ && normalized(d) != normalized(node.path@);
        let ghost mk = |d: Seq<char>| normalized(node.path@);
        let mut j: usize = 0;
        assert(dv.take(0) =~= Seq::<Seq<char>>::empty());
        while j < node.deps.len()
            invariant
                j <= node.deps@.len(),
                dv == views(node.deps@),
                src@ == normalized(node.path@),
                keep == (|d: Seq<char>| normalized(d) == target@ && normalized(d) != normalized(node.path@)),
                mk == (|d: Seq<char>| normalized(node.path@)),
                views(out@) == base + dv.take(j as int).filter(keep).map_values(mk),
            decreases node.deps@.len() - j,
        {
            let d = node.deps[j].as_str();
            assert(dv.take(j + 1) =~= dv.take(j as int).push(d@));
            proof {
                dv.take(j as int).lemma_filter_push(d@, keep);
            }
            let nd = normalize_path(d);
            if same_text(nd.as_str(), target) && !same_text(nd.as_str(), src.as_str()) {
                let ghost prev = views(out@);
                out.push(owned(src.as_str()));
                proof {
                    dv.take(j as int).filter(keep).lemma_push_map_commute(mk, d@);
                }
                assert(views(out@) =~= prev.push(mk(d@)));
            }
            j = j + 1;
        }
        assert(dv.take(node.deps@.len() as int) =~= dv);
        i = i + 1;
    }
    assert(nodes@.take(nodes@.len() as int) =~= nodes@);
    out
}

/// The graph's candidate pairs `(changed, dependent)`, changed file by
/// changed file; changed test files give none.
pub open spec fn atlas_items(
    files: Seq<Seq<char>>,
    kind: Seq<char>,
    nodes: Seq<AtlasNode>,
) -> Seq<(Seq<char>, Seq<char>)>
    decreases files.len(),
{
    if files.len() == 0 {
        Seq::empty()
    } else {
        let f = files.last();
        atlas_items(files.drop_last(), kind, nodes) + if is_test_path(f, kind) {
            Seq::empty()
        } else {
            dependents(nodes, normalized(f)).map_values(|d: Seq<char>| (f, d))
        }
    }
}

/// One candidate pair: while under the cap, a high-confidence signal for a
/// dependent test file that no earlier signal ties to the changed file.
pub open spec fn atlas_step(
    state: (Seq<SignalView>, nat),
    item: (Seq<char>, Seq<char>),
    kind: Seq<char>,
) -> (Seq<SignalView>, nat) {
    let (acc, n) = state;
    if n < ATLAS_SIGNAL_CAP && is_test_path(item.1, kind) && !has_pair(acc, item.0, item.1) {
        (
            acc.push(
                sig(
                    "atlas_rdep"@,
                    item.0,
                    Some(item.1),
                    file_command(item.1, kind),
                    "high"@,
                    "Atlas: test file depends on changed file"@,
                ),
            ),
            n + 1,
        )
    } else {
        (acc, n)
    }
}

/// The candidate pairs applied in order.
pub open spec fn atlas_fold(
    state: (Seq<SignalView>, nat),
    items: Seq<(Seq<char>, Seq<char>)>,
    kind: Seq<char>,
) -> (Seq<SignalView>, nat)
    decreases items.len(),
{
    if items.len() == 0 {
        state
    } else {
        atlas_step(atlas_fold(state, items.drop_last(), kind), items.last(), kind)
    }
}

/// Once the cap is reached, further pairs change nothing.
pub proof fn lemma_atlas_fold_capped(
    state: (Seq<SignalView>, nat),
    items: Seq<(Seq<char>, Seq<char>)>,
    kind: Seq<char>,
)
    requires
        state.1 >= ATLAS_SIGNAL_CAP,
    ensures
        atlas_fold(state, items, kind) == state,
    decreases items.len(),
{
    if items.len() > 0 {
        lemma_atlas_fold_capped(state, items.drop_last(), kind);
    }
}

/// The fold over a concatenation is the fold over the second part started
/// where the first left off.
pub proof fn lemma_atlas_fold_append(
    state: (Seq<SignalView>, nat),
    a: Seq<(Seq<char>, Seq<char>)>,
    b: Seq<(Seq<char>, Seq<char>)>,
    kind: Seq<char>,
)
    ensures
        atlas_fold(state, a + b, kind) == atlas_fold(atlas_fold(state, a, kind), b, kind),
    decreases b.len(),
{
    if b.len() == 0 {
        assert(a + b =~= a);
    } else {
        assert((a + b).drop_last() =~= a + b.drop_last());
        lemma_atlas_fold_append(state, a, b.drop_last(), kind);
    }
}

/// Sixth signals: append the dependency graph's test files, at most
/// `ATLAS_SIGNAL_CAP` of them.
fn push_atlas_signals(
    signals: &mut Vec<Signal>,
    changed_files: &Vec<String>,
    kind: &str,
    nodes: &Vec<AtlasNode>,
)
    ensures
        signal_views(final(signals)@) == atlas_fold(
            (signal_views(old(signals)@), 0),
            atlas_items(views(changed_files@), kind@, nodes@),
            kind@,
        ).0,
{
    let ghost base = signal_views(signals@);
    let ghost fv = views(changed_files@);
    let ghost all = atlas_items(fv, kind@, nodes@);
    let mut count: usize = 0;
    let mut i: usize = 0;
    assert(fv.take(0) =~= Seq::<Seq<char>>::empty());
    while i < changed_files.len()
        invariant
            i <= changed_files@.len(),
            fv == views(changed_files@),
            all == atlas_items(fv, kind@, nodes@),
            count <= ATLAS_SIGNAL_CAP,
            (signal_views(signals@), count as nat) == atlas_fold(
                (base, 0),
                atlas_items(fv.take(i as int), kind@, nodes@),
                kind@,
            ),
        ensures
            i <= changed_files@.len(),
            count <= ATLAS_SIGNAL_CAP,
            i < changed_files@.len() ==> count >= ATLAS_SIGNAL_CAP,
            (signal_views(signals@), count as nat) == atlas_fold(
                (base, 0),
                atlas_items(fv.take(i as int), kind@, nodes@),
                kind@,
            ),
        decreases changed_files@.len() - i,
    {
        if count >= ATLAS_SIGNAL_CAP {
            break;
        }
        let file = changed_files[i].as_str();
        assert(fv.take(i + 1).drop_last() =~= fv.take(i as int));
        assert(fv.take(i + 1).last() == file@);
        if !is_test_file(file, kind) {
            let normalized_file = normalize_path(file);
            let deps = reverse_dependencies(nodes, normalized_file.as_str());
            let ghost prefix = atlas_items(fv.take(i as int), kind@, nodes@);
            let ghost its = views(deps@).map_values(|d: Seq<char>| (file@, d));
            assert(atlas_items(fv.take(i + 1), kind@, nodes@) == prefix + its);
            let mut j: usize = 0;
            assert(prefix + its.take(0) =~= prefix);
            while j < deps.len()
                invariant
                    j <= deps@.len(),
                    its == views(deps@).map_values(|d: Seq<char>| (file@, d)),
                    count <= ATLAS_SIGNAL_CAP,
                    (signal_views(signals@), count as nat) == atlas_fold(
                        (base, 0),
                        prefix + its.take(j as int),
                        kind@,
                    ),
                ensures
                    j <= deps@.len(),
                    count <= ATLAS_SIGNAL_CAP,
                    j < deps@.len() ==> count >= ATLAS_SIGNAL_CAP,
                    (signal_views(signals@), count as nat) == atlas_fold(
                        (base, 0),
                        prefix + its.take(j as int),
                        kind@,
                    ),
                decreases deps@.len() - j,
            {
                if count >= ATLAS_SIGNAL_CAP {
                    break;
                }
                let dep = deps[j].as_str();
                assert((prefix + its.take(j + 1)).drop_last() =~= prefix + its.take(j as int));
                assert((prefix + its.take(j + 1)).last() == (file@, dep@));
                let ghost acc = signal_views(signals@);
                if is_test_file(dep, kind) && !has_signal_for(signals, file, dep) {
                    let s = make_signal(
                        "atlas_rdep",
                        file,
                        Some(owned(dep)),
                        test_command_for_file(dep, kind),
                        "high",
                        owned("Atlas: test file depends on changed file"),
                    );
                    signals.push(s);
                    count = count + 1;
                    assert(signal_views(signals@) =~= acc.push(signal_view(s)));
                }
                j = j + 1;
            }
            proof {
                if j < deps@.len() {
                    let rest = its.skip(j as int);
                    assert(its =~= its.take(j as int) + rest);
                    assert(prefix + its =~= (prefix + its.take(j as int)) + rest);
                    lemma_atlas_fold_append((base, 0), prefix + its.take(j as int), rest, kind@);
                    lemma_atlas_fold_capped(
                        (signal_views(signals@), count as nat),
                        rest,
                        kind@,
                    );
                } else {
                    assert(its.take(deps@.len() as int) =~= its);
                }
            }
        } else {
            assert(atlas_items(fv.take(i + 1), kind@, nodes@) =~= atlas_items(fv.take(i as int), kind@, nodes@));
        }
        i = i + 1;
    }
    proof {
        let done = atlas_items(fv.take(i as int), kind@, nodes@);
        if i < changed_files@.len() {
            let rest = fv.skip(i as int);
            lemma_atlas_items_append(fv.take(i as int), rest, kind@, nodes@);
            assert(fv.take(i as int) + rest =~= fv);
            lemma_atlas_fold_append((base, 0), done, atlas_items(rest, kind@, nodes@), kind@);
            lemma_atlas_fold_capped(
                (signal_views(signals@), count as nat),
                atlas_items(rest, kind@, nodes@),
                kind@,
            );
        } else {
            assert(fv.take(i as int) =~= fv);
        }
    }
}

/// The candidate pairs of a concatenation of file lists.
pub proof fn lemma_atlas_items_append(
    a: Seq<Seq<char>>,
    b: Seq<Seq<char>>,
    kind: Seq<char>,
    nodes: Seq<AtlasNode>,
)
    ensures
        atlas_items(a + b, kind, nodes) == atlas_items(a, kind, nodes) + atlas_items(b, kind, nodes),
    decreases b.len(),
{
    if b.len() == 0 {
        assert(a + b =~= a);
        assert(atlas_items(a, kind, nodes) + atlas_items(b, kind, nodes) =~= atlas_items(a, kind, nodes));
    } else {
        assert((a + b).drop_last() =~= a + b.drop_last());
        assert((a + b).last() == b.last());
        lemma_atlas_items_append(a, b.drop_last(), kind, nodes);
        assert(atlas_items(a + b, kind, nodes) =~= atlas_items(a, kind, nodes) + atlas_items(b, kind, nodes));
    }
}

/// The first changed file, or the empty string.
pub open spec fn first_or_empty(files: Seq<Seq<char>>) -> Seq<char> {
    if files.len() > 0 {
        files[0]
    } else {
        Seq::empty()
    }
}

/// Seventh signals: the project-level command of every project that has one,
/// with low confidence.
pub open spec fn fallback_signals(projects: Seq<DetectedProject>, first: Seq<char>) -> Seq<SignalView>
    decreases projects.len(),
{
    if projects.len() == 0 {
        Seq::empty()
    } else {
        fallback_signals(projects.drop_last(), first) + match project_command(projects.last().kind@) {
            Some(cmd) => seq![
                sig(
                    "fallback"@,
                    first,
                    None,
                    Some(cmd),
                    "low"@,
                    "No specific test found; fallback to project-level: "@ + cmd,
                ),
            ],
            None => Seq::empty(),
        }
    }
}

/// Append a fallback signal for every project with a test command.
fn push_fallback_signals(
    signals: &mut Vec<Signal>,
    projects: &Vec<DetectedProject>,
    changed_files: &Vec<String>,
)
    ensures
        signal_views(final(signals)@) == signal_views(old(signals)@) + fallback_signals(
            projects@,
            first_or_empty(views(changed_files@)),
        ),
{
    let ghost base = signal_views(signals@);
    let first = if changed_files.len() > 0 {
        owned(changed_files[0].as_str())
    } else {
        String::new()
    };
    assert(first@ == first_or_empty(views(changed_files@)));
    let mut i: usize = 0;
    assert(projects@.take(0) =~= Seq::<DetectedProject>::empty());
    assert(base + fallback_signals(projects@.take(0), first@) =~= base);
    while i < projects.len()
        invariant
            i <= projects@.len(),
            signal_views(signals@) == base + fallback_signals(projects@.take(i as int), first@),
        decreases projects@.len() - i,
    {
        assert(projects@.take(i + 1).drop_last() =~= projects@.take(i as int));
        assert(projects@.take(i + 1).last() == projects@[i as int]);
        let ghost prev = signal_views(signals@);
        match test_command_for(&projects[i]) {
            Some(cmd) => {
                let reason = concat("No specific test found; fallback to project-level: ", cmd.as_str());
                let s = make_signal("fallback", first.as_str(), None, Some(cmd), "low", reason);
                signals.push(s);
                assert(signal_views(signals@) =~= prev.push(signal_view(s)));
            },
            None => {},
        }
        assert(signal_views(signals@) =~= base + fallback_signals(projects@.take(i + 1), first@));
        i = i + 1;
    }
    assert(projects@.take(projects@.len() as int) =~= projects@);
}

/// What the analysis reads from the repository, gathered beforehand.
#[derive(Debug, Clone)]
pub struct RepoFacts {
    /// The project's test files (see `conventions::discover_test_files`).
    pub test_files: Vec<String>,
    /// Repository paths known to exist: at least every convention candidate
    /// of the changed files that exists.
    pub existing_files: Vec<String>,
    /// What each test file imports: `test_imports[i]` for `test_files[i]`
    /// (see `imports::extract_imports`).
    pub test_imports: Vec<Vec<String>>,
    /// The history of each changed file that is not a test (in the order of
    /// `source_files`): the files of each of its latest commits.
    pub commit_files: Vec<Vec<Vec<String>>>,
    /// The fragility matrix, when one was found and read.
    pub sentinel: Option<SentinelMatrix>,
    /// The nodes of the dependency graph, when one was found and read.
    pub atlas: Option<Vec<AtlasNode>>,
}

/// The kind of the primary project: the first detected one, else `unknown`.
pub open spec fn primary_kind(projects: Seq<DetectedProject>) -> Seq<char> {
    if projects.len() > 0 {
        projects[0].kind@
    } else {
        "unknown"@
    }
}

/// The kind of the primary project.
pub fn primary_project_kind(projects: &Vec<DetectedProject>) -> (r: String)
    ensures
        r@ == primary_kind(projects@),
{
    if projects.len() > 0 {
        owned(projects[0].kind.as_str())
    } else {
        owned("unknown")
    }
}

/// The first detected project leads: its kind is the kind the analysis
/// goes by and its suite command is the full-validation command; with no
/// project the kind is `unknown` and there is no such command. A file at
/// high risk earns certain confidence, one at any other level high.
pub proof fn law_primary_project(projects: Seq<DetectedProject>, level: Seq<char>)
    ensures
        projects.len() > 0 ==> primary_kind(projects) == projects[0].kind@ && suite_command(projects)
            == project_command(projects[0].kind@),
        projects.len() == 0 ==> primary_kind(projects) == "unknown"@ && suite_command(projects) is None,
        risk_confidence("high"@) == "certain"@,
        level != "high"@ ==> risk_confidence(level) == "high"@,
{
}

/// Every changed file that is a test file by the conventions of the kind
/// earns a `direct_test_change` signal on the file itself, naming it as the
/// test file, with its own command, certain; and each such signal is that of
/// a changed test file.
pub proof fn law_changed_tests_signalled(files: Seq<Seq<char>>, kind: Seq<char>)
    ensures
        forall|f: Seq<char>|
            #[trigger] files.contains(f) && is_test_path(f, kind) ==> direct_signals(files, kind).contains(
                sig("direct_test_change"@, f, Some(f), file_command(f, kind), "certain"@, f + " is itself a test file"@),
            ),
        forall|k: int|
            0 <= k < direct_signals(files, kind).len() ==> {
                let s = #[trigger] direct_signals(files, kind)[k];
                &&& files.contains(s.changed_file)
                &&& is_test_path(s.changed_file, kind)
                &&& s == sig("direct_test_change"@, s.changed_file, Some(s.changed_file), file_command(s.changed_file, kind), "certain"@, s.changed_file + " is itself a test file"@)
            },
    decreases files.len(),
{
    if files.len() > 0 {
        let pre = files.drop_last();
        let f = files.last();
        law_changed_tests_signalled(pre, kind);
        let head = direct_signals(pre, kind);
        let tail = if is_test_path(f, kind) {
            seq![sig("direct_test_change"@, f, Some(f), file_command(f, kind), "certain"@, f + " is itself a test file"@)]
        } else {
            Seq::<SignalView>::empty()
        };
        assert(direct_signals(files, kind) == head + tail);
        assert forall|g: Seq<char>| #[trigger] files.contains(g) && is_test_path(g, kind) implies direct_signals(
            files,
            kind,
        ).contains(sig("direct_test_change"@, g, Some(g), file_command(g, kind), "certain"@, g + " is itself a test file"@)) by {
            let m = choose|m: int| 0 <= m < files.len() && files[m] == g;
            if m < files.len() - 1 {
                assert(pre[m] == g);
                assert(pre.contains(g));
                let k = choose|k: int| 0 <= k < head.len() && head[k] == sig("direct_test_change"@, g, Some(g), file_command(g, kind), "certain"@, g + " is itself a test file"@);
                assert((head + tail)[k] == sig("direct_test_change"@, g, Some(g), file_command(g, kind), "certain"@, g + " is itself a test file"@));
            } else {
                assert((head + tail)[head.len() as int] == sig("direct_test_change"@, g, Some(g), file_command(g, kind), "certain"@, g + " is itself a test file"@));
            }
        }
        assert forall|k: int| 0 <= k < direct_signals(files, kind).len() implies {
            let s = #[trigger] direct_signals(files, kind)[k];
            &&& files.contains(s.changed_file)
            &&& is_test_path(s.changed_file, kind)
            &&& s == sig("direct_test_change"@, s.changed_file, Some(s.changed_file), file_command(s.changed_file, kind), "certain"@, s.changed_file + " is itself a test file"@)
        } by {
            if k < head.len() {
                assert((head + tail)[k] == head[k]);
                let g = head[k].changed_file;
                let m = choose|m: int| 0 <= m < pre.len() && pre[m] == g;
                assert(files[m] == g);
            } else {
                assert((head + tail)[k] == sig("direct_test_change"@, f, Some(f), file_command(f, kind), "certain"@, f + " is itself a test file"@));
                assert(files[files.len() - 1] == f);
            }
        }
    }
}

/// The evidence signals, phase by phase: changed tests, conventions,
/// imports, history, the fragility matrix, and the dependency graph.
pub open spec fn evidence_signals(
    files: Seq<Seq<char>>,
    projects: Seq<DetectedProject>,
    repo: RepoFacts,
) -> Seq<SignalView> {
    let kind = primary_kind(projects);
    let tests = views(repo.test_files@);
    let conv = convention_matches(files, kind, views(repo.existing_files@));
    let s1 = direct_signals(files, kind);
    let s2 = s1 + convention_signals(conv, kind);
    let s3 = s2 + import_signals(
        files,
        kind,
        tests,
        import_views(repo.test_imports@),
        conv.map_values(|m: (Seq<char>, Seq<char>, Seq<char>)| m.1),
    );
    let sources = source_files_of(files, kind);
    let s4 = if sources.len() > 0 && tests.len() > 0 {
        history_fold(s3, history_items(sources, repo.commit_files@, tests), kind)
    } else {
        s3
    };
    let s5 = match repo.sentinel {
        Some(m) => sentinel_fold(s4, files, kind, m.files@, suite_command(projects)),
        None => s4,
    };
    match repo.atlas {
        Some(nodes) => atlas_fold((s5, 0), atlas_items(files, kind, nodes@), kind).0,
        None => s5,
    }
}

/// The signals that the analysis derives: the evidence, or, when there is
/// none, the project-level fallbacks.
pub open spec fn analysis_signals(
    files: Seq<Seq<char>>,
    projects: Seq<DetectedProject>,
    repo: RepoFacts,
) -> Seq<SignalView> {
    let evidence = evidence_signals(files, projects, repo);
    if evidence.len() == 0 {
        fallback_signals(projects, first_or_empty(files))
    } else {
        evidence
    }
}

/// Derive the evidence signals for the changed files. The primary project
/// (the first of `projects`) decides the conventions; `repo` holds what was
/// read from the repository.
pub fn run_analysis(
    repo: &RepoFacts,
    changed_files: &Vec<String>,
    projects: &Vec<DetectedProject>,
) -> (r: Result<AnalysisResult, SieveError>)
    requires
        counts_fit(repo.commit_files@, views(repo.test_files@)),
    ensures
        r matches Ok(res) && views(res.changed_files@) == views(changed_files@) && signal_views(
            res.signals@,
        ) == analysis_signals(views(changed_files@), projects@, *repo) && opt_view(
            res.full_validation_command,
        ) == suite_command(projects@),
{
    let ghost files = views(changed_files@);
    let kind_s = primary_project_kind(projects);
    let kind = kind_s.as_str();
    let mut signals: Vec<Signal> = Vec::new();
    assert(signal_views(signals@) =~= Seq::<SignalView>::empty());
    push_direct_signals(&mut signals, changed_files, kind);
    assert(signal_views(signals@) =~= direct_signals(files, kind@));
    let matches = find_convention_matches(changed_files, kind, &repo.existing_files);
    push_convention_signals(&mut signals, &matches, kind);
    proof {
        let mv = matches@.map_values(|t: (String, String, String)| triple_view(t));
        assert(matches@.map_values(|m: (String, String, String)| triple_view(m).1) =~= mv.map_values(
            |m: (Seq<char>, Seq<char>, Seq<char>)| m.1,
        ));
    }
    push_import_signals(&mut signals, changed_files, kind, &repo.test_files, &repo.test_imports, &matches);
    let sources = source_files(changed_files, kind);
    if history_needed(&sources, &repo.test_files) {
        push_history_signals(&mut signals, &sources, kind, &repo.test_files, &repo.commit_files);
    }
    let suite = primary_suite_command(projects);
    match &repo.sentinel {
        Some(matrix) => push_sentinel_signals(&mut signals, changed_files, kind, matrix, &suite),
        None => {},
    }
    match &repo.atlas {
        Some(nodes) => push_atlas_signals(&mut signals, changed_files, kind, nodes),
        None => {},
    }
    if signals.len() == 0 {
        assert(signal_views(signals@) =~= Seq::<SignalView>::empty());
        push_fallback_signals(&mut signals, projects, changed_files);
        assert(signal_views(signals@) =~= fallback_signals(projects@, first_or_empty(files)));
    }
    let mut copies: Vec<String> = Vec::new();
    let mut i: usize = 0;
    while i < changed_files.len()
        invariant
            i <= changed_files@.len(),
            views(copies@) == views(changed_files@).take(i as int),
        decreases changed_files@.len() - i,
    {
        let ghost prev = views(copies@);
        let c = owned(changed_files[i].as_str());
        copies.push(c);
        assert(views(copies@) =~= prev.push(c@));
        assert(views(changed_files@).take(i + 1) =~= views(changed_files@).take(i as int).push(
            changed_files@[i as int]@,
        ));
        i = i + 1;
    }
    assert(views(changed_files@).take(changed_files@.len() as int) =~= views(changed_files@));
    Ok(AnalysisResult { changed_files: copies, signals, full_validation_command: suite })
}

/// The kind and confidence pairings the signals carry: changed tests are
/// certain; conventions, imports and the dependency graph are high; history
/// is medium; the fragility matrix is certain or high; fallbacks are low.
pub open spec fn documented(s: SignalView) -> bool {
    ||| s.kind == "direct_test_change"@ && s.confidence == "certain"@
    ||| s.kind == "convention_match"@ && s.confidence == "high"@
    ||| s.kind == "import_match"@ && s.confidence == "high"@
    ||| s.kind == "history_correlation"@ && s.confidence == "medium"@
    ||| s.kind == "sentinel_risk"@ && (s.confidence == "certain"@ || s.confidence == "high"@)
    ||| s.kind == "atlas_rdep"@ && s.confidence == "high"@
    ||| s.kind == "fallback"@ && s.confidence == "low"@
}

/// Every signal of `s` has a documented pairing.
pub open spec fn all_documented(s: Seq<SignalView>) -> bool {
    forall|k: int| 0 <= k < s.len() ==> documented(#[trigger] s[k])
}

proof fn lemma_concat_documented(a: Seq<SignalView>, b: Seq<SignalView>)
    requires
        all_documented(a),
        all_documented(b),
    ensures
        all_documented(a + b),
{
    assert forall|k: int| 0 <= k < (a + b).len() implies documented(#[trigger] (a + b)[k]) by {
        if k < a.len() {
            assert((a + b)[k] == a[k]);
        } else {
            assert((a + b)[k] == b[k - a.len()]);
        }
    }
}

proof fn lemma_direct_documented(files: Seq<Seq<char>>, kind: Seq<char>)
    ensures
        all_documented(direct_signals(files, kind)),
    decreases files.len(),
{
    if files.len() > 0 {
        lemma_direct_documented(files.drop_last(), kind);
        let f = files.last();
        let tail = if is_test_path(f, kind) {
            seq![
                sig(
                    "direct_test_change"@,
                    f,
                    Some(f),
                    file_command(f, kind),
                    "certain"@,
                    f + " is itself a test file"@,
                ),
            ]
        } else {
            Seq::empty()
        };
        lemma_concat_documented(direct_signals(files.drop_last(), kind), tail);
    }
}

proof fn lemma_import_documented(
    files: Seq<Seq<char>>,
    kind: Seq<char>,
    tests: Seq<Seq<char>>,
    imports: Seq<Seq<Seq<char>>>,
    conv_tests: Seq<Seq<char>>,
)
    ensures
        all_documented(import_signals(files, kind, tests, imports, conv_tests)),
    decreases files.len(),
{
    if files.len() > 0 {
        lemma_import_documented(files.drop_last(), kind, tests, imports, conv_tests);
        let tail = import_signals_for(files.last(), kind, tests, imports, conv_tests);
        assert(all_documented(tail));
        lemma_concat_documented(import_signals(files.drop_last(), kind, tests, imports, conv_tests), tail);
    }
}

proof fn lemma_history_documented(acc: Seq<SignalView>, items: Seq<(Seq<char>, Seq<char>, nat)>, kind: Seq<char>)
    requires
        all_documented(acc),
    ensures
        all_documented(history_fold(acc, items, kind)),
    decreases items.len(),
{
    if items.len() > 0 {
        lemma_history_documented(acc, items.drop_last(), kind);
        let prev = history_fold(acc, items.drop_last(), kind);
        let r = history_step(prev, items.last(), kind);
        assert forall|k: int| 0 <= k < r.len() implies documented(#[trigger] r[k]) by {
            if k < prev.len() {
                assert(r[k] == prev[k]);
            }
        }
    }
}

proof fn lemma_related_documented(
    acc: Seq<SignalView>,
    f: Seq<char>,
    related: Seq<Seq<char>>,
    kind: Seq<char>,
    confidence: Seq<char>,
    reason: Seq<char>,
)
    requires
        all_documented(acc),
        confidence == "certain"@ || confidence == "high"@,
    ensures
        all_documented(related_fold(acc, f, related, kind, confidence, reason)),
    decreases related.len(),
{
    if related.len() > 0 {
        lemma_related_documented(acc, f, related.drop_last(), kind, confidence, reason);
        let prev = related_fold(acc, f, related.drop_last(), kind, confidence, reason);
        let r = related_fold(acc, f, related, kind, confidence, reason);
        assert forall|k: int| 0 <= k < r.len() implies documented(#[trigger] r[k]) by {
            if k < prev.len() {
                assert(r[k] == prev[k]);
            }
        }
    }
}

proof fn lemma_sentinel_documented(
    acc: Seq<SignalView>,
    files: Seq<Seq<char>>,
    kind: Seq<char>,
    risks: Seq<SentinelFileRisk>,
    suite: Option<Seq<char>>,
)
    requires
        all_documented(acc),
    ensures
        all_documented(sentinel_fold(acc, files, kind, risks, suite)),
    decreases files.len(),
{
    if files.len() > 0 {
        lemma_sentinel_documented(acc, files.drop_last(), kind, risks, suite);
        let prev = sentinel_fold(acc, files.drop_last(), kind, risks, suite);
        let f = files.last();
        if !is_test_path(f, kind) {
            match first_risk(risks, f) {
                Some(r) => {
                    if r.level@ == "high"@ || r.level@ == "medium"@ {
                        let conf = risk_confidence(r.level@);
                        lemma_related_documented(prev, f, related_paths(r), kind, conf, risk_reason(r));
                        let acc2 = related_fold(prev, f, related_paths(r), kind, conf, risk_reason(r));
                        let res = sentinel_step(prev, f, kind, risks, suite);
                        assert forall|k: int| 0 <= k < res.len() implies documented(#[trigger] res[k]) by {
                            if k < acc2.len() {
                                assert(res[k] == acc2[k]);
                            }
                        }
                    }
                },
                None => {},
            }
        }
    }
}

proof fn lemma_atlas_documented(
    state: (Seq<SignalView>, nat),
    items: Seq<(Seq<char>, Seq<char>)>,
    kind: Seq<char>,
)
    requires
        all_documented(state.0),
    ensures
        all_documented(atlas_fold(state, items, kind).0),
    decreases items.len(),
{
    if items.len() > 0 {
        lemma_atlas_documented(state, items.drop_last(), kind);
        let prev = atlas_fold(state, items.drop_last(), kind);
        let r = atlas_step(prev, items.last(), kind).0;
        assert forall|k: int| 0 <= k < r.len() implies documented(#[trigger] r[k]) by {
            if k < prev.0.len() {
                assert(r[k] == prev.0[k]);
            }
        }
    }
}

proof fn lemma_fallback_documented(projects: Seq<DetectedProject>, first: Seq<char>)
    ensures
        forall|k: int|
            0 <= k < fallback_signals(projects, first).len() ==> {
                let s = #[trigger] fallback_signals(projects, first)[k];
                &&& s.kind == "fallback"@
                &&& s.confidence == "low"@
                &&& s.test_file is None
                &&& s.changed_file == first
            },
    decreases projects.len(),
{
    if projects.len() > 0 {
        lemma_fallback_documented(projects.drop_last(), first);
        let prev = fallback_signals(projects.drop_last(), first);
        let r = fallback_signals(projects, first);
        assert forall|k: int| 0 <= k < r.len() implies {
            let s = #[trigger] r[k];
            &&& s.kind == "fallback"@
            &&& s.confidence == "low"@
            &&& s.test_file is None
            &&& s.changed_file == first
        } by {
            if k < prev.len() {
                assert(r[k] == prev[k]);
            }
        }
    }
}

/// Every signal pairs its kind with its documented confidence: changed
/// tests are certain; conventions, imports and the dependency graph high;
/// history medium; the fragility matrix certain (high risk) or high (medium
/// risk); fallbacks low.
pub proof fn law_signal_confidence(files: Seq<Seq<char>>, projects: Seq<DetectedProject>, repo: RepoFacts)
    ensures
        all_documented(analysis_signals(files, projects, repo)),
{
    let kind = primary_kind(projects);
    let tests = views(repo.test_files@);
    let conv = convention_matches(files, kind, views(repo.existing_files@));
    let s1 = direct_signals(files, kind);
    lemma_direct_documented(files, kind);
    let cs = convention_signals(conv, kind);
    assert(all_documented(cs));
    lemma_concat_documented(s1, cs);
    let s2 = s1 + cs;
    let ct = conv.map_values(|m: (Seq<char>, Seq<char>, Seq<char>)| m.1);
    lemma_import_documented(files, kind, tests, import_views(repo.test_imports@), ct);
    lemma_concat_documented(s2, import_signals(files, kind, tests, import_views(repo.test_imports@), ct));
    let s3 = s2 + import_signals(files, kind, tests, import_views(repo.test_imports@), ct);
    let sources = source_files_of(files, kind);
    lemma_history_documented(s3, history_items(sources, repo.commit_files@, tests), kind);
    let s4 = if sources.len() > 0 && tests.len() > 0 {
        history_fold(s3, history_items(sources, repo.commit_files@, tests), kind)
    } else {
        s3
    };
    match repo.sentinel {
        Some(m) => lemma_sentinel_documented(s4, files, kind, m.files@, suite_command(projects)),
        None => {},
    }
    let s5 = match repo.sentinel {
        Some(m) => sentinel_fold(s4, files, kind, m.files@, suite_command(projects)),
        None => s4,
    };
    match repo.atlas {
        Some(nodes) => lemma_atlas_documented((s5, 0), atlas_items(files, kind, nodes@), kind),
        None => {},
    }
    assert(all_documented(evidence_signals(files, projects, repo)));
    lemma_fallback_documented(projects, first_or_empty(files));
}

/// The project-level fallback comes only when nothing else was found: with
/// any evidence the signals are the evidence alone; without any they are one
/// low-confidence, test-less fallback for each project with a test command,
/// on the first changed file.
pub proof fn law_fallback_only_without_evidence(
    files: Seq<Seq<char>>,
    projects: Seq<DetectedProject>,
    repo: RepoFacts,
)
    ensures
        evidence_signals(files, projects, repo).len() > 0 ==> analysis_signals(files, projects, repo)
            == evidence_signals(files, projects, repo),
        evidence_signals(files, projects, repo).len() == 0 ==> forall|k: int|
            0 <= k < analysis_signals(files, projects, repo).len() ==> {
                let s = #[trigger] analysis_signals(files, projects, repo)[k];
                &&& s.kind == "fallback"@
                &&& s.confidence == "low"@
                &&& s.test_file is None
                &&& s.changed_file == first_or_empty(files)
            },
{
    lemma_fallback_documented(projects, first_or_empty(files));
}

/// Without evidence, every detected project with a suite command gives a
/// `fallback` signal with that command, low confidence, no test file, on the
/// first changed file (the empty path when there is none), with a reason
/// that names the command; and there are no others.
pub proof fn law_fallbacks(files: Seq<Seq<char>>, projects: Seq<DetectedProject>, repo: RepoFacts)
    ensures
        evidence_signals(files, projects, repo).len() == 0 ==> forall|k: int, cmd: Seq<char>|
            0 <= k < projects.len() && #[trigger] project_command(projects[k].kind@) == Some(cmd)
                ==> #[trigger] analysis_signals(files, projects, repo).contains(
                sig(
                    "fallback"@,
                    first_or_empty(files),
                    None,
                    Some(cmd),
                    "low"@,
                    "No specific test found; fallback to project-level: "@ + cmd,
                ),
            ),
        evidence_signals(files, projects, repo).len() == 0 ==> forall|j: int|
            #![trigger analysis_signals(files, projects, repo)[j]]
            0 <= j < analysis_signals(files, projects, repo).len() ==> exists|k: int|
                0 <= k < projects.len() && (project_command(#[trigger] projects[k].kind@) matches Some(cmd)
                    && analysis_signals(files, projects, repo)[j] == sig(
                    "fallback"@,
                    first_or_empty(files),
                    None,
                    Some(cmd),
                    "low"@,
                    "No specific test found; fallback to project-level: "@ + cmd,
                )),
        files.len() > 0 ==> first_or_empty(files) == files[0],
        files.len() == 0 ==> first_or_empty(files) == Seq::<char>::empty(),
{
    lemma_fallbacks(projects, first_or_empty(files));
}

proof fn lemma_fallbacks(projects: Seq<DetectedProject>, first: Seq<char>)
    ensures
        forall|k: int, cmd: Seq<char>|
            0 <= k < projects.len() && #[trigger] project_command(projects[k].kind@) == Some(cmd)
                ==> #[trigger] fallback_signals(projects, first).contains(
                sig(
                    "fallback"@,
                    first,
                    None,
                    Some(cmd),
                    "low"@,
                    "No specific test found; fallback to project-level: "@ + cmd,
                ),
            ),
        forall|j: int|
            #![trigger fallback_signals(projects, first)[j]]
            0 <= j < fallback_signals(projects, first).len() ==> exists|k: int|
                0 <= k < projects.len() && (project_command(#[trigger] projects[k].kind@) matches Some(cmd)
                    && fallback_signals(projects, first)[j] == sig(
                    "fallback"@,
                    first,
                    None,
                    Some(cmd),
                    "low"@,
                    "No specific test found; fallback to project-level: "@ + cmd,
                )),
    decreases projects.len(),
{
    if projects.len() > 0 {
        let pre = projects.drop_last();
        lemma_fallbacks(pre, first);
        let head = fallback_signals(pre, first);
        let last = projects.last();
        let tail = match project_command(last.kind@) {
            Some(cmd) => seq![
                sig(
                    "fallback"@,
                    first,
                    None,
                    Some(cmd),
                    "low"@,
                    "No specific test found; fallback to project-level: "@ + cmd,
                ),
            ],
            None => Seq::empty(),
        };
        let all = fallback_signals(projects, first);
        assert(all == head + tail);
        assert forall|k: int, cmd: Seq<char>|
            0 <= k < projects.len() && #[trigger] project_command(projects[k].kind@) == Some(cmd)
                implies #[trigger] all.contains(
            sig(
                "fallback"@,
                first,
                None,
                Some(cmd),
                "low"@,
                "No specific test found; fallback to project-level: "@ + cmd,
            ),
        ) by {
            let x = sig(
                "fallback"@,
                first,
                None,
                Some(cmd),
                "low"@,
                "No specific test found; fallback to project-level: "@ + cmd,
            );
            if k < pre.len() {
                assert(pre[k] == projects[k]);
                assert(project_command(pre[k].kind@) == Some(cmd));
                assert(head.contains(x));
                let j = choose|j: int| 0 <= j < head.len() && head[j] == x;
                assert(all[j] == x);
            } else {
                assert(projects[k] == last);
                assert(all[head.len() as int] == x);
            }
        }
        assert forall|j: int| #![trigger all[j]] 0 <= j < all.len() implies exists|k: int|
            0 <= k < projects.len() && (project_command(#[trigger] projects[k].kind@) matches Some(cmd)
                && all[j] == sig(
                "fallback"@,
                first,
                None,
                Some(cmd),
                "low"@,
                "No specific test found; fallback to project-level: "@ + cmd,
            )) by {
            if j < head.len() {
                assert(all[j] == head[j]);
                let k = choose|k: int|
                    0 <= k < pre.len() && (project_command(#[trigger] pre[k].kind@) matches Some(cmd)
                        && head[j] == sig(
                        "fallback"@,
                        first,
                        None,
                        Some(cmd),
                        "low"@,
                        "No specific test found; fallback to project-level: "@ + cmd,
                    ));
                assert(projects[k] == pre[k]);
            } else {
                let cmd = project_command(last.kind@)->0;
                assert(projects[projects.len() - 1] == last);
                assert(project_command(projects[projects.len() - 1].kind@) == Some(cmd));
            }
        }
    }
}

/// The fragility phase keeps what was there and adds after it.
proof fn lemma_sentinel_fold_keeps(
    acc: Seq<SignalView>,
    files: Seq<Seq<char>>,
    kind: Seq<char>,
    risks: Seq<SentinelFileRisk>,
    suite: Option<Seq<char>>,
)
    ensures
        sentinel_fold(acc, files, kind, risks, suite).len() >= acc.len(),
        forall|k: int| 0 <= k < acc.len() ==> #[trigger] sentinel_fold(acc, files, kind, risks, suite)[k] == acc[k],
    decreases files.len(),
{
    if files.len() > 0 {
        lemma_sentinel_fold_keeps(acc, files.drop_last(), kind, risks, suite);
        let prev = sentinel_fold(acc, files.drop_last(), kind, risks, suite);
        let f = files.last();
        if !is_test_path(f, kind) {
            match first_risk(risks, f) {
                Some(r) => {
                    if r.level@ == "high"@ || r.level@ == "medium"@ {
                        let conf = risk_confidence(r.level@);
                        law_related_tests_add_no_repeat(prev, f, related_paths(r), kind, conf, risk_reason(r));
                        let acc2 = related_fold(prev, f, related_paths(r), kind, conf, risk_reason(r));
                        assert(forall|k: int| 0 <= k < prev.len() ==> acc2.take(prev.len() as int)[k] == acc2[k]);
                    }
                },
                None => {},
            }
        }
    }
}

/// Changed test files lead the analysis: the direct-test signals come first,
/// in the order of the changed files, before any other signal; so a changed
/// file that is a test file by the primary project's conventions always
/// earns its `direct_test_change` signal, and no fallback is given then.
pub proof fn law_changed_tests_lead(files: Seq<Seq<char>>, projects: Seq<DetectedProject>, repo: RepoFacts)
    ensures
        direct_signals(files, primary_kind(projects)).len() > 0 ==> analysis_signals(files, projects, repo)
            == evidence_signals(files, projects, repo),
        analysis_signals(files, projects, repo).len() >= direct_signals(files, primary_kind(projects)).len(),
        forall|k: int|
            0 <= k < direct_signals(files, primary_kind(projects)).len() ==> #[trigger] analysis_signals(
                files,
                projects,
                repo,
            )[k] == direct_signals(files, primary_kind(projects))[k],
        forall|f: Seq<char>|
            #[trigger] files.contains(f) && is_test_path(f, primary_kind(projects)) ==> analysis_signals(
                files,
                projects,
                repo,
            ).contains(
                sig(
                    "direct_test_change"@,
                    f,
                    Some(f),
                    file_command(f, primary_kind(projects)),
                    "certain"@,
                    f + " is itself a test file"@,
                ),
            ),
{
    let kind = primary_kind(projects);
    let tests = views(repo.test_files@);
    let conv = convention_matches(files, kind, views(repo.existing_files@));
    let s1 = direct_signals(files, kind);
    let s2 = s1 + convention_signals(conv, kind);
    let s3 = s2 + import_signals(
        files,
        kind,
        tests,
        import_views(repo.test_imports@),
        conv.map_values(|m: (Seq<char>, Seq<char>, Seq<char>)| m.1),
    );
    assert(forall|k: int| 0 <= k < s1.len() ==> s3[k] == s1[k]);
    let sources = source_files_of(files, kind);
    let s4 = if sources.len() > 0 && tests.len() > 0 {
        history_fold(s3, history_items(sources, repo.commit_files@, tests), kind)
    } else {
        s3
    };
    if sources.len() > 0 && tests.len() > 0 {
        law_history_adds_no_repeat(s3, history_items(sources, repo.commit_files@, tests), kind);
        assert(forall|k: int| 0 <= k < s3.len() ==> s4.take(s3.len() as int)[k] == s4[k]);
    }
    let s5 = match repo.sentinel {
        Some(m) => sentinel_fold(s4, files, kind, m.files@, suite_command(projects)),
        None => s4,
    };
    match repo.sentinel {
        Some(m) => lemma_sentinel_fold_keeps(s4, files, kind, m.files@, suite_command(projects)),
        None => {},
    }
    let ev = evidence_signals(files, projects, repo);
    match repo.atlas {
        Some(nodes) => {
            lemma_atlas_covers((s5, 0), atlas_items(files, kind, nodes@), kind);
        },
        None => {},
    }
    assert(forall|k: int| 0 <= k < s1.len() ==> ev[k] == s1[k]);
    law_changed_tests_signalled(files, kind);
    if s1.len() > 0 {
        assert(analysis_signals(files, projects, repo) == ev);
    }
    assert forall|f: Seq<char>| #[trigger] files.contains(f) && is_test_path(f, kind) implies analysis_signals(
        files,
        projects,
        repo,
    ).contains(
        sig(
            "direct_test_change"@,
            f,
            Some(f),
            file_command(f, kind),
            "certain"@,
            f + " is itself a test file"@,
        ),
    ) by {
        let x = sig(
            "direct_test_change"@,
            f,
            Some(f),
            file_command(f, kind),
            "certain"@,
            f + " is itself a test file"@,
        );
        assert(s1.contains(x));
        let j = choose|j: int| 0 <= j < s1.len() && s1[j] == x;
        assert(ev[j] == x);
    }
}

/// The dependency graph adds at most `ATLAS_SIGNAL_CAP` signals; what it adds
/// comes after what was there.
pub proof fn law_atlas_cap(acc: Seq<SignalView>, items: Seq<(Seq<char>, Seq<char>)>, kind: Seq<char>)
    ensures
        atlas_fold((acc, 0), items, kind).0.len() <= acc.len() + ATLAS_SIGNAL_CAP,
        atlas_fold((acc, 0), items, kind).0.take(acc.len() as int) == acc,
{
    lemma_atlas_growth((acc, 0), items, kind);
}

proof fn lemma_atlas_growth(state: (Seq<SignalView>, nat), items: Seq<(Seq<char>, Seq<char>)>, kind: Seq<char>)
    requires
        state.1 <= ATLAS_SIGNAL_CAP,
    ensures
        atlas_fold(state, items, kind).1 <= ATLAS_SIGNAL_CAP,
        atlas_fold(state, items, kind).0.len() == state.0.len() + atlas_fold(state, items, kind).1 - state.1,
        atlas_fold(state, items, kind).1 >= state.1,
        atlas_fold(state, items, kind).0.take(state.0.len() as int) == state.0,
    decreases items.len(),
{
    if items.len() > 0 {
        lemma_atlas_growth(state, items.drop_last(), kind);
        let prev = atlas_fold(state, items.drop_last(), kind);
        let r = atlas_step(prev, items.last(), kind);
        if r.1 != prev.1 {
            assert(r.0.take(state.0.len() as int) =~= prev.0.take(state.0.len() as int));
        }
    } else {
        assert(state.0.take(state.0.len() as int) =~= state.0);
    }
}

/// The history phase never repeats a pair of changed file and test file
/// that an earlier signal already has, and adds only pairs that changed
/// together at least twice.
pub proof fn law_history_adds_no_repeat(
    acc: Seq<SignalView>,
    items: Seq<(Seq<char>, Seq<char>, nat)>,
    kind: Seq<char>,
)
    ensures
        history_fold(acc, items, kind).len() >= acc.len(),
        history_fold(acc, items, kind).take(acc.len() as int) == acc,
        forall|k: int|
            acc.len() <= k < history_fold(acc, items, kind).len() ==> {
                let s = #[trigger] history_fold(acc, items, kind)[k];
                &&& s.test_file is Some
                &&& !has_pair(history_fold(acc, items, kind).take(k), s.changed_file, s.test_file->0)
                &&& exists|m: int|
                    0 <= m < items.len() && (#[trigger] items[m]).0 == s.changed_file && Some(items[m].1)
                        == s.test_file && items[m].2 >= 2
            },
    decreases items.len(),
{
    if items.len() == 0 {
        assert(acc.take(acc.len() as int) =~= acc);
    } else {
        law_history_adds_no_repeat(acc, items.drop_last(), kind);
        let prev = history_fold(acc, items.drop_last(), kind);
        let r = history_fold(acc, items, kind);
        let it = items.last();
        if it.2 >= 2 && !has_pair(prev, it.0, it.1) {
            assert(r.take(acc.len() as int) =~= prev.take(acc.len() as int));
            assert(r.take(prev.len() as int) =~= prev);
            assert(items[items.len() - 1] == it);
        }
        assert forall|k: int| acc.len() <= k < r.len() implies {
            let s = #[trigger] r[k];
            &&& s.test_file is Some
            &&& !has_pair(r.take(k), s.changed_file, s.test_file->0)
            &&& exists|m: int|
                0 <= m < items.len() && (#[trigger] items[m]).0 == s.changed_file && Some(items[m].1)
                    == s.test_file && items[m].2 >= 2
        } by {
            if k < prev.len() {
                assert(r[k] == prev[k]);
                assert(r.take(k) =~= prev.take(k));
                let m = choose|m: int|
                    0 <= m < items.drop_last().len() && (#[trigger] items.drop_last()[m]).0 == prev[k].changed_file
                        && Some(items.drop_last()[m].1) == prev[k].test_file && items.drop_last()[m].2 >= 2;
                assert(items[m] == items.drop_last()[m]);
            } else {
                assert(r.take(k) =~= prev);
                assert(items[items.len() - 1] == it);
            }
        }
    }
}

/// Every pair that changed together at least twice is tied after the
/// history phase, by an earlier signal or by a new one; each new one is a
/// `history_correlation` signal on the pair, with the test's command, medium
/// confidence and the count in its reason.
pub proof fn law_history_covers_pairs(
    acc: Seq<SignalView>,
    items: Seq<(Seq<char>, Seq<char>, nat)>,
    kind: Seq<char>,
)
    ensures
        forall|m: int|
            0 <= m < items.len() && (#[trigger] items[m]).2 >= 2 ==> has_pair(
                history_fold(acc, items, kind),
                items[m].0,
                items[m].1,
            ),
        forall|k: int|
            acc.len() <= k < history_fold(acc, items, kind).len() ==> exists|m: int|
                0 <= m < items.len() && (#[trigger] items[m]).2 >= 2 && #[trigger] history_fold(
                    acc,
                    items,
                    kind,
                )[k] == sig(
                    "history_correlation"@,
                    items[m].0,
                    Some(items[m].1),
                    file_command(items[m].1, kind),
                    "medium"@,
                    "Co-changed in "@ + decimal(items[m].2) + " commits"@,
                ),
    decreases items.len(),
{
    law_history_adds_no_repeat(acc, items, kind);
    if items.len() > 0 {
        let pre = items.drop_last();
        law_history_covers_pairs(acc, pre, kind);
        law_history_adds_no_repeat(acc, pre, kind);
        let prev = history_fold(acc, pre, kind);
        let r = history_fold(acc, items, kind);
        let it = items.last();
        assert(forall|k: int| 0 <= k < prev.len() ==> r[k] == prev[k]);
        assert forall|m: int| 0 <= m < items.len() && (#[trigger] items[m]).2 >= 2 implies has_pair(
            r,
            items[m].0,
            items[m].1,
        ) by {
            if m < pre.len() {
                assert(pre[m] == items[m]);
                let k = choose|k: int|
                    0 <= k < prev.len() && (#[trigger] prev[k]).changed_file == items[m].0
                        && prev[k].test_file == Some(items[m].1);
                assert(r[k] == prev[k]);
            } else {
                assert(items[m] == it);
                if has_pair(prev, it.0, it.1) {
                    let k = choose|k: int|
                        0 <= k < prev.len() && (#[trigger] prev[k]).changed_file == it.0 && prev[k].test_file
                            == Some(it.1);
                    assert(r[k] == prev[k]);
                } else {
                    assert(r[prev.len() as int].changed_file == it.0);
                }
            }
        }
        assert forall|k: int| acc.len() <= k < r.len() implies exists|m: int|
            0 <= m < items.len() && (#[trigger] items[m]).2 >= 2 && #[trigger] r[k] == sig(
                "history_correlation"@,
                items[m].0,
                Some(items[m].1),
                file_command(items[m].1, kind),
                "medium"@,
                "Co-changed in "@ + decimal(items[m].2) + " commits"@,
            ) by {
            if k < prev.len() {
                assert(r[k] == prev[k]);
                let m = choose|m: int|
                    0 <= m < pre.len() && (#[trigger] pre[m]).2 >= 2 && #[trigger] prev[k] == sig(
                        "history_correlation"@,
                        pre[m].0,
                        Some(pre[m].1),
                        file_command(pre[m].1, kind),
                        "medium"@,
                        "Co-changed in "@ + decimal(pre[m].2) + " commits"@,
                    );
                assert(items[m] == pre[m]);
            } else {
                assert(items[items.len() - 1] == it);
            }
        }
    }
}

/// The dependency-graph phase never repeats a pair of changed file and test
/// file that an earlier signal already has, and adds only test files.
pub proof fn law_atlas_adds_no_repeat(
    acc: Seq<SignalView>,
    items: Seq<(Seq<char>, Seq<char>)>,
    kind: Seq<char>,
)
    ensures
        forall|k: int|
            acc.len() <= k < atlas_fold((acc, 0), items, kind).0.len() ==> {
                let s = #[trigger] atlas_fold((acc, 0), items, kind).0[k];
                &&& s.test_file is Some
                &&& is_test_path(s.test_file->0, kind)
                &&& !has_pair(atlas_fold((acc, 0), items, kind).0.take(k), s.changed_file, s.test_file->0)
            },
{
    lemma_atlas_no_repeat((acc, 0), items, kind);
}

proof fn lemma_atlas_covers(state: (Seq<SignalView>, nat), items: Seq<(Seq<char>, Seq<char>)>, kind: Seq<char>)
    ensures
        atlas_fold(state, items, kind).1 >= state.1,
        atlas_fold(state, items, kind).0.len() >= state.0.len(),
        atlas_fold(state, items, kind).1 - state.1 == atlas_fold(state, items, kind).0.len() - state.0.len(),
        forall|k: int| 0 <= k < state.0.len() ==> #[trigger] atlas_fold(state, items, kind).0[k] == state.0[k],
        atlas_fold(state, items, kind).1 < ATLAS_SIGNAL_CAP ==> forall|m: int|
            0 <= m < items.len() && is_test_path((#[trigger] items[m]).1, kind) ==> has_pair(
                atlas_fold(state, items, kind).0,
                items[m].0,
                items[m].1,
            ),
        forall|k: int|
            state.0.len() <= k < atlas_fold(state, items, kind).0.len() ==> exists|m: int|
                0 <= m < items.len() && #[trigger] atlas_fold(state, items, kind).0[k] == sig(
                    "atlas_rdep"@,
                    (#[trigger] items[m]).0,
                    Some(items[m].1),
                    file_command(items[m].1, kind),
                    "high"@,
                    "Atlas: test file depends on changed file"@,
                ),
    decreases items.len(),
{
    if items.len() > 0 {
        let pre = items.drop_last();
        lemma_atlas_covers(state, pre, kind);
        let prev = atlas_fold(state, pre, kind);
        let r = atlas_fold(state, items, kind);
        let it = items.last();
        assert(r == atlas_step(prev, it, kind));
        assert(forall|k: int| 0 <= k < prev.0.len() ==> r.0[k] == prev.0[k]);
        assert(items[items.len() - 1] == it);
        if r.1 < ATLAS_SIGNAL_CAP {
            assert forall|m: int| 0 <= m < items.len() && is_test_path((#[trigger] items[m]).1, kind) implies has_pair(
                r.0,
                items[m].0,
                items[m].1,
            ) by {
                if m < pre.len() {
                    assert(pre[m] == items[m]);
                    let k = choose|k: int|
                        0 <= k < prev.0.len() && (#[trigger] prev.0[k]).changed_file == pre[m].0
                            && prev.0[k].test_file == Some(pre[m].1);
                    assert(r.0[k] == prev.0[k]);
                } else if has_pair(prev.0, it.0, it.1) {
                    let k = choose|k: int|
                        0 <= k < prev.0.len() && (#[trigger] prev.0[k]).changed_file == it.0
                            && prev.0[k].test_file == Some(it.1);
                    assert(r.0[k] == prev.0[k]);
                } else {
                    assert(r.0[prev.0.len() as int].changed_file == it.0);
                }
            }
        }
        assert forall|k: int| state.0.len() <= k < r.0.len() implies exists|m: int|
            0 <= m < items.len() && #[trigger] r.0[k] == sig(
                "atlas_rdep"@,
                (#[trigger] items[m]).0,
                Some(items[m].1),
                file_command(items[m].1, kind),
                "high"@,
                "Atlas: test file depends on changed file"@,
            ) by {
            if k < prev.0.len() {
                let m = choose|m: int|
                    0 <= m < pre.len() && #[trigger] prev.0[k] == sig(
                        "atlas_rdep"@,
                        (#[trigger] pre[m]).0,
                        Some(pre[m].1),
                        file_command(pre[m].1, kind),
                        "high"@,
                        "Atlas: test file depends on changed file"@,
                    );
                assert(items[m] == pre[m]);
                assert(r.0[k] == prev.0[k]);
            }
        }
    }
}

/// The dependency graph ties, as long as fewer than `ATLAS_SIGNAL_CAP` (ten)
/// of its signals were added, every candidate pair whose dependent is a
/// test file; each signal it adds is an `atlas_rdep` one on such a pair,
/// with the test's command and high confidence.
pub proof fn law_atlas_signals(acc: Seq<SignalView>, items: Seq<(Seq<char>, Seq<char>)>, kind: Seq<char>)
    ensures
        ATLAS_SIGNAL_CAP == 10,
        atlas_fold((acc, 0), items, kind).0.len() < acc.len() + ATLAS_SIGNAL_CAP ==> forall|m: int|
            0 <= m < items.len() && is_test_path((#[trigger] items[m]).1, kind) ==> has_pair(
                atlas_fold((acc, 0), items, kind).0,
                items[m].0,
                items[m].1,
            ),
        forall|k: int|
            acc.len() <= k < atlas_fold((acc, 0), items, kind).0.len() ==> exists|m: int|
                0 <= m < items.len() && #[trigger] atlas_fold((acc, 0), items, kind).0[k] == sig(
                    "atlas_rdep"@,
                    (#[trigger] items[m]).0,
                    Some(items[m].1),
                    file_command(items[m].1, kind),
                    "high"@,
                    "Atlas: test file depends on changed file"@,
                ),
{
    lemma_atlas_covers((acc, 0), items, kind);
}

proof fn lemma_atlas_no_repeat(state: (Seq<SignalView>, nat), items: Seq<(Seq<char>, Seq<char>)>, kind: Seq<char>)
    ensures
        atlas_fold(state, items, kind).0.len() >= state.0.len(),
        atlas_fold(state, items, kind).0.take(state.0.len() as int) == state.0,
        forall|k: int|
            state.0.len() <= k < atlas_fold(state, items, kind).0.len() ==> {
                let s = #[trigger] atlas_fold(state, items, kind).0[k];
                &&& s.test_file is Some
                &&& is_test_path(s.test_file->0, kind)
                &&& !has_pair(atlas_fold(state, items, kind).0.take(k), s.changed_file, s.test_file->0)
            },
    decreases items.len(),
{
    if items.len() == 0 {
        assert(state.0.take(state.0.len() as int) =~= state.0);
    } else {
        lemma_atlas_no_repeat(state, items.drop_last(), kind);
        let prev = atlas_fold(state, items.drop_last(), kind).0;
        let r = atlas_fold(state, items, kind).0;
        if r.len() != prev.len() {
            assert(r.take(state.0.len() as int) =~= prev.take(state.0.len() as int));
        }
        assert forall|k: int| state.0.len() <= k < r.len() implies {
            let s = #[trigger] r[k];
            &&& s.test_file is Some
            &&& is_test_path(s.test_file->0, kind)
            &&& !has_pair(r.take(k), s.changed_file, s.test_file->0)
        } by {
            if k < prev.len() {
                assert(r[k] == prev[k]);
                assert(r.take(k) =~= prev.take(k));
            } else {
                assert(r.take(k) =~= prev);
            }
        }
    }
}

/// The fragility matrix's related tests never repeat a pair of changed file
/// and test file that an earlier signal already has; they are added for the
/// risky file, with the confidence its risk level earns.
pub proof fn law_related_tests_add_no_repeat(
    acc: Seq<SignalView>,
    f: Seq<char>,
    related: Seq<Seq<char>>,
    kind: Seq<char>,
    confidence: Seq<char>,
    reason: Seq<char>,
)
    ensures
        related_fold(acc, f, related, kind, confidence, reason).len() >= acc.len(),
        related_fold(acc, f, related, kind, confidence, reason).take(acc.len() as int) == acc,
        forall|k: int|
            acc.len() <= k < related_fold(acc, f, related, kind, confidence, reason).len() ==> {
                let s = #[trigger] related_fold(acc, f, related, kind, confidence, reason)[k];
                &&& s.changed_file == f
                &&& s.confidence == confidence
                &&& s.test_file is Some
                &&& related.contains(s.test_file->0)
                &&& !has_pair(
                    related_fold(acc, f, related, kind, confidence, reason).take(k),
                    f,
                    s.test_file->0,
                )
            },
    decreases related.len(),
{
    if related.len() == 0 {
        assert(acc.take(acc.len() as int) =~= acc);
    } else {
        law_related_tests_add_no_repeat(acc, f, related.drop_last(), kind, confidence, reason);
        let prev = related_fold(acc, f, related.drop_last(), kind, confidence, reason);
        let r = related_fold(acc, f, related, kind, confidence, reason);
        let t = related.last();
        if r.len() != prev.len() {
            assert(r.take(acc.len() as int) =~= prev.take(acc.len() as int));
        }
        assert(related.contains(t)) by {
            assert(related[related.len() - 1] == t);
        }
        assert forall|k: int| acc.len() <= k < r.len() implies {
            let s = #[trigger] r[k];
            &&& s.changed_file == f
            &&& s.confidence == confidence
            &&& s.test_file is Some
            &&& related.contains(s.test_file->0)
            &&& !has_pair(r.take(k), f, s.test_file->0)
        } by {
            if k < prev.len() {
                assert(r[k] == prev[k]);
                assert(r.take(k) =~= prev.take(k));
                let x = prev[k].test_file->0;
                assert(related.drop_last().contains(x));
                let m = choose|m: int| 0 <= m < related.drop_last().len() && related.drop_last()[m] == x;
                assert(related[m] == x);
            } else {
                assert(r.take(k) =~= prev);
            }
        }
    }
}

} // verus!
