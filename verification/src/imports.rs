//! What a source file imports, read from its text with regular expressions,
//! and which test files import a given module.
use vstd::prelude::*;
use crate::text::{has_infix, same_text, contains, concat, owned, views};
use crate::paths::{extension_of, extension};

verus! {

/// Whether `regex::Regex::new` accepts `pattern`.
pub uninterp spec fn regex_accepts(pattern: Seq<char>) -> bool;

/// For each match that `Regex::captures_iter` yields over `haystack`, in
/// order, the text of capture group `group`, or `None` where the group took no
/// part in the match.
pub uninterp spec fn regex_group_matches(
    pattern: Seq<char>,
    haystack: Seq<char>,
    group: nat,
) -> Seq<Option<Seq<char>>>;

/// Optional strings by their views.
pub open spec fn opt_views(v: Seq<Option<String>>) -> Seq<Option<Seq<char>>> {
    v.map_values(
        |o: Option<String>|
            match o {
                Some(s) => Some(s@),
                None => None,
            },
    )
}

/// Trusted: compiles `pattern` with `regex::Regex::new` and, when it
/// compiles, collects for every match of `Regex::captures_iter` over
/// `haystack` the text of group `group` (`Captures::get`, `Match::as_str`).
/// The contract claims that the result is `Some` exactly when the pattern
/// compiles, that the list is `regex_group_matches` of the arguments, and that
/// each captured text is a piece of the haystack (a `Match` is a slice of the
/// haystack between its start and end).
#[verifier::external_body]
fn group_captures(pattern: &str, haystack: &str, group: usize) -> (r: Option<Vec<Option<String>>>)
    ensures
        r is Some <==> regex_accepts(pattern@),
        r matches Some(v) ==> opt_views(v@) == regex_group_matches(pattern@, haystack@, group as nat),
        r matches Some(v) ==> forall|k: int|
            0 <= k < v@.len() && v@[k] is Some ==> has_infix(haystack@, v@[k]->0@),
{
    match regex::Regex::new(pattern) {
        Ok(re) => Some(
            re.captures_iter(haystack).map(|c| c.get(group).map(|m| m.as_str().to_string())).collect(),
        ),
        Err(_) => None,
    }
}

/// The texts that are present, in order.
pub open spec fn present(v: Seq<Option<Seq<char>>>) -> Seq<Seq<char>>
    decreases v.len(),
{
    if v.len() == 0 {
        Seq::empty()
    } else {
        present(v.drop_last()) + match v.last() {
            Some(s) => seq![s],
            None => Seq::empty(),
        }
    }
}

/// The texts of group `group` of all matches of `pattern` in `haystack`; none
/// when the pattern does not compile.
pub open spec fn captured(pattern: Seq<char>, haystack: Seq<char>, group: nat) -> Seq<Seq<char>> {
    if regex_accepts(pattern) {
        present(regex_group_matches(pattern, haystack, group))
    } else {
        Seq::empty()
    }
}

/// The captured texts that are present, in order.
pub fn present_texts(caps: &Vec<Option<String>>) -> (r: Vec<String>)
    ensures
        views(r@) == present(opt_views(caps@)),
{
    let mut out: Vec<String> = Vec::new();
    let mut i: usize = 0;
    assert(opt_views(caps@).take(0) =~= Seq::<Option<Seq<char>>>::empty());
    while i < caps.len()
        invariant
            i <= caps@.len(),
            views(out@) == present(opt_views(caps@).take(i as int)),
        decreases caps@.len() - i,
    {
        let ghost ov = opt_views(caps@);
        assert(ov.take(i + 1).drop_last() =~= ov.take(i as int));
        let ghost prev = views(out@);
        match &caps[i] {
            Some(s) => {
                out.push(owned(s.as_str()));
                assert(views(out@) =~= prev + seq![s@]);
            },
            None => {
                assert(views(out@) =~= prev + Seq::<Seq<char>>::empty());
            },
        }
        i = i + 1;
    }
    assert(opt_views(caps@).take(caps@.len() as int) =~= opt_views(caps@));
    out
}

/// The group texts of all matches of `pattern` in `haystack`.
fn captures_of(pattern: &str, haystack: &str, group: usize) -> (r: Vec<String>)
    ensures
        views(r@) == captured(pattern@, haystack@, group as nat),
{
    match group_captures(pattern, haystack, group) {
        Some(caps) => present_texts(&caps),
        None => Vec::new(),
    }
}

/// `a` followed by `b`, as a new vector.
fn joined(a: Vec<String>, b: Vec<String>) -> (r: Vec<String>)
    ensures
        views(r@) == views(a@) + views(b@),
{
    let mut a = a;
    let mut b = b;
    let ghost va = views(a@);
    let ghost vb = views(b@);
    a.append(&mut b);
    assert(views(a@) =~= va + vb);
    a
}

/// A Rust `use` path.
pub const RUST_USE_PATTERN: &'static str =
    r"(?m)^\s*use\s+((?:crate|super|self|[a-zA-Z_][a-zA-Z0-9_]*)(?:::[a-zA-Z_][a-zA-Z0-9_]*)*)";

/// A Rust `mod` declaration.
pub const RUST_MOD_PATTERN: &'static str = r"(?m)^\s*mod\s+([a-zA-Z_][a-zA-Z0-9_]*)";

/// A JavaScript `import ... from '...'`.
pub const JS_IMPORT_PATTERN: &'static str = r#"(?m)import\s+.*?\s+from\s+['"]([^'"]+)['"]"#;

/// A JavaScript `require('...')`.
pub const JS_REQUIRE_PATTERN: &'static str = r#"require\s*\(\s*['"]([^'"]+)['"]\s*\)"#;

/// A Python `from X import ...`.
pub const PY_FROM_PATTERN: &'static str = r"(?m)^\s*from\s+([a-zA-Z_][a-zA-Z0-9_.]*)\s+import";

/// A Python `import X`.
pub const PY_IMPORT_PATTERN: &'static str = r"(?m)^\s*import\s+([a-zA-Z_][a-zA-Z0-9_.]*)";

/// A Go single-line `import "..."`.
pub const GO_SINGLE_PATTERN: &'static str = r#"(?m)^\s*import\s+"([^"]+)""#;

/// A Go `import ( ... )` block.
pub const GO_BLOCK_PATTERN: &'static str = r#"(?ms)import\s*\((.*?)\)"#;

/// A quoted path inside a Go import block.
pub const GO_LINE_PATTERN: &'static str = r#""([^"]+)""#;

/// Each `m` as `mod::m`.
pub open spec fn as_mod_paths(mods: Seq<Seq<char>>) -> Seq<Seq<char>> {
    mods.map_values(|m: Seq<char>| "mod::"@ + m)
}

/// The imports of Rust source text: the `use` paths, then each declared
/// module as `mod::name`.
pub open spec fn rust_imports(content: Seq<char>) -> Seq<Seq<char>> {
    captured(RUST_USE_PATTERN@, content, 1) + as_mod_paths(captured(RUST_MOD_PATTERN@, content, 1))
}

/// The imports of JavaScript or TypeScript text: `import ... from` sources,
/// then `require` arguments.
pub open spec fn js_imports(content: Seq<char>) -> Seq<Seq<char>> {
    captured(JS_IMPORT_PATTERN@, content, 1) + captured(JS_REQUIRE_PATTERN@, content, 1)
}

/// The imports of Python text: `from X import` modules, then `import X` modules.
pub open spec fn python_imports(content: Seq<char>) -> Seq<Seq<char>> {
    captured(PY_FROM_PATTERN@, content, 1) + captured(PY_IMPORT_PATTERN@, content, 1)
}

/// The quoted paths of each Go import block, block by block.
pub open spec fn go_block_paths(blocks: Seq<Seq<char>>) -> Seq<Seq<char>>
    decreases blocks.len(),
{
    if blocks.len() == 0 {
        Seq::empty()
    } else {
        go_block_paths(blocks.drop_last()) + captured(GO_LINE_PATTERN@, blocks.last(), 1)
    }
}

/// The imports of Go text: single-line imports, then the paths of import blocks.
pub open spec fn go_imports(content: Seq<char>) -> Seq<Seq<char>> {
    captured(GO_SINGLE_PATTERN@, content, 1) + go_block_paths(
        captured(GO_BLOCK_PATTERN@, content, 1),
    )
}

/// Each module name prefixed with `mod::`.
pub fn mod_paths(mods: &Vec<String>) -> (r: Vec<String>)
    ensures
        views(r@) == as_mod_paths(views(mods@)),
{
    let mut out: Vec<String> = Vec::new();
    let mut i: usize = 0;
    while i < mods.len()
        invariant
            i <= mods@.len(),
            views(out@) == as_mod_paths(views(mods@).take(i as int)),
        decreases mods@.len() - i,
    {
        let ghost prev = views(out@);
        out.push(concat("mod::", mods[i].as_str()));
        assert(views(mods@).take(i + 1) =~= views(mods@).take(i as int).push(mods@[i as int]@));
        assert(as_mod_paths(views(mods@).take(i + 1)) =~= as_mod_paths(views(mods@).take(i as int)).push(
            "mod::"@ + mods@[i as int]@,
        ));
        assert(views(out@) =~= prev.push("mod::"@ + mods@[i as int]@));
        i = i + 1;
    }
    assert(views(mods@).take(mods@.len() as int) =~= views(mods@));
    out
}

/// The modules that Rust source text uses or declares.
pub fn extract_rust_imports(content: &str) -> (r: Vec<String>)
    ensures
        views(r@) == rust_imports(content@),
{
    let uses = captures_of(RUST_USE_PATTERN, content, 1);
    let mods = captures_of(RUST_MOD_PATTERN, content, 1);
    let prefixed = mod_paths(&mods);
    joined(uses, prefixed)
}

/// The modules that JavaScript or TypeScript text imports or requires.
pub fn extract_js_imports(content: &str) -> (r: Vec<String>)
    ensures
        views(r@) == js_imports(content@),
{
    let from = captures_of(JS_IMPORT_PATTERN, content, 1);
    let required = captures_of(JS_REQUIRE_PATTERN, content, 1);
    joined(from, required)
}

/// The modules that Python text imports.
pub fn extract_python_imports(content: &str) -> (r: Vec<String>)
    ensures
        views(r@) == python_imports(content@),
{
    let from = captures_of(PY_FROM_PATTERN, content, 1);
    let imported = captures_of(PY_IMPORT_PATTERN, content, 1);
    joined(from, imported)
}

/// The packages that Go text imports.
pub fn extract_go_imports(content: &str) -> (r: Vec<String>)
    ensures
        views(r@) == go_imports(content@),
{
    let single = captures_of(GO_SINGLE_PATTERN, content, 1);
    let blocks = captures_of(GO_BLOCK_PATTERN, content, 1);
    let mut paths: Vec<String> = Vec::new();
    let mut i: usize = 0;
    while i < blocks.len()
        invariant
            i <= blocks@.len(),
            views(paths@) == go_block_paths(views(blocks@).take(i as int)),
        decreases blocks@.len() - i,
    {
        let lines = captures_of(GO_LINE_PATTERN, blocks[i].as_str(), 1);
        assert(views(blocks@).take(i + 1).drop_last() =~= views(blocks@).take(i as int));
        paths = joined(paths, lines);
        i = i + 1;
    }
    assert(views(blocks@).take(blocks@.len() as int) =~= views(blocks@));
    joined(single, paths)
}

/// The imports of a file's text, read by the language its extension names.
pub open spec fn imports_of(file_path: Seq<char>, content: Seq<char>) -> Seq<Seq<char>> {
    let ext = extension_of(file_path);
    if ext == Some("rs"@) {
        rust_imports(content)
    } else if ext == Some("js"@) || ext == Some("ts"@) || ext == Some("jsx"@) || ext == Some("tsx"@)
        || ext == Some("mjs"@) {
        js_imports(content)
    } else if ext == Some("py"@) {
        python_imports(content)
    } else if ext == Some("go"@) {
        go_imports(content)
    } else {
        Seq::empty()
    }
}

/// A file is read by the language that its extension names: `rs` as Rust;
/// `js`, `ts`, `jsx`, `tsx` and `mjs` as JavaScript or TypeScript; `py` as
/// Python; `go` as Go. A file with any other extension, or none, imports
/// nothing.
pub proof fn law_imports_by_extension(file_path: Seq<char>, content: Seq<char>)
    ensures
        extension_of(file_path) == Some("rs"@) ==> imports_of(file_path, content) == rust_imports(content),
        extension_of(file_path) == Some("js"@) ==> imports_of(file_path, content) == js_imports(content),
        extension_of(file_path) == Some("ts"@) ==> imports_of(file_path, content) == js_imports(content),
        extension_of(file_path) == Some("jsx"@) ==> imports_of(file_path, content) == js_imports(content),
        extension_of(file_path) == Some("tsx"@) ==> imports_of(file_path, content) == js_imports(content),
        extension_of(file_path) == Some("mjs"@) ==> imports_of(file_path, content) == js_imports(content),
        extension_of(file_path) == Some("py"@) ==> imports_of(file_path, content) == python_imports(
            content,
        ),
        extension_of(file_path) == Some("go"@) ==> imports_of(file_path, content) == go_imports(content),
        extension_of(file_path) != Some("rs"@) && extension_of(file_path) != Some("js"@)
            && extension_of(file_path) != Some("ts"@) && extension_of(file_path) != Some("jsx"@)
            && extension_of(file_path) != Some("tsx"@) && extension_of(file_path) != Some("mjs"@)
            && extension_of(file_path) != Some("py"@) && extension_of(file_path) != Some("go"@)
            ==> imports_of(file_path, content) == Seq::<Seq<char>>::empty(),
{
    reveal_strlit("rs");
    reveal_strlit("js");
    reveal_strlit("ts");
    reveal_strlit("jsx");
    reveal_strlit("tsx");
    reveal_strlit("mjs");
    reveal_strlit("py");
    reveal_strlit("go");
    assert("rs"@.len() == 2 && "rs"@[0] == 'r');
    assert("js"@.len() == 2 && "js"@[0] == 'j');
    assert("ts"@.len() == 2 && "ts"@[0] == 't');
    assert("py"@.len() == 2 && "py"@[0] == 'p');
    assert("go"@.len() == 2 && "go"@[0] == 'g');
    assert("jsx"@.len() == 3 && "jsx"@[0] == 'j');
    assert("tsx"@.len() == 3 && "tsx"@[0] == 't');
    assert("mjs"@.len() == 3 && "mjs"@[0] == 'm');
}

/// The module names that the file `file_path`, whose text is `content`,
/// imports or uses.
pub fn extract_imports(file_path: &str, content: &str) -> (r: Vec<String>)
    ensures
        views(r@) == imports_of(file_path@, content@),
{
    let ext = match extension(file_path) {
        Some(e) => e,
        None => String::new(),
    };
    let e = ext.as_str();
    let has_ext = extension(file_path).is_some();
    if has_ext && same_text(e, "rs") {
        extract_rust_imports(content)
    } else if has_ext && (same_text(e, "js") || same_text(e, "ts") || same_text(e, "jsx")
        || same_text(e, "tsx") || same_text(e, "mjs")) {
        extract_js_imports(content)
    } else if has_ext && same_text(e, "py") {
        extract_python_imports(content)
    } else if has_ext && same_text(e, "go") {
        extract_go_imports(content)
    } else {
        Vec::new()
    }
}

/// Whether some import names `module` (holds it as a piece).
pub open spec fn names_module(imports: Seq<Seq<char>>, module: Seq<char>) -> bool {
    exists|k: int| 0 <= k < imports.len() && has_infix(#[trigger] imports[k], module)
}

/// The test files, in order, whose imports name `module`; `imports[i]` holds
/// the imports of `tests[i]`.
pub open spec fn importing(
    module: Seq<char>,
    tests: Seq<Seq<char>>,
    imports: Seq<Seq<Seq<char>>>,
) -> Seq<Seq<char>>
    decreases tests.len(),
{
    if tests.len() == 0 {
        Seq::empty()
    } else {
        let i = tests.len() - 1;
        importing(module, tests.drop_last(), imports) + if i < imports.len() && names_module(
            imports[i],
            module,
        ) {
            seq![tests[i]]
        } else {
            Seq::empty()
        }
    }
}

/// A test file imports a module when one of its imports holds the module's
/// name as a piece: every such test file is found, and only such test files
/// are; `imports[i]` holds the imports of `tests[i]`.
pub proof fn law_tests_importing_module(
    module: Seq<char>,
    tests: Seq<Seq<char>>,
    imports: Seq<Seq<Seq<char>>>,
)
    ensures
        forall|i: int, k: int|
            #![trigger tests[i], imports[i][k]]
            0 <= i < tests.len() && i < imports.len() && 0 <= k < imports[i].len() && has_infix(
                imports[i][k],
                module,
            ) ==> importing(module, tests, imports).contains(tests[i]),
        forall|x: Seq<char>|
            #[trigger] importing(module, tests, imports).contains(x) ==> exists|i: int, k: int|
                #![trigger tests[i], imports[i][k]]
                0 <= i < tests.len() && i < imports.len() && 0 <= k < imports[i].len() && has_infix(
                    imports[i][k],
                    module,
                ) && tests[i] == x,
    decreases tests.len(),
{
    if tests.len() > 0 {
        let n = tests.len() - 1;
        let pre = tests.drop_last();
        law_tests_importing_module(module, pre, imports);
        let head = importing(module, pre, imports);
        let tail = if n < imports.len() && names_module(imports[n], module) {
            seq![tests[n]]
        } else {
            Seq::<Seq<char>>::empty()
        };
        assert(importing(module, tests, imports) == head + tail);
        assert forall|i: int, k: int|
            #![trigger tests[i], imports[i][k]]
            0 <= i < tests.len() && i < imports.len() && 0 <= k < imports[i].len() && has_infix(
                imports[i][k],
                module,
            ) implies importing(module, tests, imports).contains(tests[i]) by {
            if i < n {
                assert(pre[i] == tests[i]);
                let j = choose|j: int| 0 <= j < head.len() && head[j] == pre[i];
                assert((head + tail)[j] == tests[i]);
            } else {
                assert(names_module(imports[n], module));
                assert((head + tail)[head.len() as int] == tests[i]);
            }
        }
        assert forall|x: Seq<char>| #[trigger] importing(module, tests, imports).contains(x) implies exists|
            i: int,
            k: int,
        |
            #![trigger tests[i], imports[i][k]]
            0 <= i < tests.len() && i < imports.len() && 0 <= k < imports[i].len() && has_infix(
                imports[i][k],
                module,
            ) && tests[i] == x by {
            let j = choose|j: int| 0 <= j < (head + tail).len() && (head + tail)[j] == x;
            if j < head.len() {
                assert(head[j] == x);
                assert(head.contains(x));
                let (i, k) = choose|i: int, k: int|
                    #![trigger pre[i], imports[i][k]]
                    0 <= i < pre.len() && i < imports.len() && 0 <= k < imports[i].len() && has_infix(
                        imports[i][k],
                        module,
                    ) && pre[i] == x;
                assert(tests[i] == pre[i]);
            } else {
                let k = choose|k: int| 0 <= k < imports[n].len() && has_infix(#[trigger] imports[n][k], module);
                assert(tests[n] == x);
            }
        }
    }
}

/// The import lists by their views.
pub open spec fn import_views(imports: Seq<Vec<String>>) -> Seq<Seq<Seq<char>>> {
    imports.map_values(|v: Vec<String>| views(v@))
}

/// Find the test files that import or use `module_name`; `test_imports[i]`
/// holds what `test_files[i]` imports.
pub fn find_test_files_importing(
    module_name: &str,
    test_files: &Vec<String>,
    test_imports: &Vec<Vec<String>>,
) -> (r: Vec<String>)
    ensures
        views(r@) == importing(module_name@, views(test_files@), import_views(test_imports@)),
{
    let mut out: Vec<String> = Vec::new();
    let mut i: usize = 0;
    let ghost iv = import_views(test_imports@);
    while i < test_files.len()
        invariant
            i <= test_files@.len(),
            iv == import_views(test_imports@),
            views(out@) == importing(module_name@, views(test_files@).take(i as int), iv),
        decreases test_files@.len() - i,
    {
        let ghost tv = views(test_files@);
        assert(tv.take(i + 1).drop_last() =~= tv.take(i as int));
        let mut found = false;
        if i < test_imports.len() {
            let imps = &test_imports[i];
            assert(iv[i as int] == views(imps@));
            let mut k: usize = 0;
            while k < imps.len()
                invariant_except_break
                    !found,
                    forall|j: int| 0 <= j < k ==> !has_infix(imps@[j]@, module_name@),
                invariant
                    k <= imps@.len(),
                    iv[i as int] == views(imps@),
                ensures
                    found == names_module(views(imps@), module_name@),
                decreases imps@.len() - k,
            {
                if contains(imps[k].as_str(), module_name) {
                    found = true;
                    assert(has_infix(views(imps@)[k as int], module_name@));
                    break;
                }
                k = k + 1;
            }
            proof {
                if !found {
                    assert(!names_module(iv[i as int], module_name@));
                }
            }
        }
        let ghost prev = views(out@);
        if found {
            out.push(owned(test_files[i].as_str()));
        }
        assert(views(out@) =~= importing(module_name@, tv.take(i + 1), iv));
        i = i + 1;
    }
    assert(views(test_files@).take(test_files@.len() as int) =~= views(test_files@));
    out
}

} // verus!
