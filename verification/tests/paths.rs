use std::path::Path;

use sieve::paths::{extension, file_name, file_stem, parent};

const SAMPLES: &[&str] = &[
    "", ".", "..", "/", "//", "./", "../", "a", "a.rs", "src/claims.rs", "src/foo/", "src/foo//",
    "./foo.go", "foo.go", "a/./b.go", "a//b.go", "/b", "//a", "a/..", "a/.", ".gitignore",
    ".x.y", "x.", "a.b.c", "dir.d/file", "tests/cli_claims.rs", "src/.hidden", "a/b/../c.txt",
    "./", "./a/", "..a", "a..", "...", "src/utils.test.ts", "pkg/mod/foo_test.go",
];


#[test]
fn file_name_matches_std() {
    for s in SAMPLES {
        assert_eq!(file_name(s), Path::new(s).file_name().map(|x| x.to_str().unwrap().to_string()), "file_name({s:?})");
    }
}

#[test]
fn file_stem_matches_std() {
    for s in SAMPLES {
        assert_eq!(file_stem(s), Path::new(s).file_stem().map(|x| x.to_str().unwrap().to_string()), "file_stem({s:?})");
    }
}

#[test]
fn extension_matches_std() {
    for s in SAMPLES {
        assert_eq!(extension(s), Path::new(s).extension().map(|x| x.to_str().unwrap().to_string()), "extension({s:?})");
    }
}

#[test]
fn parent_matches_std() {
    for s in SAMPLES {
        let expected = Path::new(s).parent().map(|p| p.to_str().unwrap().to_string());
        assert_eq!(parent(s), expected, "parent({s:?})");
    }
}
