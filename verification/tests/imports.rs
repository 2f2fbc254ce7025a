use sieve::imports::{
    extract_go_imports, extract_imports, extract_js_imports, extract_python_imports,
    extract_rust_imports, find_test_files_importing, present_texts,
};

#[test]
fn test_rust_imports() {
    let code = r#"
use crate::db;
use crate::claims::handle;
use std::path::Path;
mod events;
"#;
    let imports = extract_rust_imports(code);
    assert!(imports.contains(&"crate::db".to_string()));
    assert!(imports.contains(&"crate::claims::handle".to_string()));
    assert!(imports.contains(&"std::path::Path".to_string()));
    assert!(imports.contains(&"mod::events".to_string()));
}

#[test]
fn test_js_imports() {
    let code = r#"
import { useState } from 'react';
import App from './App';
const fs = require('fs');
"#;
    let imports = extract_js_imports(code);
    assert!(imports.contains(&"react".to_string()));
    assert!(imports.contains(&"./App".to_string()));
    assert!(imports.contains(&"fs".to_string()));
}

#[test]
fn test_python_imports() {
    let code = r#"
import os
from pathlib import Path
from mypackage.module import something
"#;
    let imports = extract_python_imports(code);
    assert!(imports.contains(&"os".to_string()));
    assert!(imports.contains(&"pathlib".to_string()));
    assert!(imports.contains(&"mypackage.module".to_string()));
}

#[test]
fn rust_imports_come_in_order_uses_then_modules() {
    let code = "use crate::db;\nmod events;\nuse super::x::y;\n";
    assert_eq!(
        extract_rust_imports(code),
        vec!["crate::db".to_string(), "super::x::y".to_string(), "mod::events".to_string()]
    );
}

#[test]
fn go_imports_single_and_block() {
    let code = "package x\nimport \"fmt\"\nimport (\n  \"os\"\n  \"net/http\"\n)\n";
    assert_eq!(
        extract_go_imports(code),
        vec!["fmt".to_string(), "os".to_string(), "net/http".to_string()]
    );
}

#[test]
fn imports_dispatch_on_extension() {
    let rust = "use crate::db;\n";
    assert_eq!(extract_imports("tests/a.rs", rust), vec!["crate::db".to_string()]);
    assert_eq!(extract_imports("a.mjs", "import x from 'y';"), vec!["y".to_string()]);
    assert_eq!(extract_imports("a.py", "import os\n"), vec!["os".to_string()]);
    assert!(extract_imports("a.txt", rust).is_empty());
    assert!(extract_imports("Makefile", rust).is_empty());
}

#[test]
fn present_texts_drops_absent_groups() {
    let caps = vec![Some("a".to_string()), None, Some("b".to_string())];
    assert_eq!(present_texts(&caps), vec!["a".to_string(), "b".to_string()]);
}

#[test]
fn importing_tests_are_found_by_substring() {
    let tests = vec!["tests/a.rs".to_string(), "tests/b.rs".to_string(), "tests/c.rs".to_string()];
    let imports = vec![
        vec!["crate::claims::handle".to_string()],
        vec!["crate::db".to_string()],
        vec!["mod::claims".to_string()],
    ];
    assert_eq!(
        find_test_files_importing("claims", &tests, &imports),
        vec!["tests/a.rs".to_string(), "tests/c.rs".to_string()]
    );
    // Missing import lists count as importing nothing.
    assert_eq!(find_test_files_importing("claims", &tests, &imports[..1].to_vec()), vec!["tests/a.rs".to_string()]);
}
