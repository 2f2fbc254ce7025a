//! Which kinds of project a repository holds, and their project-level test
//! commands.
use vstd::prelude::*;
use crate::text::{same_text, owned};

verus! {

/// A project found at the repository root.
#[derive(Debug, Clone)]
pub struct DetectedProject {
    pub kind: String,
    pub root: String,
}

/// Which marker files exist at the repository root.
#[derive(Debug, Clone, Copy)]
pub struct ProjectMarkers {
    pub cargo_toml: bool,
    pub package_json: bool,
    pub pyproject_toml: bool,
    pub setup_py: bool,
    pub requirements_txt: bool,
    pub go_mod: bool,
    pub src_tauri: bool,
}

/// A project as `(kind, root)`.
pub open spec fn project_view(p: DetectedProject) -> (Seq<char>, Seq<char>) {
    (p.kind@, p.root@)
}

/// The projects that the markers reveal, in the order they are checked:
/// Rust, Node, Python, Go, Tauri.
pub open spec fn detected(m: ProjectMarkers) -> Seq<(Seq<char>, Seq<char>)> {
    let s0 = Seq::<(Seq<char>, Seq<char>)>::empty();
    let s1 = if m.cargo_toml { s0.push(("rust"@, "."@)) } else { s0 };
    let s2 = if m.package_json { s1.push(("node"@, "."@)) } else { s1 };
    let s3 = if m.pyproject_toml || m.setup_py || m.requirements_txt {
        s2.push(("python"@, "."@))
    } else {
        s2
    };
    let s4 = if m.go_mod { s3.push(("go"@, "."@)) } else { s3 };
    if m.src_tauri { s4.push(("tauri"@, "src-tauri"@)) } else { s4 }
}

/// Detect the projects of a repository from its marker files.
pub fn detect_projects(markers: &ProjectMarkers) -> (r: Vec<DetectedProject>)
    ensures
        r@.map_values(|p: DetectedProject| project_view(p)) == detected(*markers),
{
    let mut projects: Vec<DetectedProject> = Vec::new();
    let ghost v = |p: DetectedProject| project_view(p);
    if markers.cargo_toml {
        projects.push(DetectedProject { kind: owned("rust"), root: owned(".") });
    }
    if markers.package_json {
        projects.push(DetectedProject { kind: owned("node"), root: owned(".") });
    }
    if markers.pyproject_toml || markers.setup_py || markers.requirements_txt {
        projects.push(DetectedProject { kind: owned("python"), root: owned(".") });
    }
    if markers.go_mod {
        projects.push(DetectedProject { kind: owned("go"), root: owned(".") });
    }
    if markers.src_tauri {
        projects.push(DetectedProject { kind: owned("tauri"), root: owned("src-tauri") });
    }
    assert(projects@.map_values(v) =~= detected(*markers));
    projects
}

/// The project-level test command for a project kind.
pub open spec fn project_command(kind: Seq<char>) -> Option<Seq<char>> {
    if kind == "rust"@ || kind == "tauri"@ {
        Some("cargo test"@)
    } else if kind == "node"@ {
        Some("npm test"@)
    } else if kind == "python"@ {
        Some("python -m pytest"@)
    } else if kind == "go"@ {
        Some("go test ./..."@)
    } else {
        None
    }
}

/// Map an optional string to its view.
pub open spec fn opt_view(o: Option<String>) -> Option<Seq<char>> {
    match o {
        Some(s) => Some(s@),
        None => None,
    }
}

/// The command that runs a project's whole test suite.
pub fn test_command_for(project: &DetectedProject) -> (r: Option<String>)
    ensures
        opt_view(r) == project_command(project.kind@),
{
    let k = project.kind.as_str();
    if same_text(k, "rust") || same_text(k, "tauri") {
        Some(owned("cargo test"))
    } else if same_text(k, "node") {
        Some(owned("npm test"))
    } else if same_text(k, "python") {
        Some(owned("python -m pytest"))
    } else if same_text(k, "go") {
        Some(owned("go test ./..."))
    } else {
        None
    }
}

/// The number of project kinds that the markers reveal.
pub open spec fn kinds_revealed(m: ProjectMarkers) -> nat {
    (if m.cargo_toml { 1nat } else { 0nat }) + (if m.package_json { 1nat } else { 0nat }) + (if m.pyproject_toml
        || m.setup_py || m.requirements_txt {
        1nat
    } else {
        0nat
    }) + (if m.go_mod { 1nat } else { 0nat }) + (if m.src_tauri { 1nat } else { 0nat })
}

/// Each marker detects its project on its own: `Cargo.toml` a Rust project,
/// `package.json` a Node project, any of `pyproject.toml`, `setup.py` and
/// `requirements.txt` a Python project, `go.mod` a Go project, `src-tauri` a
/// Tauri project rooted there; each project is listed once, the others at
/// the root, and a Rust project, when there is one, comes first.
pub proof fn law_markers_detect_projects(m: ProjectMarkers)
    ensures
        detected(m).contains(("rust"@, "."@)) <==> m.cargo_toml,
        detected(m).contains(("node"@, "."@)) <==> m.package_json,
        detected(m).contains(("python"@, "."@)) <==> (m.pyproject_toml || m.setup_py || m.requirements_txt),
        detected(m).contains(("go"@, "."@)) <==> m.go_mod,
        detected(m).contains(("tauri"@, "src-tauri"@)) <==> m.src_tauri,
        detected(m).len() == kinds_revealed(m),
        m.cargo_toml ==> detected(m)[0] == ("rust"@, "."@),
        forall|k: int|
            0 <= k < detected(m).len() ==> (#[trigger] detected(m)[k]).1 == "."@ || detected(m)[k]
                == ("tauri"@, "src-tauri"@),
{
    reveal_strlit("rust");
    reveal_strlit("node");
    reveal_strlit("python");
    reveal_strlit("go");
    reveal_strlit("tauri");
    reveal_strlit(".");
    reveal_strlit("src-tauri");
    let r = ("rust"@, "."@);
    let n = ("node"@, "."@);
    let p = ("python"@, "."@);
    let g = ("go"@, "."@);
    let t = ("tauri"@, "src-tauri"@);
    assert(r.0[0] == 'r' && n.0[0] == 'n' && p.0[0] == 'p' && g.0[0] == 'g' && t.0[0] == 't');
    let s0 = Seq::<(Seq<char>, Seq<char>)>::empty();
    let s1 = if m.cargo_toml { s0.push(r) } else { s0 };
    let s2 = if m.package_json { s1.push(n) } else { s1 };
    let s3 = if m.pyproject_toml || m.setup_py || m.requirements_txt { s2.push(p) } else { s2 };
    let s4 = if m.go_mod { s3.push(g) } else { s3 };
    let s5 = if m.src_tauri { s4.push(t) } else { s4 };
    assert(s5 == detected(m));
    assert forall|x: (Seq<char>, Seq<char>)| #[trigger] s5.contains(x) <==> (
        (x == r && m.cargo_toml) || (x == n && m.package_json) || (x == p && (m.pyproject_toml
            || m.setup_py || m.requirements_txt)) || (x == g && m.go_mod) || (x == t && m.src_tauri)) by {
        if s5.contains(x) {
            let k = choose|k: int| 0 <= k < s5.len() && s5[k] == x;
        }
        if x == r && m.cargo_toml {
            assert(s5[0] == r);
        }
        if x == n && m.package_json {
            assert(s2[s2.len() - 1] == n);
            assert(s5[s2.len() - 1] == n);
        }
        if x == p && (m.pyproject_toml || m.setup_py || m.requirements_txt) {
            assert(s5[s3.len() - 1] == p);
        }
        if x == g && m.go_mod {
            assert(s5[s4.len() - 1] == g);
        }
        if x == t && m.src_tauri {
            assert(s5[s5.len() - 1] == t);
        }
    }
    assert(s5.contains(r) <==> m.cargo_toml);
    assert(s5.contains(n) <==> m.package_json);
    assert(s5.contains(p) <==> (m.pyproject_toml || m.setup_py || m.requirements_txt));
    assert(s5.contains(g) <==> m.go_mod);
    assert(s5.contains(t) <==> m.src_tauri);
}

/// The suite commands: `cargo test` for Rust and Tauri, `npm test` for Node,
/// `python -m pytest` for Python, `go test ./...` for Go, none for any other
/// kind.
pub proof fn law_project_commands(kind: Seq<char>)
    ensures
        project_command("rust"@) == Some("cargo test"@),
        project_command("tauri"@) == Some("cargo test"@),
        project_command("node"@) == Some("npm test"@),
        project_command("python"@) == Some("python -m pytest"@),
        project_command("go"@) == Some("go test ./..."@),
        kind != "rust"@ && kind != "tauri"@ && kind != "node"@ && kind != "python"@ && kind != "go"@
            ==> project_command(kind) is None,
{
    reveal_strlit("rust");
    reveal_strlit("node");
    reveal_strlit("python");
    reveal_strlit("go");
    reveal_strlit("tauri");
    assert("rust"@[0] == 'r' && "node"@[0] == 'n' && "python"@[0] == 'p' && "go"@[0] == 'g'
        && "tauri"@[0] == 't');
}

} // verus!
