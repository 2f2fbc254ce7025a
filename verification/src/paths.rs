//! The parts of a `/`-separated path that the analysis reads: file name, stem,
//! extension and parent, as `std::path::Path` yields them on Unix.
use vstd::prelude::*;

verus! {

/// Where the components after a leading root (`/`) or current-directory
/// (`.`) marker start.
pub open spec fn body_start(p: Seq<char>) -> int {
    if p.len() > 0 && p[0] == '/' {
        1
    } else if p.len() > 0 && p[0] == '.' && (p.len() == 1 || p[1] == '/') {
        1
    } else {
        0
    }
}

/// Start of the last `/`-separated piece of `p[lo..hi]`.
pub open spec fn piece_start(p: Seq<char>, lo: int, hi: int) -> int
    decreases hi - lo,
{
    if hi <= lo {
        lo
    } else if p[hi - 1] == '/' {
        hi
    } else {
        piece_start(p, lo, hi - 1)
    }
}

/// Bounds of the last component of `p[lo..hi]`: the last piece that is
/// neither empty nor `.`.
pub open spec fn last_component(p: Seq<char>, lo: int, hi: int) -> Option<(int, int)>
    decreases hi - lo,
{
    if hi <= lo {
        None
    } else {
        let s = piece_start(p, lo, hi);
        if s >= hi {
            last_component(p, lo, hi - 1)
        } else if hi - s == 1 && p[s] == '.' {
            last_component(p, lo, s)
        } else {
            Some((s, hi))
        }
    }
}

/// The final component of `p`, as `Path::file_name` gives it: `None` when
/// there is none or it is `..`.
pub open spec fn file_name_of(p: Seq<char>) -> Option<Seq<char>> {
    match last_component(p, body_start(p), p.len() as int) {
        Some((s, e)) => {
            let name = p.subrange(s, e);
            if name == seq!['.', '.'] {
                None
            } else {
                Some(name)
            }
        },
        None => None,
    }
}

/// Whether `d` is the position of the last `.` in `name`.
pub open spec fn is_last_dot(name: Seq<char>, d: int) -> bool {
    0 <= d < name.len() && name[d] == '.' && forall|k: int| d < k < name.len() ==> name[k] != '.'
}

/// The position of the last `.` in `name` that splits it into stem and
/// extension: `None` when there is no `.` or the only one leads the name.
pub open spec fn split_dot(name: Seq<char>) -> Option<int> {
    if exists|d: int| is_last_dot(name, d) {
        let d = choose|d: int| is_last_dot(name, d);
        if d == 0 {
            None
        } else {
            Some(d)
        }
    } else {
        None
    }
}

/// The stem of a file name: all of it, or the part before the splitting dot.
pub open spec fn stem_of_name(name: Seq<char>) -> Seq<char> {
    match split_dot(name) {
        Some(d) => name.take(d),
        None => name,
    }
}

/// What `Path::file_stem` gives.
pub open spec fn file_stem_of(p: Seq<char>) -> Option<Seq<char>> {
    match file_name_of(p) {
        Some(name) => Some(stem_of_name(name)),
        None => None,
    }
}

/// What `Path::extension` gives.
pub open spec fn extension_of(p: Seq<char>) -> Option<Seq<char>> {
    match file_name_of(p) {
        Some(name) => match split_dot(name) {
            Some(d) => Some(name.skip(d + 1)),
            None => None,
        },
        None => None,
    }
}

/// What `Path::parent` gives: the path before the last component, without
/// trailing separators and `.` pieces; `Some("")` for a lone `.`; `None` for
/// the empty path and for the root.
pub open spec fn parent_of(p: Seq<char>) -> Option<Seq<char>> {
    let b = body_start(p);
    match last_component(p, b, p.len() as int) {
        Some((s, e)) => match last_component(p, b, s) {
            Some((s2, e2)) => Some(p.take(e2)),
            None => Some(p.take(b)),
        },
        None => if p.len() > 0 && p[0] == '.' {
            Some(Seq::empty())
        } else {
            None
        },
    }
}

/// Executable `body_start`.
fn body_start_exec(p: &str) -> (r: usize)
    ensures
        r == body_start(p@),
        r <= p@.len(),
{
    let n = p.unicode_len();
    if n > 0 && p.get_char(0) == '/' {
        1
    } else if n > 0 && p.get_char(0) == '.' && (n == 1 || p.get_char(1) == '/') {
        1
    } else {
        0
    }
}

/// Executable `piece_start`.
fn piece_start_exec(p: &str, lo: usize, hi: usize) -> (r: usize)
    requires
        lo <= hi <= p@.len(),
    ensures
        r == piece_start(p@, lo as int, hi as int),
        lo <= r <= hi,
{
    let mut k = hi;
    while k > lo && p.get_char(k - 1) != '/'
        invariant
            lo <= k <= hi <= p@.len(),
            piece_start(p@, lo as int, hi as int) == piece_start(p@, lo as int, k as int),
        decreases k,
    {
        k = k - 1;
    }
    k
}

/// Executable `last_component`.
fn last_component_exec(p: &str, lo: usize, hi: usize) -> (r: Option<(usize, usize)>)
    requires
        lo <= hi <= p@.len(),
    ensures
        match r {
            Some((s, e)) => last_component(p@, lo as int, hi as int) == Some((s as int, e as int)),
            None => last_component(p@, lo as int, hi as int) is None,
        },
        r matches Some((s, e)) ==> lo <= s < e <= hi,
{
    let mut h = hi;
    while h > lo
        invariant
            lo <= h <= hi <= p@.len(),
            last_component(p@, lo as int, hi as int) == last_component(p@, lo as int, h as int),
        decreases h,
    {
        let s = piece_start_exec(p, lo, h);
        if s >= h {
            h = h - 1;
        } else if h - s == 1 && p.get_char(s) == '.' {
            h = s;
        } else {
            return Some((s, h));
        }
    }
    None
}

/// The final component of a path (`Path::file_name`).
pub fn file_name(p: &str) -> (r: Option<String>)
    ensures
        r matches Some(x) ==> file_name_of(p@) == Some(x@),
        r is None ==> file_name_of(p@) is None,
{
    let n = p.unicode_len();
    let b = body_start_exec(p);
    match last_component_exec(p, b, n) {
        Some((s, e)) => {
            let name = p.substring_char(s, e);
            if e - s == 2 && name.get_char(0) == '.' && name.get_char(1) == '.' {
                assert(name@ =~= seq!['.', '.']);
                None
            } else {
                assert(name@ != seq!['.', '.']);
                Some(name.to_owned())
            }
        },
        None => None,
    }
}

/// Position of the dot that splits a file name, as `split_dot` describes.
fn split_dot_exec(name: &str) -> (r: Option<usize>)
    ensures
        match r {
            Some(d) => split_dot(name@) == Some(d as int),
            None => split_dot(name@) is None,
        },
        r matches Some(d) ==> 0 < d < name@.len(),
{
    let n = name.unicode_len();
    let mut k = n;
    while k > 0 && name.get_char(k - 1) != '.'
        invariant
            k <= n == name@.len(),
            forall|j: int| k <= j < n ==> name@[j] != '.',
        decreases k,
    {
        k = k - 1;
    }
    if k == 0 {
        assert(!exists|d: int| is_last_dot(name@, d));
        None
    } else {
        let d = k - 1;
        assert(is_last_dot(name@, d as int));
        proof {
            let c = choose|x: int| is_last_dot(name@, x);
            assert(is_last_dot(name@, c));
            if c < d {
                assert(name@[d as int] != '.');
            }
            if c > d {
                assert(name@[c] != '.');
            }
        }
        if d == 0 {
            None
        } else {
            Some(d)
        }
    }
}

/// The stem of a path's file name (`Path::file_stem`).
pub fn file_stem(p: &str) -> (r: Option<String>)
    ensures
        r matches Some(x) ==> file_stem_of(p@) == Some(x@),
        r is None ==> file_stem_of(p@) is None,
{
    match file_name(p) {
        Some(name) => match split_dot_exec(name.as_str()) {
            Some(d) => {
                let stem = name.as_str().substring_char(0, d);
                Some(stem.to_owned())
            },
            None => Some(name),
        },
        None => None,
    }
}

/// The extension of a path's file name (`Path::extension`).
pub fn extension(p: &str) -> (r: Option<String>)
    ensures
        r matches Some(x) ==> extension_of(p@) == Some(x@),
        r is None ==> extension_of(p@) is None,
{
    match file_name(p) {
        Some(name) => match split_dot_exec(name.as_str()) {
            Some(d) => {
                let n = name.unicode_len();
                let ext = name.as_str().substring_char(d + 1, n);
                Some(ext.to_owned())
            },
            None => None,
        },
        None => None,
    }
}

/// The parent of a path (`Path::parent`).
pub fn parent(p: &str) -> (r: Option<String>)
    ensures
        r matches Some(x) ==> parent_of(p@) == Some(x@),
        r is None ==> parent_of(p@) is None,
{
    let n = p.unicode_len();
    let b = body_start_exec(p);
    match last_component_exec(p, b, n) {
        Some((s, e)) => match last_component_exec(p, b, s) {
            Some((s2, e2)) => Some(p.substring_char(0, e2).to_owned()),
            None => Some(p.substring_char(0, b).to_owned()),
        },
        None => {
            if n > 0 && p.get_char(0) == '.' {
                Some(String::new())
            } else {
                None
            }
        },
    }
}

/// Whether `s` holds the character `c`.
pub open spec fn holds_char(s: Seq<char>, c: char) -> bool {
    exists|k: int| 0 <= k < s.len() && s[k] == c
}

/// The piece that ends at `hi` starts just after the `/` at `k - 1`.
proof fn lemma_piece_start_after_slash(p: Seq<char>, lo: int, hi: int, k: int)
    requires
        lo < k <= hi <= p.len(),
        p[k - 1] == '/',
        forall|j: int| k <= j < hi ==> p[j] != '/',
    ensures
        piece_start(p, lo, hi) == k,
    decreases hi - k,
{
    if hi > k {
        lemma_piece_start_after_slash(p, lo, hi - 1, k);
    }
}

/// Without a `/` in `p[lo..hi]`, the piece that ends at `hi` starts at `lo`.
proof fn lemma_piece_start_whole(p: Seq<char>, lo: int, hi: int)
    requires
        0 <= lo <= hi <= p.len(),
        forall|j: int| lo <= j < hi ==> p[j] != '/',
    ensures
        piece_start(p, lo, hi) == lo,
    decreases hi - lo,
{
    if hi > lo {
        lemma_piece_start_whole(p, lo, hi - 1);
    }
}

/// A file named `stem.ext` (neither part holding `/` or `.`, the stem not
/// empty), alone or after a directory and a `/`, has that name, that stem and
/// that extension, whatever the directory.
pub proof fn law_simple_file_name(dir: Seq<char>, stem: Seq<char>, ext: Seq<char>)
    requires
        stem.len() > 0,
        !holds_char(stem, '/') && !holds_char(stem, '.'),
        !holds_char(ext, '/') && !holds_char(ext, '.'),
    ensures
        file_name_of(stem + "."@ + ext) == Some(stem + "."@ + ext),
        file_stem_of(stem + "."@ + ext) == Some(stem),
        extension_of(stem + "."@ + ext) == Some(ext),
        file_name_of(dir + "/"@ + stem + "."@ + ext) == Some(stem + "."@ + ext),
        file_stem_of(dir + "/"@ + stem + "."@ + ext) == Some(stem),
        extension_of(dir + "/"@ + stem + "."@ + ext) == Some(ext),
{
    reveal_strlit(".");
    reveal_strlit("/");
    let name = stem + "."@ + ext;
    let n = stem.len() as int;
    assert(name.len() == n + 1 + ext.len());
    assert forall|j: int| 0 <= j < name.len() implies name[j] != '/' by {
        if j < n {
            assert(name[j] == stem[j]);
        } else if j > n {
            assert(name[j] == ext[j - n - 1]);
        }
    }
    assert forall|j: int| 0 <= j < name.len() && j != n implies name[j] != '.' by {
        if j < n {
            assert(name[j] == stem[j]);
        } else {
            assert(name[j] == ext[j - n - 1]);
        }
    }
    assert(name[n] == '.');
    assert(is_last_dot(name, n));
    assert forall|d: int| is_last_dot(name, d) implies d == n by {
        if d != n {
            assert(name[d] != '.');
        }
    }
    assert(split_dot(name) == Some(n));
    assert(name.take(n) =~= stem);
    assert(name.skip(n + 1) =~= ext);
    assert(name != seq!['.', '.']) by {
        if name == seq!['.', '.'] {
            assert(name[0] == stem[0]);
        }
    }
    assert(name[0] == stem[0] && stem[0] != '.' && stem[0] != '/');
    assert(body_start(name) == 0);
    lemma_piece_start_whole(name, 0, name.len() as int);
    assert(name.subrange(0, name.len() as int) =~= name);
    assert(last_component(name, 0, name.len() as int) == Some((0int, name.len() as int)));
    let p = dir + "/"@ + name;
    let b = body_start(p);
    let k: int = dir.len() as int + 1;
    assert(p.len() == k + name.len());
    assert(p[k - 1] == '/');
    assert forall|j: int| k <= j < p.len() implies p[j] != '/' by {
        assert(p[j] == name[j - k]);
    }
    assert(b <= 1);
    if b < k {
        lemma_piece_start_after_slash(p, b, p.len() as int, k);
    } else {
        assert(b == 1 && k == 1);
        lemma_piece_start_whole(p, b, p.len() as int);
    }
    assert(piece_start(p, b, p.len() as int) == k);
    assert(p.subrange(k, p.len() as int) =~= name);
    assert(p[k] == name[0]);
    assert(last_component(p, b, p.len() as int) == Some((k, p.len() as int)));
    assert(file_name_of(p) == Some(name));
    assert(dir + "/"@ + stem + "."@ + ext =~= p);
}

/// The last component of `p[lo..hi]` when `p[hi - 1]` ends a piece that is
/// neither empty nor `.`: that piece.
proof fn lemma_last_piece(p: Seq<char>, lo: int, hi: int)
    requires
        0 <= lo < hi <= p.len(),
        p[hi - 1] != '/',
        p[hi - 1] != '.',
    ensures
        last_component(p, lo, hi) == Some((piece_start(p, lo, hi), hi)),
        lo <= piece_start(p, lo, hi) < hi,
{
    lemma_piece_start_bounds(p, lo, hi - 1);
}

/// The piece that ends at `hi` starts between `lo` and `hi`.
proof fn lemma_piece_start_bounds(p: Seq<char>, lo: int, hi: int)
    requires
        0 <= lo <= hi <= p.len(),
    ensures
        lo <= piece_start(p, lo, hi) <= hi,
    decreases hi - lo,
{
    if hi > lo && p[hi - 1] != '/' {
        lemma_piece_start_bounds(p, lo, hi - 1);
    }
}

/// A file named `name` (no `/` in it, and not `.`) has as parent the
/// directory before its `/`, when that directory does not end in `/` or
/// `.`; alone, its parent is the empty path.
pub proof fn law_simple_parent(dir: Seq<char>, name: Seq<char>)
    requires
        name.len() > 0,
        !holds_char(name, '/'),
        name != "."@,
    ensures
        parent_of(name) == Some(Seq::<char>::empty()),
        dir.len() > 0 && dir.last() != '/' && dir.last() != '.' ==> parent_of(dir + "/"@ + name) == Some(dir),
{
    reveal_strlit(".");
    reveal_strlit("/");
    assert forall|j: int| 0 <= j < name.len() implies name[j] != '/' by {
        if name[j] == '/' {
            assert(holds_char(name, '/'));
        }
    }
    if name[0] == '.' && name.len() == 1 {
        assert(name =~= "."@);
    }
    assert(body_start(name) == 0);
    lemma_piece_start_whole(name, 0, name.len() as int);
    assert(last_component(name, 0, name.len() as int) == Some((0int, name.len() as int)));
    assert(last_component(name, 0, 0) is None);
    assert(name.take(0) =~= Seq::<char>::empty());
    if dir.len() > 0 && dir.last() != '/' && dir.last() != '.' {
        let p = dir + "/"@ + name;
        let d: int = dir.len() as int;
        let k: int = d + 1;
        assert(p.len() == k + name.len());
        assert(p[d] == '/');
        assert forall|j: int| k <= j < p.len() implies p[j] != '/' by {
            assert(p[j] == name[j - k]);
        }
        let b = body_start(p);
        assert(p[0] == dir[0]);
        assert(b <= 1);
        if d == 1 {
            assert(dir[0] == dir.last());
            assert(b == 0);
        }
        assert(b < d);
        lemma_piece_start_after_slash(p, b, p.len() as int, k);
        if name.len() == 1 && p[k] == '.' {
            assert(name[0] == p[k]);
            assert(name =~= "."@);
        }
        assert(last_component(p, b, p.len() as int) == Some((k, p.len() as int)));
        assert(p[d - 1] == dir.last());
        lemma_last_piece(p, b, d);
        assert(p.take(d) =~= dir);
    }
}

} // verus!
