//! Which test files have changed in the same commits as a changed file.
use vstd::prelude::*;
use crate::text::{same_text, owned, views, list_contains};

verus! {

/// How many commits of a file's history the correlation looks at.
pub const HISTORY_COMMIT_LIMIT: usize = 50;

/// How often `x` occurs in `s`.
pub open spec fn occurrences(s: Seq<Seq<char>>, x: Seq<char>) -> nat
    decreases s.len(),
{
    if s.len() == 0 {
        0
    } else {
        occurrences(s.drop_last(), x) + if s.last() == x {
            1nat
        } else {
            0nat
        }
    }
}

/// The co-change count of test file `t`: every commit that touched it adds one
/// for each time `t` is listed among the test files.
pub open spec fn co_count(commits: Seq<Seq<Seq<char>>>, tests: Seq<Seq<char>>, t: Seq<char>) -> nat
    decreases commits.len(),
{
    if commits.len() == 0 {
        0
    } else {
        co_count(commits.drop_last(), tests, t) + if commits.last().contains(t) {
            occurrences(tests, t)
        } else {
            0nat
        }
    }
}

/// The elements of `s` in order of first occurrence, each once.
pub open spec fn first_occurrences(s: Seq<Seq<char>>) -> Seq<Seq<char>>
    decreases s.len(),
{
    if s.len() == 0 {
        Seq::empty()
    } else if s.drop_last().contains(s.last()) {
        first_occurrences(s.drop_last())
    } else {
        first_occurrences(s.drop_last()).push(s.last())
    }
}

/// Each distinct test file with its co-change count, in order of first
/// occurrence, keeping those that co-changed at least once.
pub open spec fn tally(commits: Seq<Seq<Seq<char>>>, tests: Seq<Seq<char>>) -> Seq<(Seq<char>, nat)> {
    first_occurrences(tests).map_values(|t: Seq<char>| (t, co_count(commits, tests, t))).filter(
        |p: (Seq<char>, nat)| p.1 > 0,
    )
}

/// `x` placed into `s` before the first entry with a smaller count (after all
/// entries with a count at least as large).
pub open spec fn insert_by_count(x: (Seq<char>, nat), s: Seq<(Seq<char>, nat)>) -> Seq<(Seq<char>, nat)>
    decreases s.len(),
{
    if s.len() == 0 {
        seq![x]
    } else if s[0].1 < x.1 {
        seq![x] + s
    } else {
        seq![s[0]] + insert_by_count(x, s.drop_first())
    }
}

/// `s` sorted by count, largest first; entries with equal counts keep their
/// order (a stable sort).
pub open spec fn sort_by_count(s: Seq<(Seq<char>, nat)>) -> Seq<(Seq<char>, nat)>
    decreases s.len(),
{
    if s.len() == 0 {
        Seq::empty()
    } else {
        insert_by_count(s.last(), sort_by_count(s.drop_last()))
    }
}

/// The correlated test files of one changed file, most frequent first.
pub open spec fn correlated(commits: Seq<Seq<Seq<char>>>, tests: Seq<Seq<char>>) -> Seq<(Seq<char>, nat)> {
    sort_by_count(tally(commits, tests))
}

/// Counts never decrease along a prefix of the commits.
pub proof fn lemma_co_count_prefix(
    commits: Seq<Seq<Seq<char>>>,
    tests: Seq<Seq<char>>,
    t: Seq<char>,
    k: int,
)
    requires
        0 <= k <= commits.len(),
    ensures
        co_count(commits.take(k), tests, t) <= co_count(commits, tests, t),
    decreases commits.len(),
{
    if k < commits.len() {
        assert(commits.take(k) =~= commits.drop_last().take(k));
        lemma_co_count_prefix(commits.drop_last(), tests, t, k);
    } else {
        assert(commits.take(k) =~= commits);
    }
}

/// A pair of a string and a count by its view.
pub open spec fn count_view(p: (String, usize)) -> (Seq<char>, nat) {
    (p.0@, p.1 as nat)
}

/// The commits by their views.
pub open spec fn commit_views(commits: Seq<Vec<String>>) -> Seq<Seq<Seq<char>>> {
    commits.map_values(|c: Vec<String>| views(c@))
}

/// How often `x` occurs in `tests`.
fn count_occurrences(tests: &Vec<String>, x: &str) -> (r: usize)
    ensures
        r == occurrences(views(tests@), x@),
{
    let mut n: usize = 0;
    let mut i: usize = 0;
    assert(views(tests@).take(0) =~= Seq::<Seq<char>>::empty());
    while i < tests.len()
        invariant
            i <= tests@.len(),
            n == occurrences(views(tests@).take(i as int), x@),
            n <= i,
        decreases tests@.len() - i,
    {
        assert(views(tests@).take(i + 1).drop_last() =~= views(tests@).take(i as int));
        if same_text(tests[i].as_str(), x) {
            n = n + 1;
        }
        i = i + 1;
    }
    assert(views(tests@).take(tests@.len() as int) =~= views(tests@));
    n
}

/// Whether `tests[j]` already occurs before position `j`.
fn seen_before(tests: &Vec<String>, j: usize) -> (r: bool)
    requires
        j < tests@.len(),
    ensures
        r == views(tests@).take(j as int).contains(tests@[j as int]@),
{
    let mut k: usize = 0;
    while k < j
        invariant
            k <= j < tests@.len(),
            forall|m: int| 0 <= m < k ==> tests@[m]@ != tests@[j as int]@,
        decreases j - k,
    {
        if same_text(tests[k].as_str(), tests[j].as_str()) {
            assert(views(tests@).take(j as int)[k as int] == tests@[j as int]@);
            return true;
        }
        k = k + 1;
    }
    assert forall|m: int| 0 <= m < j implies views(tests@).take(j as int)[m] != tests@[j as int]@ by {
        assert(tests@[m]@ != tests@[j as int]@);
    }
    false
}

/// The co-change count of one test file over a file's commits.
fn co_change_count(commits: &Vec<Vec<String>>, tests: &Vec<String>, t: &str) -> (r: usize)
    requires
        co_count(commit_views(commits@), views(tests@), t@) <= usize::MAX,
    ensures
        r == co_count(commit_views(commits@), views(tests@), t@),
{
    let occ = count_occurrences(tests, t);
    let ghost cv = commit_views(commits@);
    let mut n: usize = 0;
    let mut i: usize = 0;
    assert(cv.take(0) =~= Seq::<Seq<Seq<char>>>::empty());
    while i < commits.len()
        invariant
            i <= commits@.len(),
            cv == commit_views(commits@),
            occ == occurrences(views(tests@), t@),
            co_count(cv, views(tests@), t@) <= usize::MAX,
            n == co_count(cv.take(i as int), views(tests@), t@),
        decreases commits@.len() - i,
    {
        assert(cv.take(i + 1).drop_last() =~= cv.take(i as int));
        assert(cv.take(i + 1).last() == views(commits@[i as int]@));
        proof {
            lemma_co_count_prefix(cv, views(tests@), t@, i + 1);
        }
        if list_contains(&commits[i], t) {
            n = n + occ;
        }
        i = i + 1;
    }
    assert(cv.take(commits@.len() as int) =~= cv);
    n
}

/// Insert `x` after the entries whose count is at least its own.
fn insert_sorted(sorted: &mut Vec<(String, usize)>, x: (String, usize))
    ensures
        final(sorted)@.map_values(|p: (String, usize)| count_view(p)) == insert_by_count(
            count_view(x),
            old(sorted)@.map_values(|p: (String, usize)| count_view(p)),
        ),
{
    let ghost cv = |p: (String, usize)| count_view(p);
    let ghost s0 = sorted@.map_values(cv);
    let mut p: usize = 0;
    while p < sorted.len() && sorted[p].1 >= x.1
        invariant
            p <= sorted@.len(),
            cv == (|p: (String, usize)| count_view(p)),
            s0 == sorted@.map_values(cv),
            forall|k: int| 0 <= k < p ==> s0[k].1 >= x.1,
        decreases sorted@.len() - p,
    {
        p = p + 1;
    }
    proof {
        lemma_insert_at(count_view(x), s0, p as int);
    }
    let ghost xv = count_view(x);
    sorted.insert(p, x);
    assert(sorted@.map_values(cv) =~= s0.insert(p as int, xv));
}

/// Inserting by count places `x` before the first smaller entry.
pub proof fn lemma_insert_at(x: (Seq<char>, nat), s: Seq<(Seq<char>, nat)>, p: int)
    requires
        0 <= p <= s.len(),
        forall|k: int| 0 <= k < p ==> s[k].1 >= x.1,
        p < s.len() ==> s[p].1 < x.1,
    ensures
        insert_by_count(x, s) == s.insert(p, x),
    decreases s.len(),
{
    if s.len() == 0 {
        assert(s.insert(p, x) =~= seq![x]);
    } else if p == 0 {
        assert(s.insert(0, x) =~= seq![x] + s);
    } else {
        lemma_insert_at(x, s.drop_first(), p - 1);
        assert(s.insert(p, x) =~= seq![s[0]] + s.drop_first().insert(p - 1, x));
    }
}

/// For each changed file, the test files that changed in the same commits,
/// with how often, most frequent first. `commit_files[i]` lists, commit by
/// commit, the files of the commits that touched `changed_files[i]` (at most
/// `HISTORY_COMMIT_LIMIT` of them).
pub fn find_co_changed_tests(
    changed_files: &Vec<String>,
    test_files: &Vec<String>,
    commit_files: &Vec<Vec<Vec<String>>>,
) -> (r: Vec<(String, Vec<(String, usize)>)>)
    requires
        forall|i: int, t: Seq<char>|
            0 <= i < commit_files@.len() ==> #[trigger] co_count(
                commit_views(commit_files@[i]@),
                views(test_files@),
                t,
            ) <= usize::MAX,
    ensures
        r@.len() == changed_files@.len(),
        forall|i: int|
            0 <= i < r@.len() ==> (#[trigger] r@[i]).0@ == changed_files@[i]@ && r@[i].1@.map_values(
                |p: (String, usize)| count_view(p),
            ) == correlated(commits_of(commit_files@, i), views(test_files@)),
{
    let mut results: Vec<(String, Vec<(String, usize)>)> = Vec::new();
    let mut i: usize = 0;
    let empty: Vec<Vec<String>> = Vec::new();
    while i < changed_files.len()
        invariant
            i <= changed_files@.len(),
            empty@.len() == 0,
            results@.len() == i,
            forall|i: int, t: Seq<char>|
                0 <= i < commit_files@.len() ==> #[trigger] co_count(
                    commit_views(commit_files@[i]@),
                    views(test_files@),
                    t,
                ) <= usize::MAX,
            forall|k: int|
                0 <= k < i ==> (#[trigger] results@[k]).0@ == changed_files@[k]@
                    && results@[k].1@.map_values(|p: (String, usize)| count_view(p)) == correlated(
                    commits_of(commit_files@, k),
                    views(test_files@),
                ),
        decreases changed_files@.len() - i,
    {
        let commits = if i < commit_files.len() {
            &commit_files[i]
        } else {
            &empty
        };
        assert(commit_views(commits@) == commits_of(commit_files@, i as int)) by {
            if i >= commit_files@.len() {
                assert(commit_views(commits@) =~= Seq::<Seq<Seq<char>>>::empty());
            }
        }
        let list = correlate(commits, test_files);
        results.push((owned(changed_files[i].as_str()), list));
        i = i + 1;
    }
    results
}

/// The commits of the `i`-th changed file (none when not given).
pub open spec fn commits_of(commit_files: Seq<Vec<Vec<String>>>, i: int) -> Seq<Seq<Seq<char>>> {
    if 0 <= i < commit_files.len() {
        commit_views(commit_files[i]@)
    } else {
        Seq::empty()
    }
}

/// The correlated test files of one changed file from its commits.
fn correlate(commits: &Vec<Vec<String>>, tests: &Vec<String>) -> (r: Vec<(String, usize)>)
    requires
        forall|t: Seq<char>| co_count(commit_views(commits@), views(tests@), t) <= usize::MAX,
    ensures
        r@.map_values(|p: (String, usize)| count_view(p)) == correlated(
            commit_views(commits@),
            views(tests@),
        ),
{
    let ghost cv = commit_views(commits@);
    let ghost tv = views(tests@);
    let ghost mkp = |t: Seq<char>| (t, co_count(cv, tv, t));
    let ghost keep = |p: (Seq<char>, nat)| p.1 > 0;
    let ghost pv = |p: (String, usize)| count_view(p);
    let mut sorted: Vec<(String, usize)> = Vec::new();
    let ghost mut seen: Seq<(Seq<char>, nat)> = Seq::empty();
    let mut j: usize = 0;
    assert(tv.take(0) =~= Seq::<Seq<char>>::empty());
    while j < tests.len()
        invariant
            j <= tests@.len(),
            cv == commit_views(commits@),
            tv == views(tests@),
            mkp == (|t: Seq<char>| (t, co_count(cv, tv, t))),
            keep == (|p: (Seq<char>, nat)| p.1 > 0),
            pv == (|p: (String, usize)| count_view(p)),
            forall|t: Seq<char>| co_count(cv, tv, t) <= usize::MAX,
            seen == first_occurrences(tv.take(j as int)).map_values(mkp).filter(keep),
            sorted@.map_values(pv) == sort_by_count(seen),
        decreases tests@.len() - j,
    {
        let ghost pre = tv.take(j as int);
        let ghost t = tv[j as int];
        assert(tv.take(j + 1).drop_last() =~= pre);
        assert(tv.take(j + 1).last() == t);
        if !seen_before(tests, j) {
            let c = co_change_count(commits, tests, tests[j].as_str());
            proof {
                first_occurrences(pre).lemma_push_map_commute(mkp, t);
                first_occurrences(pre).map_values(mkp).lemma_filter_push(mkp(t), keep);
            }
            if c > 0 {
                let ghost old_seen = seen;
                proof {
                    seen = seen.push(mkp(t));
                    assert(seen.drop_last() =~= old_seen);
                }
                insert_sorted(&mut sorted, (owned(tests[j].as_str()), c));
            }
        }
        j = j + 1;
    }
    assert(tv.take(tests@.len() as int) =~= tv);
    sorted
}

/// A test file that is not listed has no co-change count.
pub proof fn lemma_co_count_unlisted(commits: Seq<Seq<Seq<char>>>, tests: Seq<Seq<char>>, t: Seq<char>)
    requires
        !tests.contains(t),
    ensures
        co_count(commits, tests, t) == 0,
    decreases commits.len(),
{
    lemma_occurrences_unlisted(tests, t);
    if commits.len() > 0 {
        lemma_co_count_unlisted(commits.drop_last(), tests, t);
    }
}

proof fn lemma_occurrences_unlisted(tests: Seq<Seq<char>>, t: Seq<char>)
    requires
        !tests.contains(t),
    ensures
        occurrences(tests, t) == 0,
    decreases tests.len(),
{
    if tests.len() > 0 {
        assert(tests.last() == tests[tests.len() - 1]);
        assert(!tests.drop_last().contains(t)) by {
            if tests.drop_last().contains(t) {
                let k = choose|k: int| 0 <= k < tests.drop_last().len() && tests.drop_last()[k] == t;
                assert(tests[k] == t);
            }
        }
        lemma_occurrences_unlisted(tests.drop_last(), t);
    }
}

/// Whether the co-change count of `t` over `commits` fits in a `usize`.
fn co_count_fits(commits: &Vec<Vec<String>>, tests: &Vec<String>, t: &str) -> (r: bool)
    ensures
        r == (co_count(commit_views(commits@), views(tests@), t@) <= usize::MAX),
{
    let occ = count_occurrences(tests, t);
    let ghost cv = commit_views(commits@);
    let mut n: usize = 0;
    let mut i: usize = 0;
    assert(cv.take(0) =~= Seq::<Seq<Seq<char>>>::empty());
    while i < commits.len()
        invariant
            i <= commits@.len(),
            cv == commit_views(commits@),
            occ == occurrences(views(tests@), t@),
            n == co_count(cv.take(i as int), views(tests@), t@),
        decreases commits@.len() - i,
    {
        assert(cv.take(i + 1).drop_last() =~= cv.take(i as int));
        assert(cv.take(i + 1).last() == views(commits@[i as int]@));
        if list_contains(&commits[i], t) {
            if n > usize::MAX - occ {
                proof {
                    lemma_co_count_prefix(cv, views(tests@), t@, i + 1);
                }
                return false;
            }
            n = n + occ;
        }
        i = i + 1;
    }
    assert(cv.take(commits@.len() as int) =~= cv);
    true
}

/// Whether all co-change counts fit in a `usize`, as the correlation needs.
pub fn counts_within_limit(commit_files: &Vec<Vec<Vec<String>>>, test_files: &Vec<String>) -> (r: bool)
    ensures
        r == (forall|i: int, t: Seq<char>|
            0 <= i < commit_files@.len() ==> #[trigger] co_count(
                commit_views(commit_files@[i]@),
                views(test_files@),
                t,
            ) <= usize::MAX),
{
    let ghost tv = views(test_files@);
    let mut i: usize = 0;
    while i < commit_files.len()
        invariant
            i <= commit_files@.len(),
            tv == views(test_files@),
            forall|k: int, j: int|
                0 <= k < i && 0 <= j < tv.len() ==> #[trigger] co_count(
                    commit_views(commit_files@[k]@),
                    tv,
                    #[trigger] tv[j],
                ) <= usize::MAX,
        decreases commit_files@.len() - i,
    {
        let mut j: usize = 0;
        while j < test_files.len()
            invariant
                i < commit_files@.len(),
                j <= test_files@.len(),
                tv == views(test_files@),
                forall|k: int, j2: int|
                    0 <= k < i && 0 <= j2 < tv.len() ==> #[trigger] co_count(
                        commit_views(commit_files@[k]@),
                        tv,
                        #[trigger] tv[j2],
                    ) <= usize::MAX,
                forall|j2: int|
                    0 <= j2 < j ==> #[trigger] co_count(
                        commit_views(commit_files@[i as int]@),
                        tv,
                        tv[j2],
                    ) <= usize::MAX,
            decreases test_files@.len() - j,
        {
            assert(tv[j as int] == test_files@[j as int]@);
            if !co_count_fits(&commit_files[i], test_files, test_files[j].as_str()) {
                return false;
            }
            j = j + 1;
        }
        i = i + 1;
    }
    assert forall|i: int, t: Seq<char>|
        0 <= i < commit_files@.len() implies #[trigger] co_count(
            commit_views(commit_files@[i]@),
            tv,
            t,
        ) <= usize::MAX by {
        if tv.contains(t) {
            let j = choose|j: int| 0 <= j < tv.len() && tv[j] == t;
            assert(co_count(commit_views(commit_files@[i]@), tv, tv[j]) <= usize::MAX);
        } else {
            lemma_co_count_unlisted(commit_views(commit_files@[i]@), tv, t);
        }
    }
    true
}

/// Counts never increase along the list.
pub open spec fn count_sorted(s: Seq<(Seq<char>, nat)>) -> bool {
    forall|i: int, j: int| 0 <= i < j < s.len() ==> (#[trigger] s[i]).1 >= (#[trigger] s[j]).1
}

/// No test file is listed twice.
pub open spec fn distinct_tests(s: Seq<(Seq<char>, nat)>) -> bool {
    forall|i: int, j: int| 0 <= i < j < s.len() ==> (#[trigger] s[i]).0 != (#[trigger] s[j]).0
}

proof fn lemma_insert_by_count(x: (Seq<char>, nat), s: Seq<(Seq<char>, nat)>)
    requires
        count_sorted(s),
        distinct_tests(s),
        forall|k: int| 0 <= k < s.len() ==> (#[trigger] s[k]).0 != x.0,
    ensures
        count_sorted(insert_by_count(x, s)),
        distinct_tests(insert_by_count(x, s)),
        forall|y: (Seq<char>, nat)| #[trigger] insert_by_count(x, s).contains(y) <==> (s.contains(y) || y == x),
    decreases s.len(),
{
    let r = insert_by_count(x, s);
    if s.len() == 0 {
        assert(r =~= seq![x]);
        assert forall|y: (Seq<char>, nat)| #[trigger] r.contains(y) <==> (s.contains(y) || y == x) by {
            if r.contains(y) {
                let k = choose|k: int| 0 <= k < r.len() && r[k] == y;
            }
            if y == x {
                assert(r[0] == x);
            }
        }
    } else if s[0].1 < x.1 {
        assert(r =~= seq![x] + s);
        assert forall|i: int, j: int| 0 <= i < j < r.len() implies (#[trigger] r[i]).1 >= (#[trigger] r[j]).1
            && r[i].0 != r[j].0 by {
            if i == 0 {
                assert(r[j] == s[j - 1]);
                if j > 1 {
                    assert(s[0].1 >= s[j - 1].1);
                }
            } else {
                assert(r[i] == s[i - 1] && r[j] == s[j - 1]);
            }
        }
        assert forall|y: (Seq<char>, nat)| #[trigger] r.contains(y) <==> (s.contains(y) || y == x) by {
            if r.contains(y) {
                let k = choose|k: int| 0 <= k < r.len() && r[k] == y;
                if k > 0 {
                    assert(s[k - 1] == y);
                }
            }
            if s.contains(y) {
                let k = choose|k: int| 0 <= k < s.len() && s[k] == y;
                assert(r[k + 1] == y);
            }
            if y == x {
                assert(r[0] == x);
            }
        }
    } else {
        let t = s.drop_first();
        assert(count_sorted(t) && distinct_tests(t)) by {
            assert forall|i: int, j: int| 0 <= i < j < t.len() implies (#[trigger] t[i]).1 >= (
            #[trigger] t[j]).1 && t[i].0 != t[j].0 by {
                assert(t[i] == s[i + 1] && t[j] == s[j + 1]);
            }
        }
        assert forall|k: int| 0 <= k < t.len() implies (#[trigger] t[k]).0 != x.0 by {
            assert(t[k] == s[k + 1]);
        }
        lemma_insert_by_count(x, t);
        let rest = insert_by_count(x, t);
        assert(r =~= seq![s[0]] + rest);
        assert forall|i: int, j: int| 0 <= i < j < r.len() implies (#[trigger] r[i]).1 >= (#[trigger] r[j]).1
            && r[i].0 != r[j].0 by {
            if i == 0 {
                assert(r[j] == rest[j - 1]);
                assert(rest.contains(r[j]));
                if r[j] != x {
                    assert(t.contains(r[j]));
                    let m = choose|m: int| 0 <= m < t.len() && t[m] == r[j];
                    assert(s[m + 1] == r[j]);
                } else {
                    assert(s[0].0 != x.0);
                }
            } else {
                assert(r[i] == rest[i - 1] && r[j] == rest[j - 1]);
            }
        }
        assert forall|y: (Seq<char>, nat)| #[trigger] r.contains(y) <==> (s.contains(y) || y == x) by {
            if r.contains(y) {
                let k = choose|k: int| 0 <= k < r.len() && r[k] == y;
                if k > 0 {
                    assert(rest[k - 1] == y);
                    assert(rest.contains(y));
                    if y != x {
                        let m = choose|m: int| 0 <= m < t.len() && t[m] == y;
                        assert(s[m + 1] == y);
                    }
                } else {
                    assert(s[0] == y);
                }
            }
            if s.contains(y) {
                let k = choose|k: int| 0 <= k < s.len() && s[k] == y;
                if k == 0 {
                    assert(r[0] == y);
                } else {
                    assert(t[k - 1] == y);
                    assert(t.contains(y));
                    assert(rest.contains(y));
                    let m = choose|m: int| 0 <= m < rest.len() && rest[m] == y;
                    assert(r[m + 1] == y);
                }
            }
            if y == x {
                assert(rest.contains(x));
                let m = choose|m: int| 0 <= m < rest.len() && rest[m] == x;
                assert(r[m + 1] == x);
            }
        }
    }
}

proof fn lemma_sort_by_count(s: Seq<(Seq<char>, nat)>)
    requires
        distinct_tests(s),
    ensures
        count_sorted(sort_by_count(s)),
        distinct_tests(sort_by_count(s)),
        forall|y: (Seq<char>, nat)| #[trigger] sort_by_count(s).contains(y) <==> s.contains(y),
    decreases s.len(),
{
    if s.len() > 0 {
        let init = s.drop_last();
        assert(distinct_tests(init)) by {
            assert forall|i: int, j: int| 0 <= i < j < init.len() implies (#[trigger] init[i]).0 != (
            #[trigger] init[j]).0 by {
                assert(init[i] == s[i] && init[j] == s[j]);
            }
        }
        lemma_sort_by_count(init);
        let sorted = sort_by_count(init);
        let x = s.last();
        assert forall|k: int| 0 <= k < sorted.len() implies (#[trigger] sorted[k]).0 != x.0 by {
            assert(sorted.contains(sorted[k]));
            let m = choose|m: int| 0 <= m < init.len() && init[m] == sorted[k];
            assert(s[m] == sorted[k]);
            assert(s[s.len() - 1] == x);
        }
        lemma_insert_by_count(x, sorted);
        assert forall|y: (Seq<char>, nat)| #[trigger] sort_by_count(s).contains(y) <==> s.contains(y) by {
            if s.contains(y) {
                let m = choose|m: int| 0 <= m < s.len() && s[m] == y;
                if m < init.len() {
                    assert(init[m] == y);
                    assert(init.contains(y));
                }
            }
            if init.contains(y) {
                let m = choose|m: int| 0 <= m < init.len() && init[m] == y;
                assert(s[m] == y);
            }
            if y == x {
                assert(s[s.len() - 1] == x);
            }
        }
    }
}

proof fn lemma_first_occurrences(s: Seq<Seq<char>>)
    ensures
        first_occurrences(s).no_duplicates(),
        forall|t: Seq<char>| #[trigger] first_occurrences(s).contains(t) <==> s.contains(t),
    decreases s.len(),
{
    if s.len() > 0 {
        let init = s.drop_last();
        lemma_first_occurrences(init);
        let f = first_occurrences(init);
        assert forall|t: Seq<char>| init.contains(t) implies #[trigger] s.contains(t) by {
            if init.contains(t) {
                let m = choose|m: int| 0 <= m < init.len() && init[m] == t;
                assert(s[m] == t);
            }
        }
        assert(s.contains(s.last())) by {
            assert(s[s.len() - 1] == s.last());
        }
        assert forall|t: Seq<char>| #[trigger] s.contains(t) implies init.contains(t) || t == s.last() by {
            if s.contains(t) {
                let m = choose|m: int| 0 <= m < s.len() && s[m] == t;
                if m < init.len() {
                    assert(init[m] == t);
                }
            }
        }
        if !init.contains(s.last()) {
            let g = f.push(s.last());
            assert forall|t: Seq<char>| #[trigger] g.contains(t) <==> s.contains(t) by {
                if g.contains(t) {
                    let m = choose|m: int| 0 <= m < g.len() && g[m] == t;
                    if m < f.len() {
                        assert(f[m] == t);
                        assert(f.contains(t));
                    }
                }
                if f.contains(t) {
                    let m = choose|m: int| 0 <= m < f.len() && f[m] == t;
                    assert(g[m] == t);
                }
                if t == s.last() {
                    assert(g[f.len() as int] == t);
                }
            }
            assert forall|i: int, j: int| 0 <= i < g.len() && 0 <= j < g.len() && i != j implies g[i]
                != g[j] by {
                if i == f.len() as int {
                    assert(f.contains(g[j]));
                } else if j == f.len() as int {
                    assert(f.contains(g[i]));
                }
            }
        }
    }
}

/// Co-change counts add up over the commits: the count over two runs of
/// commits is the sum of the counts over each, and one commit adds, for a
/// test file it touched, the number of times that file is listed among the
/// test files (once, for a list without repeats), and nothing for a file it
/// did not touch. Occurrences add up over the list in the same way.
pub proof fn law_co_counts_add_up(
    a: Seq<Seq<Seq<char>>>,
    b: Seq<Seq<Seq<char>>>,
    c: Seq<Seq<char>>,
    tests: Seq<Seq<char>>,
    more: Seq<Seq<char>>,
    t: Seq<char>,
    u: Seq<char>,
)
    ensures
        co_count(a + b, tests, t) == co_count(a, tests, t) + co_count(b, tests, t),
        co_count(seq![c], tests, t) == if c.contains(t) {
            occurrences(tests, t)
        } else {
            0
        },
        occurrences(tests + more, t) == occurrences(tests, t) + occurrences(more, t),
        occurrences(seq![u], t) == if u == t {
            1nat
        } else {
            0nat
        },
    decreases b.len() + more.len(),
{
    if b.len() > 0 {
        law_co_counts_add_up(a, b.drop_last(), c, tests, more, t, u);
        assert((a + b).drop_last() =~= a + b.drop_last());
        assert((a + b).last() == b.last());
    } else if more.len() > 0 {
        law_co_counts_add_up(a, b, c, tests, more.drop_last(), t, u);
        assert((tests + more).drop_last() =~= tests + more.drop_last());
        assert((tests + more).last() == more.last());
    }
    assert(a + Seq::<Seq<Seq<char>>>::empty() =~= a);
    assert(tests + Seq::<Seq<char>>::empty() =~= tests);
    assert(seq![c].drop_last() =~= Seq::<Seq<Seq<char>>>::empty());
    assert(seq![c].last() == c);
    assert(seq![u].drop_last() =~= Seq::<Seq<char>>::empty());
    assert(seq![u].last() == u);
    assert(co_count(Seq::<Seq<Seq<char>>>::empty(), tests, t) == 0);
    assert(occurrences(Seq::<Seq<char>>::empty(), t) == 0);
    assert(co_count(seq![c], tests, t) == co_count(seq![c].drop_last(), tests, t) + if seq![c].last().contains(t) {
        occurrences(tests, t)
    } else {
        0nat
    });
    assert(occurrences(seq![u], t) == occurrences(seq![u].drop_last(), t) + if seq![u].last() == t {
        1nat
    } else {
        0nat
    });
}

/// The co-change list of a changed file: most frequent first; each test file
/// at most once; and `(t, n)` is listed exactly when `t` is a listed test file
/// that changed together with the file, `n` being its co-change count.
pub proof fn law_correlated_tests(commits: Seq<Seq<Seq<char>>>, tests: Seq<Seq<char>>)
    ensures
        count_sorted(correlated(commits, tests)),
        distinct_tests(correlated(commits, tests)),
        forall|p: (Seq<char>, nat)|
            #[trigger] correlated(commits, tests).contains(p) <==> (tests.contains(p.0) && p.1
                == co_count(commits, tests, p.0) && p.1 > 0),
{
    let firsts = first_occurrences(tests);
    lemma_first_occurrences(tests);
    let mkp = |t: Seq<char>| (t, co_count(commits, tests, t));
    let keep = |p: (Seq<char>, nat)| p.1 > 0;
    let mapped = firsts.map_values(mkp);
    let tl = mapped.filter(keep);
    assert(tl == tally(commits, tests));
    assert forall|p: (Seq<char>, nat)| #[trigger] tl.contains(p) <==> (tests.contains(p.0) && p.1
        == co_count(commits, tests, p.0) && p.1 > 0) by {
        if tl.contains(p) {
            mapped.lemma_filter_contains_rev(keep, p);
            let k = choose|k: int| 0 <= k < tl.len() && tl[k] == p;
            mapped.lemma_filter_pred(keep, k);
            let m = choose|m: int| 0 <= m < mapped.len() && mapped[m] == p;
            assert(firsts.contains(firsts[m]));
        }
        if tests.contains(p.0) && p.1 == co_count(commits, tests, p.0) && p.1 > 0 {
            assert(firsts.contains(p.0));
            let m = choose|m: int| 0 <= m < firsts.len() && firsts[m] == p.0;
            assert(mapped[m] == p);
            mapped.lemma_filter_contains(keep, m);
        }
    }
    assert(distinct_tests(tl)) by {
        assert forall|i: int, j: int| 0 <= i < j < tl.len() implies (#[trigger] tl[i]).0 != (
        #[trigger] tl[j]).0 by {
            lemma_filter_keeps_order(mapped, keep, i, j);
            let (a, b) = choose|a: int, b: int| 0 <= a < b < mapped.len() && mapped[a] == tl[i] && mapped[b] == tl[j];
            assert(firsts[a] != firsts[b]);
        }
    }
    lemma_sort_by_count(tl);
}

/// Filtering keeps the order of what it keeps.
proof fn lemma_filter_keeps_order<A>(s: Seq<A>, p: spec_fn(A) -> bool, i: int, j: int)
    requires
        0 <= i < j < s.filter(p).len(),
    ensures
        exists|a: int, b: int| 0 <= a < b < s.len() && s[a] == s.filter(p)[i] && s[b] == s.filter(p)[j],
    decreases s.len(),
{
    reveal(Seq::filter);
    let init = s.drop_last();
    if p(s.last()) {
        assert(s.filter(p) =~= init.filter(p).push(s.last()));
        if j < init.filter(p).len() {
            lemma_filter_keeps_order(init, p, i, j);
            let (a, b) = choose|a: int, b: int| 0 <= a < b < init.len() && init[a] == init.filter(p)[i] && init[b] == init.filter(p)[j];
            assert(s[a] == init[a] && s[b] == init[b]);
        } else {
            assert(s.filter(p)[j] == s.last());
            init.lemma_filter_pred(p, i);
            assert(init.filter(p).contains(init.filter(p)[i]));
            init.lemma_filter_contains_rev(p, init.filter(p)[i]);
            let a = choose|a: int| 0 <= a < init.len() && init[a] == init.filter(p)[i];
            assert(s[a] == init[a]);
            assert(s[s.len() - 1] == s.last());
        }
    } else {
        assert(s.filter(p) =~= init.filter(p));
        lemma_filter_keeps_order(init, p, i, j);
        let (a, b) = choose|a: int, b: int| 0 <= a < b < init.len() && init[a] == init.filter(p)[i] && init[b] == init.filter(p)[j];
        assert(s[a] == init[a] && s[b] == init[b]);
    }
}

} // verus!
