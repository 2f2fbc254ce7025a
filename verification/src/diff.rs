//! Choosing the changed files: explicit files win, else the staged diff,
//! else the unstaged diff against a base, else the untracked files. Each git
//! listing is asked for only when the earlier ones came back empty.
use vstd::prelude::*;
use crate::text::{owned, views};

verus! {

/// A git listing of file names.
#[derive(Debug, Clone)]
pub enum DiffQuery {
    /// `git diff --cached --name-only`
    Staged,
    /// `git diff --name-only <base>`
    Unstaged(String),
    /// `git ls-files --others --exclude-standard`
    Untracked,
}

/// What to do next: ask git for a listing, or stop with the changed files.
#[derive(Debug, Clone)]
pub enum DiffStep {
    Run(DiffQuery),
    Done(Vec<String>),
}

/// A git listing by its view.
pub enum QueryView {
    Staged,
    Unstaged(Seq<char>),
    Untracked,
}

/// A step by its view.
pub enum StepView {
    Run(QueryView),
    Done(Seq<Seq<char>>),
}

/// The view of a query.
pub open spec fn query_view(q: DiffQuery) -> QueryView {
    match q {
        DiffQuery::Staged => QueryView::Staged,
        DiffQuery::Unstaged(b) => QueryView::Unstaged(b@),
        DiffQuery::Untracked => QueryView::Untracked,
    }
}

/// The view of a step.
pub open spec fn step_view(s: DiffStep) -> StepView {
    match s {
        DiffStep::Run(q) => StepView::Run(query_view(q)),
        DiffStep::Done(v) => StepView::Done(views(v@)),
    }
}

/// The first step: explicit files, if any, else the staged listing.
pub open spec fn diff_start(explicit: Seq<Seq<char>>) -> StepView {
    if explicit.len() > 0 {
        StepView::Done(explicit)
    } else {
        StepView::Run(QueryView::Staged)
    }
}

/// The base to diff against: the given one, else `HEAD`.
pub open spec fn base_or_head(base: Option<Seq<char>>) -> Seq<char> {
    match base {
        Some(b) => b,
        None => "HEAD"@,
    }
}

/// The step after a listing came back with `names`: stop with a non-empty
/// listing, else ask the next one; the untracked listing is the last word.
pub open spec fn diff_next(query: QueryView, base: Option<Seq<char>>, names: Seq<Seq<char>>) -> StepView {
    match query {
        QueryView::Staged => if names.len() > 0 {
            StepView::Done(names)
        } else {
            StepView::Run(QueryView::Unstaged(base_or_head(base)))
        },
        QueryView::Unstaged(_) => if names.len() > 0 {
            StepView::Done(names)
        } else {
            StepView::Run(QueryView::Untracked)
        },
        QueryView::Untracked => StepView::Done(names),
    }
}

/// A copy of a list of strings.
fn copy_list(v: &Vec<String>) -> (r: Vec<String>)
    ensures
        views(r@) == views(v@),
{
    let mut out: Vec<String> = Vec::new();
    let mut i: usize = 0;
    while i < v.len()
        invariant
            i <= v@.len(),
            views(out@) == views(v@).take(i as int),
        decreases v@.len() - i,
    {
        let ghost prev = views(out@);
        let c = owned(v[i].as_str());
        out.push(c);
        assert(views(out@) =~= prev.push(c@));
        assert(views(v@).take(i + 1) =~= views(v@).take(i as int).push(v@[i as int]@));
        i = i + 1;
    }
    assert(views(v@).take(v@.len() as int) =~= views(v@));
    out
}

/// Start choosing the changed files.
pub fn get_changed_files(explicit_files: &Vec<String>) -> (r: DiffStep)
    ensures
        step_view(r) == diff_start(views(explicit_files@)),
{
    if explicit_files.len() > 0 {
        DiffStep::Done(copy_list(explicit_files))
    } else {
        DiffStep::Run(DiffQuery::Staged)
    }
}

/// Continue after the listing `query` came back with `names` (empty when git
/// failed).
pub fn next_diff_step(query: &DiffQuery, base: &Option<String>, names: Vec<String>) -> (r: DiffStep)
    ensures
        step_view(r) == diff_next(
            query_view(*query),
            match base {
                Some(b) => Some(b@),
                None => None,
            },
            views(names@),
        ),
{
    match query {
        DiffQuery::Staged => {
            if names.len() > 0 {
                DiffStep::Done(names)
            } else {
                let b = match base {
                    Some(b) => owned(b.as_str()),
                    None => owned("HEAD"),
                };
                DiffStep::Run(DiffQuery::Unstaged(b))
            }
        },
        DiffQuery::Unstaged(_) => {
            if names.len() > 0 {
                DiffStep::Done(names)
            } else {
                DiffStep::Run(DiffQuery::Untracked)
            }
        },
        DiffQuery::Untracked => DiffStep::Done(names),
    }
}

/// The git arguments of a listing.
pub open spec fn query_args(q: QueryView) -> Seq<Seq<char>> {
    match q {
        QueryView::Staged => seq!["diff"@, "--cached"@, "--name-only"@],
        QueryView::Unstaged(b) => seq!["diff"@, "--name-only"@, b],
        QueryView::Untracked => seq!["ls-files"@, "--others"@, "--exclude-standard"@],
    }
}

/// The arguments to give `git` for a listing.
pub fn git_args(query: &DiffQuery) -> (r: Vec<String>)
    ensures
        views(r@) == query_args(query_view(*query)),
{
    let mut v: Vec<String> = Vec::new();
    match query {
        DiffQuery::Staged => {
            v.push(owned("diff"));
            v.push(owned("--cached"));
            v.push(owned("--name-only"));
        },
        DiffQuery::Unstaged(b) => {
            v.push(owned("diff"));
            v.push(owned("--name-only"));
            v.push(owned(b.as_str()));
        },
        DiffQuery::Untracked => {
            v.push(owned("ls-files"));
            v.push(owned("--others"));
            v.push(owned("--exclude-standard"));
        },
    }
    assert(views(v@) =~= query_args(query_view(*query)));
    v
}

/// The changed files chosen from the explicit files and the three listings:
/// the first of them that is not empty, the untracked listing otherwise.
pub open spec fn chosen_files(
    explicit: Seq<Seq<char>>,
    staged: Seq<Seq<char>>,
    unstaged: Seq<Seq<char>>,
    untracked: Seq<Seq<char>>,
) -> Seq<Seq<char>> {
    if explicit.len() > 0 {
        explicit
    } else if staged.len() > 0 {
        staged
    } else if unstaged.len() > 0 {
        unstaged
    } else {
        untracked
    }
}

/// Following the steps, each listing answered in turn, ends with the first
/// non-empty source in the order explicit, staged, unstaged (against the
/// base, else `HEAD`), untracked.
pub proof fn law_changed_file_precedence(
    explicit: Seq<Seq<char>>,
    base: Option<Seq<char>>,
    staged: Seq<Seq<char>>,
    unstaged: Seq<Seq<char>>,
    untracked: Seq<Seq<char>>,
)
    ensures
        match diff_start(explicit) {
            StepView::Done(files) => files == chosen_files(explicit, staged, unstaged, untracked),
            StepView::Run(q1) => q1 == QueryView::Staged && match diff_next(q1, base, staged) {
                StepView::Done(files) => files == chosen_files(explicit, staged, unstaged, untracked),
                StepView::Run(q2) => q2 == QueryView::Unstaged(base_or_head(base)) && match diff_next(
                    q2,
                    base,
                    unstaged,
                ) {
                    StepView::Done(files) => files == chosen_files(
                        explicit,
                        staged,
                        unstaged,
                        untracked,
                    ),
                    StepView::Run(q3) => q3 == QueryView::Untracked && diff_next(
                        q3,
                        base,
                        untracked,
                    ) == StepView::Done(chosen_files(explicit, staged, unstaged, untracked)),
                },
            },
        },
        explicit.len() > 0 ==> chosen_files(explicit, staged, unstaged, untracked) == explicit,
        explicit.len() == 0 && staged.len() > 0 ==> chosen_files(explicit, staged, unstaged, untracked)
            == staged,
        explicit.len() == 0 && staged.len() == 0 && unstaged.len() > 0 ==> chosen_files(
            explicit,
            staged,
            unstaged,
            untracked,
        ) == unstaged,
        explicit.len() == 0 && staged.len() == 0 && unstaged.len() == 0 ==> chosen_files(
            explicit,
            staged,
            unstaged,
            untracked,
        ) == untracked,
        base is None ==> base_or_head(base) == "HEAD"@,
        base matches Some(b) ==> base_or_head(base) == b,
{
}

/// The git listings: the staged one is `git diff --cached --name-only`, the
/// unstaged one `git diff --name-only <base>`, the untracked one `git
/// ls-files --others --exclude-standard`.
pub proof fn law_git_listings(base: Seq<char>)
    ensures
        query_args(QueryView::Staged) == seq!["diff"@, "--cached"@, "--name-only"@],
        query_args(QueryView::Unstaged(base)) == seq!["diff"@, "--name-only"@, base],
        query_args(QueryView::Untracked) == seq!["ls-files"@, "--others"@, "--exclude-standard"@],
{
}

} // verus!
