//! Collapsing raw signals into ranked recommendations, finding coverage
//! gaps, and rendering the text report.
use vstd::prelude::*;
use crate::text::{same_text, owned, views, lex_lt, lex_less, lemma_lex_total,
    lemma_lex_transitive, lemma_lex_irreflexive, lemma_lex_asymmetric, decimal, decimal_string};
use crate::detect::opt_view;
use crate::analyze::{Signal, SignalView, signal_view, signal_views, AnalysisResult};

verus! {

/// The rank of a confidence label: certain 4, high 3, medium 2, low 1, else 0.
pub open spec fn rank_of(confidence: Seq<char>) -> nat {
    if confidence == "certain"@ {
        4
    } else if confidence == "high"@ {
        3
    } else if confidence == "medium"@ {
        2
    } else if confidence == "low"@ {
        1
    } else {
        0
    }
}

/// The rank of a confidence label.
pub fn confidence_rank(confidence: &str) -> (r: u8)
    ensures
        r == rank_of(confidence@),
{
    if same_text(confidence, "certain") {
        4
    } else if same_text(confidence, "high") {
        3
    } else if same_text(confidence, "medium") {
        2
    } else if same_text(confidence, "low") {
        1
    } else {
        0
    }
}

/// The label of a confidence rank.
pub open spec fn label_of(rank: nat) -> Seq<char> {
    if rank == 4 {
        "certain"@
    } else if rank == 3 {
        "high"@
    } else if rank == 2 {
        "medium"@
    } else if rank == 1 {
        "low"@
    } else {
        "unknown"@
    }
}

/// The label of a confidence rank.
pub fn confidence_label(rank: u8) -> (r: &'static str)
    ensures
        r@ == label_of(rank as nat),
{
    if rank == 4 {
        "certain"
    } else if rank == 3 {
        "high"
    } else if rank == 2 {
        "medium"
    } else if rank == 1 {
        "low"
    } else {
        "unknown"
    }
}

/// The base score of a confidence label.
pub open spec fn base_score(confidence: Seq<char>) -> nat {
    if confidence == "certain"@ {
        400
    } else if confidence == "high"@ {
        300
    } else if confidence == "medium"@ {
        200
    } else if confidence == "low"@ {
        100
    } else {
        0
    }
}

/// The base score of a confidence label.
pub fn confidence_score(confidence: &str) -> (r: u32)
    ensures
        r == base_score(confidence@),
{
    if same_text(confidence, "certain") {
        400
    } else if same_text(confidence, "high") {
        300
    } else if same_text(confidence, "medium") {
        200
    } else if same_text(confidence, "low") {
        100
    } else {
        0
    }
}

/// The bonus a signal kind adds.
pub open spec fn kind_bonus(kind: Seq<char>) -> nat {
    if kind == "direct_test_change"@ {
        50
    } else if kind == "convention_match"@ {
        40
    } else if kind == "import_match"@ {
        40
    } else if kind == "history_correlation"@ {
        20
    } else {
        0
    }
}

/// The bonus a signal kind adds.
pub fn signal_score(kind: &str) -> (r: u32)
    ensures
        r == kind_bonus(kind@),
{
    if same_text(kind, "direct_test_change") {
        50
    } else if same_text(kind, "convention_match") {
        40
    } else if same_text(kind, "import_match") {
        40
    } else if same_text(kind, "history_correlation") {
        20
    } else {
        0
    }
}

/// `x` added to the ascending list `s` of distinct strings, unless present.
pub open spec fn set_insert(s: Seq<Seq<char>>, x: Seq<char>) -> Seq<Seq<char>>
    decreases s.len(),
{
    if s.len() == 0 {
        seq![x]
    } else if s[0] == x {
        s
    } else if lex_lt(x, s[0]) {
        seq![x] + s
    } else {
        seq![s[0]] + set_insert(s.drop_first(), x)
    }
}

/// A list of strings in strictly ascending order.
pub open spec fn strictly_ascending(s: Seq<Seq<char>>) -> bool {
    forall|i: int, j: int| 0 <= i < j < s.len() ==> lex_lt(#[trigger] s[i], #[trigger] s[j])
}

/// Adding to an ascending list keeps it ascending and adds exactly `x`.
pub proof fn lemma_set_insert(s: Seq<Seq<char>>, x: Seq<char>)
    requires
        strictly_ascending(s),
    ensures
        strictly_ascending(set_insert(s, x)),
        set_insert(s, x).to_set() == s.to_set().insert(x),
    decreases s.len(),
{
    if s.len() == 0 {
        assert(set_insert(s, x).to_set() =~= s.to_set().insert(x)) by {
            let r = seq![x];
            assert(r[0] == x);
            assert forall|y: Seq<char>| r.contains(y) implies y == x by {
                let k = choose|k: int| 0 <= k < r.len() && r[k] == y;
            }
        }
    } else if s[0] == x {
        assert(s.to_set() =~= s.to_set().insert(x)) by {
            assert(s.contains(x));
        }
    } else if lex_lt(x, s[0]) {
        let r = seq![x] + s;
        assert forall|i: int, j: int| 0 <= i < j < r.len() implies lex_lt(#[trigger] r[i], #[trigger] r[j]) by {
            if i == 0 {
                if j > 1 {
                    lemma_lex_transitive(x, s[0], s[j - 1]);
                }
            } else {
                assert(r[i] == s[i - 1] && r[j] == s[j - 1]);
            }
        }
        assert(r.to_set() =~= s.to_set().insert(x)) by {
            assert forall|y: Seq<char>| r.contains(y) <==> s.to_set().insert(x).contains(y) by {
                if r.contains(y) {
                    let k = choose|k: int| 0 <= k < r.len() && r[k] == y;
                    if k > 0 {
                        assert(s[k - 1] == y);
                    }
                }
                if s.contains(y) {
                    let k = choose|k: int| 0 <= k < s.len() && s[k] == y;
                    assert(r[k + 1] == y);
                }
                if y == x {
                    assert(r[0] == x);
                }
            }
        }
    } else {
        let t = s.drop_first();
        assert(strictly_ascending(t)) by {
            assert forall|i: int, j: int| 0 <= i < j < t.len() implies lex_lt(#[trigger] t[i], #[trigger] t[j]) by {
                assert(t[i] == s[i + 1] && t[j] == s[j + 1]);
            }
        }
        lemma_set_insert(t, x);
        let rest = set_insert(t, x);
        let r = seq![s[0]] + rest;
        lemma_lex_total(x, s[0]);
        assert forall|i: int, j: int| 0 <= i < j < r.len() implies lex_lt(#[trigger] r[i], #[trigger] r[j]) by {
            if i == 0 {
                assert(rest.to_set().contains(r[j])) by {
                    assert(rest[j - 1] == r[j]);
                    assert(rest.contains(r[j]));
                }
                assert(t.to_set().insert(x).contains(r[j]));
                if r[j] == x {
                } else {
                    assert(t.contains(r[j]));
                    let k = choose|k: int| 0 <= k < t.len() && t[k] == r[j];
                    assert(s[k + 1] == r[j]);
                }
            } else {
                assert(r[i] == rest[i - 1] && r[j] == rest[j - 1]);
            }
        }
        assert(r.to_set() =~= s.to_set().insert(x)) by {
            assert(s =~= seq![s[0]] + t);
            assert forall|y: Seq<char>| r.contains(y) <==> s.to_set().insert(x).contains(y) by {
                if r.contains(y) {
                    let k = choose|k: int| 0 <= k < r.len() && r[k] == y;
                    if k > 0 {
                        assert(rest[k - 1] == y);
                        assert(rest.contains(y));
                        assert(rest.to_set().contains(y));
                        if y != x {
                            let m = choose|m: int| 0 <= m < t.len() && t[m] == y;
                            assert(s[m + 1] == y);
                        }
                    } else {
                        assert(s[0] == y);
                    }
                }
                if s.contains(y) {
                    let k = choose|k: int| 0 <= k < s.len() && s[k] == y;
                    if k == 0 {
                        assert(r[0] == y);
                    } else {
                        assert(t[k - 1] == y);
                        assert(t.contains(y));
                        assert(rest.to_set().contains(y));
                        let m = choose|m: int| 0 <= m < rest.len() && rest[m] == y;
                        assert(r[m + 1] == y);
                    }
                }
                if y == x {
                    assert(rest.to_set().contains(x));
                    let m = choose|m: int| 0 <= m < rest.len() && rest[m] == x;
                    assert(r[m + 1] == x);
                }
            }
        }
    }
}

/// `set_insert` is the list with `x` placed at position `p`, when every
/// entry before `p` is smaller than `x` and the entry at `p` is not.
proof fn lemma_set_insert_at(s: Seq<Seq<char>>, x: Seq<char>, p: int)
    requires
        0 <= p <= s.len(),
        forall|k: int| 0 <= k < p ==> lex_lt(#[trigger] s[k], x),
        p < s.len() ==> !lex_lt(s[p], x),
    ensures
        set_insert(s, x) == if p < s.len() && s[p] == x {
            s
        } else {
            s.insert(p, x)
        },
    decreases s.len(),
{
    if s.len() == 0 {
        assert(s.insert(p, x) =~= seq![x]);
    } else if p == 0 {
        lemma_lex_total(x, s[0]);
        if s[0] != x {
            assert(s.insert(0, x) =~= seq![x] + s);
        }
    } else {
        lemma_lex_asymmetric(s[0], x);
        lemma_lex_irreflexive(x);
        assert(s[0] != x);
        lemma_set_insert_at(s.drop_first(), x, p - 1);
        if !(p < s.len() && s[p] == x) {
            assert(s.insert(p, x) =~= seq![s[0]] + s.drop_first().insert(p - 1, x));
        } else {
            assert(s =~= seq![s[0]] + s.drop_first());
        }
    }
}

/// Add `x` to an ascending list of distinct strings, keeping it so.
pub fn insert_text(set: &mut Vec<String>, x: &str)
    ensures
        views(final(set)@) == set_insert(views(old(set)@), x@),
{
    let ghost s0 = views(set@);
    let mut p: usize = 0;
    while p < set.len() && lex_less(set[p].as_str(), x)
        invariant
            p <= set@.len(),
            s0 == views(set@),
            forall|k: int| 0 <= k < p ==> lex_lt(#[trigger] s0[k], x@),
        decreases set@.len() - p,
    {
        p = p + 1;
    }
    proof {
        lemma_set_insert_at(s0, x@, p as int);
    }
    if p < set.len() && same_text(set[p].as_str(), x) {
        return;
    }
    let c = owned(x);
    set.insert(p, c);
    assert(views(set@) =~= s0.insert(p as int, x@));
}

/// A recommendation as it is being gathered: its command, the highest
/// confidence rank, the summed score, and the ascending distinct test files,
/// changed files, reasons and signal kinds of its signals.
pub struct RecView {
    pub command: Seq<char>,
    pub rank: nat,
    pub score: nat,
    pub test_files: Seq<Seq<char>>,
    pub changed_files: Seq<Seq<char>>,
    pub reasons: Seq<Seq<char>>,
    pub kinds: Seq<Seq<char>>,
}

/// A recommendation for `command` before any signal.
pub open spec fn fresh_rec(command: Seq<char>) -> RecView {
    RecView {
        command,
        rank: 0,
        score: 0,
        test_files: Seq::empty(),
        changed_files: Seq::empty(),
        reasons: Seq::empty(),
        kinds: Seq::empty(),
    }
}

/// The points one signal adds to its recommendation.
pub open spec fn signal_points(s: SignalView) -> nat {
    base_score(s.confidence) + kind_bonus(s.kind)
}

/// A recommendation strengthened by one more signal.
pub open spec fn absorb(b: RecView, s: SignalView) -> RecView {
    RecView {
        command: b.command,
        rank: if rank_of(s.confidence) > b.rank {
            rank_of(s.confidence)
        } else {
            b.rank
        },
        score: b.score + signal_points(s),
        test_files: match s.test_file {
            Some(t) => set_insert(b.test_files, t),
            None => b.test_files,
        },
        changed_files: set_insert(b.changed_files, s.changed_file),
        reasons: set_insert(b.reasons, s.reason),
        kinds: set_insert(b.kinds, s.kind),
    }
}

/// The position of the recommendation for `c`.
pub open spec fn position_of(bs: Seq<RecView>, c: Seq<char>) -> Option<int>
    decreases bs.len(),
{
    if bs.len() == 0 {
        None
    } else if bs[0].command == c {
        Some(0)
    } else {
        match position_of(bs.drop_first(), c) {
            Some(k) => Some(k + 1),
            None => None,
        }
    }
}

/// The recommendations gathered from the signals, one per command, in order
/// of first appearance; signals without a command are passed over.
pub open spec fn aggregate(signals: Seq<SignalView>) -> Seq<RecView>
    decreases signals.len(),
{
    if signals.len() == 0 {
        Seq::empty()
    } else {
        let bs = aggregate(signals.drop_last());
        let s = signals.last();
        match s.command {
            Some(c) => match position_of(bs, c) {
                Some(k) => bs.update(k, absorb(bs[k], s)),
                None => bs.push(absorb(fresh_rec(c), s)),
            },
            None => bs,
        }
    }
}

/// The summed points of the signals with command `c`.
pub open spec fn command_score(signals: Seq<SignalView>, c: Seq<char>) -> nat
    decreases signals.len(),
{
    if signals.len() == 0 {
        0
    } else {
        command_score(signals.drop_last(), c) + if signals.last().command == Some(c) {
            signal_points(signals.last())
        } else {
            0
        }
    }
}

/// Whether some recommendation is for command `c`.
pub open spec fn has_command(bs: Seq<RecView>, c: Seq<char>) -> bool {
    exists|k: int| 0 <= k < bs.len() && (#[trigger] bs[k]).command == c
}

/// Whether some signal carries command `c`.
pub open spec fn carries_command(signals: Seq<SignalView>, c: Seq<char>) -> bool {
    exists|i: int| 0 <= i < signals.len() && (#[trigger] signals[i]).command == Some(c)
}

/// The recommendations' commands are distinct.
pub open spec fn distinct_commands(bs: Seq<RecView>) -> bool {
    forall|i: int, j: int| 0 <= i < j < bs.len() ==> (#[trigger] bs[i]).command != (#[trigger] bs[j]).command
}

/// The position found is the one entry with that command.
pub proof fn lemma_position_of(bs: Seq<RecView>, c: Seq<char>)
    ensures
        match position_of(bs, c) {
            Some(k) => 0 <= k < bs.len() && bs[k].command == c && forall|j: int|
                0 <= j < k ==> (#[trigger] bs[j]).command != c,
            None => forall|j: int| 0 <= j < bs.len() ==> (#[trigger] bs[j]).command != c,
        },
    decreases bs.len(),
{
    if bs.len() > 0 {
        lemma_position_of(bs.drop_first(), c);
        if bs[0].command != c {
            match position_of(bs.drop_first(), c) {
                Some(k) => {
                    assert forall|j: int| 0 <= j < k + 1 implies (#[trigger] bs[j]).command != c by {
                        if j > 0 {
                            assert(bs[j] == bs.drop_first()[j - 1]);
                        }
                    }
                },
                None => {
                    assert forall|j: int| 0 <= j < bs.len() implies (#[trigger] bs[j]).command != c by {
                        if j > 0 {
                            assert(bs[j] == bs.drop_first()[j - 1]);
                        }
                    }
                },
            }
        }
    }
}

/// Gathering keeps one recommendation per command; each one's score is the
/// sum of its signals' points and its lists are ascending; and a command has a
/// recommendation exactly when some signal carries it.
pub proof fn lemma_aggregate(signals: Seq<SignalView>)
    ensures
        distinct_commands(aggregate(signals)),
        forall|k: int|
            0 <= k < aggregate(signals).len() ==> (#[trigger] aggregate(signals)[k]).score
                == command_score(signals, aggregate(signals)[k].command),
        forall|k: int|
            0 <= k < aggregate(signals).len() ==> strictly_ascending(
                (#[trigger] aggregate(signals)[k]).test_files,
            ) && strictly_ascending(aggregate(signals)[k].changed_files) && strictly_ascending(
                aggregate(signals)[k].reasons,
            ) && strictly_ascending(aggregate(signals)[k].kinds),
        forall|c: Seq<char>|
            #![trigger position_of(aggregate(signals), c)]
            position_of(aggregate(signals), c) is None ==> command_score(signals, c) == 0,
        forall|c: Seq<char>|
            #[trigger] has_command(aggregate(signals), c) <==> carries_command(signals, c),
    decreases signals.len(),
{
    if signals.len() > 0 {
        let prev_s = signals.drop_last();
        lemma_aggregate(prev_s);
        let bs = aggregate(prev_s);
        let s = signals.last();
        let r = aggregate(signals);
        assert forall|c: Seq<char>|
            #[trigger] carries_command(signals, c) <==> (carries_command(prev_s, c) || s.command == Some(c)) by {
            if exists|i: int| 0 <= i < signals.len() && (#[trigger] signals[i]).command == Some(c) {
                let i = choose|i: int| 0 <= i < signals.len() && (#[trigger] signals[i]).command == Some(c);
                if i < prev_s.len() {
                    assert(prev_s[i] == signals[i]);
                }
            }
            if exists|i: int| 0 <= i < prev_s.len() && (#[trigger] prev_s[i]).command == Some(c) {
                let i = choose|i: int| 0 <= i < prev_s.len() && (#[trigger] prev_s[i]).command == Some(c);
                assert(signals[i] == prev_s[i]);
            }
            if s.command == Some(c) {
                assert(signals[signals.len() - 1] == s);
            }
        }
        match s.command {
            Some(c) => {
                lemma_position_of(bs, c);
                match position_of(bs, c) {
                    Some(k) => {
                        let b = bs[k];
                        lemma_set_insert(b.changed_files, s.changed_file);
                        lemma_set_insert(b.reasons, s.reason);
                        lemma_set_insert(b.kinds, s.kind);
                        match s.test_file {
                            Some(t) => lemma_set_insert(b.test_files, t),
                            None => {},
                        }
                        assert forall|c2: Seq<char>|
                            #![trigger position_of(r, c2)]
                            position_of(r, c2) is None implies command_score(signals, c2) == 0 by {
                            lemma_position_of(r, c2);
                            lemma_position_of(bs, c2);
                            if position_of(bs, c2) is Some {
                                let k2 = position_of(bs, c2)->0;
                                assert(r[k2].command == c2);
                            }
                        }
                        assert forall|c2: Seq<char>|
                            #[trigger] has_command(r, c2) <==> has_command(bs, c2) by {
                            if exists|k2: int| 0 <= k2 < r.len() && r[k2].command == c2 {
                                let k2 = choose|k2: int| 0 <= k2 < r.len() && r[k2].command == c2;
                                assert(bs[k2].command == c2);
                            }
                            if exists|k2: int| 0 <= k2 < bs.len() && bs[k2].command == c2 {
                                let k2 = choose|k2: int| 0 <= k2 < bs.len() && bs[k2].command == c2;
                                assert(r[k2].command == c2);
                            }
                        }
                    },
                    None => {
                        let b = fresh_rec(c);
                        lemma_set_insert(b.changed_files, s.changed_file);
                        lemma_set_insert(b.reasons, s.reason);
                        lemma_set_insert(b.kinds, s.kind);
                        match s.test_file {
                            Some(t) => lemma_set_insert(b.test_files, t),
                            None => {},
                        }
                        assert(command_score(prev_s, c) == 0);
                        assert forall|c2: Seq<char>|
                            #![trigger position_of(r, c2)]
                            position_of(r, c2) is None implies command_score(signals, c2) == 0 by {
                            lemma_position_of(r, c2);
                            lemma_position_of(bs, c2);
                            assert(r[r.len() - 1].command == c);
                            if position_of(bs, c2) is Some {
                                let k2 = position_of(bs, c2)->0;
                                assert(r[k2].command == c2);
                            }
                        }
                        assert forall|c2: Seq<char>|
                            #[trigger] has_command(r, c2) <==> (has_command(bs, c2) || c2 == c) by {
                            if exists|k2: int| 0 <= k2 < r.len() && r[k2].command == c2 {
                                let k2 = choose|k2: int| 0 <= k2 < r.len() && r[k2].command == c2;
                                if k2 < bs.len() {
                                    assert(bs[k2].command == c2);
                                }
                            }
                            if exists|k2: int| 0 <= k2 < bs.len() && bs[k2].command == c2 {
                                let k2 = choose|k2: int| 0 <= k2 < bs.len() && bs[k2].command == c2;
                                assert(r[k2].command == c2);
                            }
                            if c2 == c {
                                assert(r[bs.len() as int].command == c);
                            }
                        }
                    },
                }
            },
            None => {},
        }
    }
}

/// Scores accumulated over a prefix of the signals never exceed the total.
pub proof fn lemma_command_score_prefix(signals: Seq<SignalView>, c: Seq<char>, n: int)
    requires
        0 <= n <= signals.len(),
    ensures
        command_score(signals.take(n), c) <= command_score(signals, c),
    decreases signals.len(),
{
    if n < signals.len() {
        assert(signals.take(n) =~= signals.drop_last().take(n));
        lemma_command_score_prefix(signals.drop_last(), c, n);
    } else {
        assert(signals.take(n) =~= signals);
    }
}

/// Whether recommendation `a` ranks before `b`: higher score first, then
/// higher confidence, then command in ascending order.
pub open spec fn rec_before(a: RecView, b: RecView) -> bool {
    a.score > b.score || (a.score == b.score && (a.rank > b.rank || (a.rank == b.rank && lex_lt(
        a.command,
        b.command,
    ))))
}

/// `x` placed before the first entry it ranks before.
pub open spec fn insert_rec(x: RecView, s: Seq<RecView>) -> Seq<RecView>
    decreases s.len(),
{
    if s.len() == 0 {
        seq![x]
    } else if rec_before(x, s[0]) {
        seq![x] + s
    } else {
        seq![s[0]] + insert_rec(x, s.drop_first())
    }
}

/// The recommendations in rank order.
pub open spec fn sort_recs(bs: Seq<RecView>) -> Seq<RecView>
    decreases bs.len(),
{
    if bs.len() == 0 {
        Seq::empty()
    } else {
        insert_rec(bs.last(), sort_recs(bs.drop_last()))
    }
}

proof fn lemma_insert_rec_at(x: RecView, s: Seq<RecView>, p: int)
    requires
        0 <= p <= s.len(),
        forall|k: int| 0 <= k < p ==> !rec_before(x, #[trigger] s[k]),
        p < s.len() ==> rec_before(x, s[p]),
    ensures
        insert_rec(x, s) == s.insert(p, x),
    decreases s.len(),
{
    if s.len() == 0 {
        assert(s.insert(p, x) =~= seq![x]);
    } else if p == 0 {
        assert(s.insert(0, x) =~= seq![x] + s);
    } else {
        lemma_insert_rec_at(x, s.drop_first(), p - 1);
        assert(s.insert(p, x) =~= seq![s[0]] + s.drop_first().insert(p - 1, x));
    }
}

/// A recommendation being gathered.
struct RecommendationBuilder {
    command: String,
    confidence_rank: u8,
    score: u32,
    test_files: Vec<String>,
    changed_files: Vec<String>,
    reasons: Vec<String>,
    signal_kinds: Vec<String>,
}

spec fn builder_view(b: RecommendationBuilder) -> RecView {
    RecView {
        command: b.command@,
        rank: b.confidence_rank as nat,
        score: b.score as nat,
        test_files: views(b.test_files@),
        changed_files: views(b.changed_files@),
        reasons: views(b.reasons@),
        kinds: views(b.signal_kinds@),
    }
}

spec fn builder_views(bs: Seq<RecommendationBuilder>) -> Seq<RecView> {
    bs.map_values(|b: RecommendationBuilder| builder_view(b))
}

/// A test command to run, with the evidence behind it.
#[derive(Debug, Clone)]
pub struct Recommendation {
    pub command: String,
    pub confidence: String,
    pub score: u32,
    pub test_files: Vec<String>,
    pub changed_files: Vec<String>,
    pub reasons: Vec<String>,
    pub signal_kinds: Vec<String>,
}

/// A recommendation by its views.
pub struct RecommendationView {
    pub command: Seq<char>,
    pub confidence: Seq<char>,
    pub score: nat,
    pub test_files: Seq<Seq<char>>,
    pub changed_files: Seq<Seq<char>>,
    pub reasons: Seq<Seq<char>>,
    pub signal_kinds: Seq<Seq<char>>,
}

/// The view of a recommendation.
pub open spec fn recommendation_view(r: Recommendation) -> RecommendationView {
    RecommendationView {
        command: r.command@,
        confidence: r.confidence@,
        score: r.score as nat,
        test_files: views(r.test_files@),
        changed_files: views(r.changed_files@),
        reasons: views(r.reasons@),
        signal_kinds: views(r.signal_kinds@),
    }
}

/// The views of a list of recommendations.
pub open spec fn recommendation_views(rs: Seq<Recommendation>) -> Seq<RecommendationView> {
    rs.map_values(|r: Recommendation| recommendation_view(r))
}

/// A gathered recommendation with its rank turned into a label.
pub open spec fn finish(b: RecView) -> RecommendationView {
    RecommendationView {
        command: b.command,
        confidence: label_of(b.rank),
        score: b.score,
        test_files: b.test_files,
        changed_files: b.changed_files,
        reasons: b.reasons,
        signal_kinds: b.kinds,
    }
}

/// The ranked recommendations of a list of signals.
pub open spec fn recommendations_of(signals: Seq<SignalView>) -> Seq<RecommendationView> {
    sort_recs(aggregate(signals)).map_values(|b: RecView| finish(b))
}

/// Every command's summed points fit in a `u32`.
pub open spec fn scores_fit(signals: Seq<SignalView>) -> bool {
    forall|c: Seq<char>| #[trigger] command_score(signals, c) <= u32::MAX
}

/// Strengthen a recommendation with one more signal.
fn absorb_signal(b: &mut RecommendationBuilder, s: &Signal)
    requires
        old(b).score + signal_points(signal_view(*s)) <= u32::MAX,
    ensures
        builder_view(*final(b)) == absorb(builder_view(*old(b)), signal_view(*s)),
{
    let rank = confidence_rank(s.confidence.as_str());
    if rank > b.confidence_rank {
        b.confidence_rank = rank;
    }
    b.score = b.score + confidence_score(s.confidence.as_str()) + signal_score(s.kind.as_str());
    insert_text(&mut b.changed_files, s.changed_file.as_str());
    insert_text(&mut b.reasons, s.reason.as_str());
    insert_text(&mut b.signal_kinds, s.kind.as_str());
    match &s.test_file {
        Some(t) => insert_text(&mut b.test_files, t.as_str()),
        None => {},
    }
}

/// The position of the builder for `command`.
fn find_builder(bs: &Vec<RecommendationBuilder>, command: &str) -> (r: Option<usize>)
    ensures
        match r {
            Some(k) => position_of(builder_views(bs@), command@) == Some(k as int),
            None => position_of(builder_views(bs@), command@) is None,
        },
{
    let ghost bv = builder_views(bs@);
    proof {
        lemma_position_of(bv, command@);
    }
    let mut i: usize = 0;
    while i < bs.len()
        invariant
            i <= bs@.len(),
            bv == builder_views(bs@),
            forall|j: int| 0 <= j < i ==> (#[trigger] bv[j]).command != command@,
        decreases bs@.len() - i,
    {
        assert(bv[i as int] == builder_view(bs@[i as int]));
        if same_text(bs[i].command.as_str(), command) {
            proof {
                lemma_position_of(bv, command@);
                match position_of(bv, command@) {
                    Some(k) => {
                        if k < i {
                            assert(bv[k].command != command@);
                        }
                        if k > i {
                            assert(bv[i as int].command == command@);
                        }
                    },
                    None => {
                        assert(bv[i as int].command == command@);
                    },
                }
            }
            return Some(i);
        }
        i = i + 1;
    }
    proof {
        lemma_position_of(bv, command@);
        match position_of(bv, command@) {
            Some(k) => {
                assert(bv[k].command != command@);
            },
            None => {},
        }
    }
    None
}

/// Gather the signals into one builder per command.
fn gather(signals: &Vec<Signal>) -> (r: Vec<RecommendationBuilder>)
    requires
        scores_fit(signal_views(signals@)),
    ensures
        builder_views(r@) == aggregate(signal_views(signals@)),
{
    let ghost sv = signal_views(signals@);
    let mut bs: Vec<RecommendationBuilder> = Vec::new();
    let mut i: usize = 0;
    assert(sv.take(0) =~= Seq::<SignalView>::empty());
    assert(builder_views(bs@) =~= Seq::<RecView>::empty());
    while i < signals.len()
        invariant
            i <= signals@.len(),
            sv == signal_views(signals@),
            scores_fit(sv),
            builder_views(bs@) == aggregate(sv.take(i as int)),
        decreases signals@.len() - i,
    {
        let s = &signals[i];
        let ghost pre = sv.take(i as int);
        let ghost sview = signal_view(*s);
        assert(sv.take(i + 1).drop_last() =~= pre);
        assert(sv.take(i + 1).last() == sview);
        assert(sv[i as int] == sview);
        match &s.command {
            Some(c) => {
                proof {
                    lemma_aggregate(pre);
                    lemma_aggregate(sv.take(i + 1));
                    lemma_command_score_prefix(sv, c@, i + 1);
                }
                let found = find_builder(&bs, c.as_str());
                proof {
                    lemma_position_of(builder_views(bs@), c@);
                }
                match found {
                    Some(k) => {
                        let ghost old_bs = builder_views(bs@);
                        assert(old_bs[k as int].score == command_score(pre, c@));
                        assert(command_score(sv.take(i + 1), c@) == command_score(pre, c@)
                            + signal_points(sview));
                        let mut b = bs.remove(k);
                        absorb_signal(&mut b, s);
                        bs.insert(k, b);
                        assert(builder_views(bs@) =~= old_bs.update(k as int, absorb(old_bs[k as int], sview)));
                    },
                    None => {
                        let ghost old_bs = builder_views(bs@);
                        assert(command_score(pre, c@) == 0);
                        assert(command_score(sv.take(i + 1), c@) == signal_points(sview));
                        let mut b = RecommendationBuilder {
                            command: owned(c.as_str()),
                            confidence_rank: 0,
                            score: 0,
                            test_files: Vec::new(),
                            changed_files: Vec::new(),
                            reasons: Vec::new(),
                            signal_kinds: Vec::new(),
                        };
                        assert(views(b.test_files@) =~= Seq::<Seq<char>>::empty());
                        assert(views(b.changed_files@) =~= Seq::<Seq<char>>::empty());
                        assert(views(b.reasons@) =~= Seq::<Seq<char>>::empty());
                        assert(views(b.signal_kinds@) =~= Seq::<Seq<char>>::empty());
                        assert(builder_view(b) == fresh_rec(c@));
                        absorb_signal(&mut b, s);
                        bs.push(b);
                        assert(builder_views(bs@) =~= old_bs.push(absorb(fresh_rec(c@), sview)));
                    },
                }
            },
            None => {},
        }
        i = i + 1;
    }
    assert(sv.take(signals@.len() as int) =~= sv);
    bs
}

/// Whether builder `a` ranks before builder `b`.
fn ranks_before(a: &RecommendationBuilder, b: &RecommendationBuilder) -> (r: bool)
    ensures
        r == rec_before(builder_view(*a), builder_view(*b)),
{
    a.score > b.score || (a.score == b.score && (a.confidence_rank > b.confidence_rank || (
    a.confidence_rank == b.confidence_rank && lex_less(a.command.as_str(), b.command.as_str()))))
}

/// Order the builders by rank.
fn rank_builders(bs: Vec<RecommendationBuilder>) -> (r: Vec<RecommendationBuilder>)
    ensures
        builder_views(r@) == sort_recs(builder_views(bs@)),
{
    let ghost bv = builder_views(bs@);
    let mut sorted: Vec<RecommendationBuilder> = Vec::new();
    let mut rest = bs;
    let mut i: usize = 0;
    let n = rest.len();
    assert(bv.take(0) =~= Seq::<RecView>::empty());
    assert(builder_views(sorted@) =~= Seq::<RecView>::empty());
    // Reverse the builders, so that popping yields them in order.
    let mut rev: Vec<RecommendationBuilder> = Vec::new();
    while rest.len() > 0
        invariant
            rev@.len() + rest@.len() == n,
            n == bv.len(),
            builder_views(rest@) == bv.take(rest@.len() as int),
            forall|k: int| 0 <= k < rev@.len() ==> builder_view(#[trigger] rev@[k]) == bv[n - 1 - k],
        decreases rest@.len(),
    {
        let ghost before = rest@;
        let b = rest.pop().unwrap();
        proof {
            assert(builder_views(rest@) =~= builder_views(before).drop_last());
            assert(builder_view(b) == builder_views(before).last());
            assert(bv.take(before.len() - 1) =~= bv.take(before.len() as int).drop_last());
        }
        rev.push(b);
    }
    while i < n
        invariant
            i <= n,
            rev@.len() == n - i,
            n == bv.len(),
            forall|k: int| 0 <= k < rev@.len() ==> builder_view(#[trigger] rev@[k]) == bv[n - 1 - k],
            builder_views(sorted@) == sort_recs(bv.take(i as int)),
        decreases n - i,
    {
        let x = rev.pop().unwrap();
        assert(builder_view(x) == bv[i as int]);
        assert(bv.take(i + 1).drop_last() =~= bv.take(i as int));
        let ghost s0 = builder_views(sorted@);
        let mut p: usize = 0;
        while p < sorted.len() && !ranks_before(&x, &sorted[p])
            invariant
                p <= sorted@.len(),
                s0 == builder_views(sorted@),
                forall|k: int| 0 <= k < p ==> !rec_before(builder_view(x), #[trigger] s0[k]),
            decreases sorted@.len() - p,
        {
            p = p + 1;
        }
        proof {
            lemma_insert_rec_at(builder_view(x), s0, p as int);
        }
        let ghost xv = builder_view(x);
        sorted.insert(p, x);
        assert(builder_views(sorted@) =~= s0.insert(p as int, xv));
        i = i + 1;
    }
    assert(bv.take(n as int) =~= bv);
    sorted
}

/// Turn a builder into its recommendation.
fn finish_builder(b: RecommendationBuilder) -> (r: Recommendation)
    ensures
        recommendation_view(r) == finish(builder_view(b)),
{
    let label = confidence_label(b.confidence_rank);
    Recommendation {
        command: b.command,
        confidence: owned(label),
        score: b.score,
        test_files: b.test_files,
        changed_files: b.changed_files,
        reasons: b.reasons,
        signal_kinds: b.signal_kinds,
    }
}

/// Collapse signals into recommendations: one per distinct command, its
/// score the sum of its signals' points, its confidence the highest among
/// them, its lists the ascending distinct test files, changed files, reasons
/// and kinds; ranked by score, then confidence, then command.
pub fn build_recommendations(signals: &Vec<Signal>) -> (r: Vec<Recommendation>)
    requires
        scores_fit(signal_views(signals@)),
    ensures
        recommendation_views(r@) == recommendations_of(signal_views(signals@)),
{
    let gathered = gather(signals);
    let mut ranked = rank_builders(gathered);
    let ghost rv = builder_views(ranked@);
    let n = ranked.len();
    let mut rev: Vec<Recommendation> = Vec::new();
    while ranked.len() > 0
        invariant
            rev@.len() + ranked@.len() == n,
            n == rv.len(),
            builder_views(ranked@) == rv.take(ranked@.len() as int),
            forall|k: int|
                0 <= k < rev@.len() ==> recommendation_view(#[trigger] rev@[k]) == finish(
                    rv[n - 1 - k],
                ),
        decreases ranked@.len(),
    {
        let ghost before = ranked@;
        let b = ranked.pop().unwrap();
        proof {
            assert(builder_views(ranked@) =~= builder_views(before).drop_last());
            assert(builder_view(b) == builder_views(before).last());
            assert(rv.take(before.len() - 1) =~= rv.take(before.len() as int).drop_last());
        }
        rev.push(finish_builder(b));
    }
    let mut out: Vec<Recommendation> = Vec::new();
    let ghost fin = rv.map_values(|b: RecView| finish(b));
    while rev.len() > 0
        invariant
            out@.len() + rev@.len() == n,
            n == rv.len(),
            fin == rv.map_values(|b: RecView| finish(b)),
            forall|k: int|
                0 <= k < rev@.len() ==> recommendation_view(#[trigger] rev@[k]) == finish(
                    rv[n - 1 - k],
                ),
            recommendation_views(out@) == fin.take(out@.len() as int),
        decreases rev@.len(),
    {
        let ghost j: int = out@.len() as int;
        let r = rev.pop().unwrap();
        assert(recommendation_view(r) == fin[j as int]);
        let ghost prev = recommendation_views(out@);
        out.push(r);
        assert(recommendation_views(out@) =~= prev.push(recommendation_view(r)));
        assert(fin.take(j + 1) =~= fin.take(j as int).push(fin[j as int]));
    }
    assert(fin.take(n as int) =~= fin);
    out
}

/// A changed file without a targeted test.
#[derive(Debug, Clone)]
pub struct CoverageGap {
    pub changed_file: String,
    pub reason: String,
}

/// The reason given for every coverage gap.
pub const GAP_REASON: &'static str = "No targeted test file found; using project-level fallback if available";

/// Whether some signal ties `f` to a test file.
pub open spec fn has_targeted_test(signals: Seq<SignalView>, f: Seq<char>) -> bool {
    exists|k: int|
        0 <= k < signals.len() && (#[trigger] signals[k]).changed_file == f && signals[k].test_file is Some
}

/// The coverage gaps: each changed file that no signal ties to a test
/// file, in order, as `(changed_file, reason)`.
pub open spec fn gaps_of(files: Seq<Seq<char>>, signals: Seq<SignalView>) -> Seq<(Seq<char>, Seq<char>)> {
    files.filter(|f: Seq<char>| !has_targeted_test(signals, f)).map_values(
        |f: Seq<char>| (f, GAP_REASON@),
    )
}

/// The view of a coverage gap.
pub open spec fn gap_view(g: CoverageGap) -> (Seq<char>, Seq<char>) {
    (g.changed_file@, g.reason@)
}

/// Whether some signal ties `f` to a test file.
fn targeted(signals: &Vec<Signal>, f: &str) -> (r: bool)
    ensures
        r == has_targeted_test(signal_views(signals@), f@),
{
    let ghost sv = signal_views(signals@);
    let mut i: usize = 0;
    while i < signals.len()
        invariant
            i <= signals@.len(),
            sv == signal_views(signals@),
            forall|k: int|
                0 <= k < i ==> !((#[trigger] sv[k]).changed_file == f@ && sv[k].test_file is Some),
        decreases signals@.len() - i,
    {
        assert(sv[i as int] == signal_view(signals@[i as int]));
        if same_text(signals[i].changed_file.as_str(), f) && signals[i].test_file.is_some() {
            return true;
        }
        i = i + 1;
    }
    false
}

/// The changed files that no signal ties to a test file.
pub fn build_coverage_gaps(result: &AnalysisResult) -> (r: Vec<CoverageGap>)
    ensures
        r@.map_values(|g: CoverageGap| gap_view(g)) == gaps_of(
            views(result.changed_files@),
            signal_views(result.signals@),
        ),
{
    let ghost fv = views(result.changed_files@);
    let ghost sv = signal_views(result.signals@);
    let ghost keep = |f: Seq<char>| !has_targeted_test(sv, f);
    let ghost mk = |f: Seq<char>| (f, GAP_REASON@);
    let ghost gv = |g: CoverageGap| gap_view(g);
    let mut gaps: Vec<CoverageGap> = Vec::new();
    let mut i: usize = 0;
    assert(fv.take(0) =~= Seq::<Seq<char>>::empty());
    while i < result.changed_files.len()
        invariant
            i <= result.changed_files@.len(),
            fv == views(result.changed_files@),
            sv == signal_views(result.signals@),
            keep == (|f: Seq<char>| !has_targeted_test(sv, f)),
            mk == (|f: Seq<char>| (f, GAP_REASON@)),
            gv == (|g: CoverageGap| gap_view(g)),
            gaps@.map_values(gv) == fv.take(i as int).filter(keep).map_values(mk),
        decreases result.changed_files@.len() - i,
    {
        let f = result.changed_files[i].as_str();
        assert(fv.take(i + 1) =~= fv.take(i as int).push(f@));
        proof {
            fv.take(i as int).lemma_filter_push(f@, keep);
        }
        if !targeted(&result.signals, f) {
            let ghost prev = gaps@.map_values(gv);
            let g = CoverageGap { changed_file: owned(f), reason: owned(GAP_REASON) };
            gaps.push(g);
            proof {
                fv.take(i as int).filter(keep).lemma_push_map_commute(mk, f@);
            }
            assert(gaps@.map_values(gv) =~= prev.push(gap_view(g)));
        }
        i = i + 1;
    }
    assert(fv.take(result.changed_files@.len() as int) =~= fv);
    gaps
}

/// The strings joined with `sep` between them.
pub open spec fn join(items: Seq<Seq<char>>, sep: Seq<char>) -> Seq<char>
    decreases items.len(),
{
    if items.len() == 0 {
        Seq::empty()
    } else if items.len() == 1 {
        items[0]
    } else {
        join(items.drop_last(), sep) + sep + items.last()
    }
}

/// The strings of `items` joined with `sep`.
pub fn join_texts(items: &Vec<String>, sep: &str) -> (r: String)
    ensures
        r@ == join(views(items@), sep@),
{
    let mut out = String::new();
    let mut i: usize = 0;
    assert(views(items@).take(0) =~= Seq::<Seq<char>>::empty());
    while i < items.len()
        invariant
            i <= items@.len(),
            out@ == join(views(items@).take(i as int), sep@),
        decreases items@.len() - i,
    {
        assert(views(items@).take(i + 1).drop_last() =~= views(items@).take(i as int));
        assert(views(items@).take(i + 1).last() == items@[i as int]@);
        if i > 0 {
            out.append(sep);
        } else {
            assert(views(items@).take(1)[0] == items@[0]@);
            assert(out@ =~= Seq::<char>::empty());
        }
        out.append(items[i].as_str());
        assert(out@ =~= join(views(items@).take(i + 1), sep@));
        i = i + 1;
    }
    assert(views(items@).take(items@.len() as int) =~= views(items@));
    out
}

/// One line per reason.
pub open spec fn reason_lines(reasons: Seq<Seq<char>>) -> Seq<char>
    decreases reasons.len(),
{
    if reasons.len() == 0 {
        Seq::empty()
    } else {
        reason_lines(reasons.drop_last()) + "      reason: "@ + reasons.last() + "\n"@
    }
}

/// The text block of one recommendation.
pub open spec fn recommendation_block(r: RecommendationView) -> Seq<char> {
    "    ["@ + r.confidence + " score="@ + decimal(r.score) + "] "@ + r.command + "\n"@ + (if r.test_files.len()
        > 0 {
        "      tests: "@ + join(r.test_files, ", "@) + "\n"@
    } else {
        Seq::empty()
    }) + (if r.changed_files.len() > 0 {
        "      changes: "@ + join(r.changed_files, ", "@) + "\n"@
    } else {
        Seq::empty()
    }) + reason_lines(r.reasons)
}

/// The blocks of all recommendations.
pub open spec fn recommendation_blocks(rs: Seq<RecommendationView>) -> Seq<char>
    decreases rs.len(),
{
    if rs.len() == 0 {
        Seq::empty()
    } else {
        recommendation_blocks(rs.drop_last()) + recommendation_block(rs.last())
    }
}

/// One line per coverage gap.
pub open spec fn gap_lines(gaps: Seq<(Seq<char>, Seq<char>)>) -> Seq<char>
    decreases gaps.len(),
{
    if gaps.len() == 0 {
        Seq::empty()
    } else {
        gap_lines(gaps.drop_last()) + "    "@ + gaps.last().0 + ": "@ + gaps.last().1 + "\n"@
    }
}

/// The report's heading.
pub open spec fn report_head(changed: nat) -> Seq<char> {
    "sieve: "@ + decimal(changed) + " changed file(s)\n"@ + "\n"@
}

/// The report's recommendation section.
pub open spec fn report_recommendations(recs: Seq<RecommendationView>) -> Seq<char> {
    if recs.len() == 0 {
        "  No test recommendations found.\n"@
    } else {
        "  Recommendations:\n"@ + recommendation_blocks(recs)
    }
}

/// The report's coverage-gap section.
pub open spec fn report_gaps(gaps: Seq<(Seq<char>, Seq<char>)>) -> Seq<char> {
    if gaps.len() > 0 {
        "\n"@ + "  Coverage gaps:\n"@ + gap_lines(gaps)
    } else {
        Seq::empty()
    }
}

/// The report's full-validation line.
pub open spec fn report_full(full: Option<Seq<char>>) -> Seq<char> {
    match full {
        Some(c) => "\n"@ + "  Full validation: `"@ + c + "`\n"@,
        None => Seq::empty(),
    }
}

/// The report's raw-signal count.
pub open spec fn report_signal_count(signals: nat) -> Seq<char> {
    if signals > 0 {
        "\n"@ + "  Raw signals: "@ + decimal(signals) + "\n"@
    } else {
        Seq::empty()
    }
}

/// The text report.
pub open spec fn text_report(
    changed: nat,
    recs: Seq<RecommendationView>,
    gaps: Seq<(Seq<char>, Seq<char>)>,
    full: Option<Seq<char>>,
    signals: nat,
) -> Seq<char> {
    report_head(changed) + report_recommendations(recs) + report_gaps(gaps) + report_full(full)
        + report_signal_count(signals)
}

/// The text report: the heading with the number of changed files; the
/// recommendations, each as a line `[confidence score=N] command` followed
/// by its tests, changes and reasons, or a line saying there are none; the
/// coverage gaps, when there are any; the full-validation command, when
/// there is one; and the number of raw signals, when there are any.
pub proof fn law_text_report(
    changed: nat,
    recs: Seq<RecommendationView>,
    gaps: Seq<(Seq<char>, Seq<char>)>,
    full: Option<Seq<char>>,
    signals: nat,
    r: RecommendationView,
)
    ensures
        text_report(changed, recs, gaps, full, signals) == "sieve: "@ + decimal(changed)
            + " changed file(s)\n\n"@ + (if recs.len() == 0 {
            "  No test recommendations found.\n"@
        } else {
            "  Recommendations:\n"@ + recommendation_blocks(recs)
        }) + (if gaps.len() > 0 {
            "\n  Coverage gaps:\n"@ + gap_lines(gaps)
        } else {
            Seq::empty()
        }) + (match full {
            Some(c) => "\n  Full validation: `"@ + c + "`\n"@,
            None => Seq::empty(),
        }) + (if signals > 0 {
            "\n  Raw signals: "@ + decimal(signals) + "\n"@
        } else {
            Seq::empty()
        }),
        recommendation_block(r) == "    ["@ + r.confidence + " score="@ + decimal(r.score) + "] "@ + r.command
            + "\n"@ + (if r.test_files.len() > 0 {
            "      tests: "@ + join(r.test_files, ", "@) + "\n"@
        } else {
            Seq::empty()
        }) + (if r.changed_files.len() > 0 {
            "      changes: "@ + join(r.changed_files, ", "@) + "\n"@
        } else {
            Seq::empty()
        }) + reason_lines(r.reasons),
{
    reveal_strlit("\n");
    reveal_strlit("\n\n");
    reveal_strlit(" changed file(s)\n");
    reveal_strlit(" changed file(s)\n\n");
    reveal_strlit("  Coverage gaps:\n");
    reveal_strlit("\n  Coverage gaps:\n");
    reveal_strlit("  Full validation: `");
    reveal_strlit("\n  Full validation: `");
    reveal_strlit("  Raw signals: ");
    reveal_strlit("\n  Raw signals: ");
    assert(" changed file(s)\n"@ + "\n"@ =~= " changed file(s)\n\n"@);
    assert("\n"@ + "  Coverage gaps:\n"@ =~= "\n  Coverage gaps:\n"@);
    assert("\n"@ + "  Full validation: `"@ =~= "\n  Full validation: `"@);
    assert("\n"@ + "  Raw signals: "@ =~= "\n  Raw signals: "@);
    let d = decimal(changed);
    assert("sieve: "@ + d + " changed file(s)\n"@ + "\n"@ =~= "sieve: "@ + d + " changed file(s)\n\n"@);
    match full {
        Some(c) => {
            assert("\n"@ + "  Full validation: `"@ + c + "`\n"@ =~= "\n  Full validation: `"@ + c + "`\n"@);
        },
        None => {},
    }
    if gaps.len() > 0 {
        assert("\n"@ + "  Coverage gaps:\n"@ + gap_lines(gaps) =~= "\n  Coverage gaps:\n"@ + gap_lines(gaps));
    }
    if signals > 0 {
        let e = decimal(signals);
        assert("\n"@ + "  Raw signals: "@ + e + "\n"@ =~= "\n  Raw signals: "@ + e + "\n"@);
    }
}

/// Append `piece` to `out`.
fn put(out: &mut String, piece: &str)
    ensures
        final(out)@ == old(out)@ + piece@,
{
    out.append(piece);
}

/// The text block of one recommendation.
fn render_recommendation(r: &Recommendation) -> (t: String)
    ensures
        t@ == recommendation_block(recommendation_view(*r)),
{
    let mut out = String::new();
    put(&mut out, "    [");
    put(&mut out, r.confidence.as_str());
    put(&mut out, " score=");
    put(&mut out, decimal_string(r.score as u64).as_str());
    put(&mut out, "] ");
    put(&mut out, r.command.as_str());
    put(&mut out, "\n");
    let ghost head = out@;
    if r.test_files.len() > 0 {
        put(&mut out, "      tests: ");
        put(&mut out, join_texts(&r.test_files, ", ").as_str());
        put(&mut out, "\n");
    }
    let ghost with_tests = out@;
    if r.changed_files.len() > 0 {
        put(&mut out, "      changes: ");
        put(&mut out, join_texts(&r.changed_files, ", ").as_str());
        put(&mut out, "\n");
    }
    let ghost with_changes = out@;
    let ghost rv = views(r.reasons@);
    let mut i: usize = 0;
    assert(rv.take(0) =~= Seq::<Seq<char>>::empty());
    assert(out@ =~= with_changes + reason_lines(rv.take(0)));
    while i < r.reasons.len()
        invariant
            i <= r.reasons@.len(),
            rv == views(r.reasons@),
            out@ == with_changes + reason_lines(rv.take(i as int)),
        decreases r.reasons@.len() - i,
    {
        assert(rv.take(i + 1).drop_last() =~= rv.take(i as int));
        assert(rv.take(i + 1).last() == r.reasons@[i as int]@);
        put(&mut out, "      reason: ");
        put(&mut out, r.reasons[i].as_str());
        put(&mut out, "\n");
        assert(out@ =~= with_changes + reason_lines(rv.take(i + 1)));
        i = i + 1;
    }
    assert(rv.take(r.reasons@.len() as int) =~= rv);
    assert(out@ =~= recommendation_block(recommendation_view(*r)));
    out
}

/// The recommendation section.
fn render_recommendations(recommendations: &Vec<Recommendation>) -> (t: String)
    ensures
        t@ == report_recommendations(recommendation_views(recommendations@)),
{
    let mut out = String::new();
    if recommendations.len() == 0 {
        put(&mut out, "  No test recommendations found.\n");
    } else {
        put(&mut out, "  Recommendations:\n");
        let ghost base = out@;
        let ghost rv = recommendation_views(recommendations@);
        let mut i: usize = 0;
        assert(rv.take(0) =~= Seq::<RecommendationView>::empty());
        assert(out@ =~= base + recommendation_blocks(rv.take(0)));
        while i < recommendations.len()
            invariant
                i <= recommendations@.len(),
                rv == recommendation_views(recommendations@),
                out@ == base + recommendation_blocks(rv.take(i as int)),
            decreases recommendations@.len() - i,
        {
            assert(rv.take(i + 1).drop_last() =~= rv.take(i as int));
            assert(rv.take(i + 1).last() == recommendation_view(recommendations@[i as int]));
            put(&mut out, render_recommendation(&recommendations[i]).as_str());
            assert(out@ =~= base + recommendation_blocks(rv.take(i + 1)));
            i = i + 1;
        }
        assert(rv.take(recommendations@.len() as int) =~= rv);
    }
    out
}

/// The coverage-gap section.
fn render_gaps(coverage_gaps: &Vec<CoverageGap>) -> (t: String)
    ensures
        t@ == report_gaps(coverage_gaps@.map_values(|g: CoverageGap| gap_view(g))),
{
    let mut out = String::new();
    if coverage_gaps.len() > 0 {
        put(&mut out, "\n");
        put(&mut out, "  Coverage gaps:\n");
        let ghost base = out@;
        let ghost gv = coverage_gaps@.map_values(|g: CoverageGap| gap_view(g));
        let mut i: usize = 0;
        assert(gv.take(0) =~= Seq::<(Seq<char>, Seq<char>)>::empty());
        assert(out@ =~= base + gap_lines(gv.take(0)));
        while i < coverage_gaps.len()
            invariant
                i <= coverage_gaps@.len(),
                gv == coverage_gaps@.map_values(|g: CoverageGap| gap_view(g)),
                out@ == base + gap_lines(gv.take(i as int)),
            decreases coverage_gaps@.len() - i,
        {
            assert(gv.take(i + 1).drop_last() =~= gv.take(i as int));
            assert(gv.take(i + 1).last() == gap_view(coverage_gaps@[i as int]));
            put(&mut out, "    ");
            put(&mut out, coverage_gaps[i].changed_file.as_str());
            put(&mut out, ": ");
            put(&mut out, coverage_gaps[i].reason.as_str());
            put(&mut out, "\n");
            assert(out@ =~= base + gap_lines(gv.take(i + 1)));
            i = i + 1;
        }
        assert(gv.take(coverage_gaps@.len() as int) =~= gv);
    } else {
        assert(out@ =~= Seq::<char>::empty());
    }
    out
}

/// The heading.
fn render_head(changed: usize) -> (t: String)
    ensures
        t@ == report_head(changed as nat),
{
    let mut out = String::new();
    put(&mut out, "sieve: ");
    put(&mut out, decimal_string(changed as u64).as_str());
    put(&mut out, " changed file(s)\n");
    put(&mut out, "\n");
    assert(out@ =~= report_head(changed as nat));
    out
}

/// The closing lines: full validation and the raw-signal count.
fn render_tail(full: &Option<String>, signals: usize) -> (t: String)
    ensures
        t@ == report_full(opt_view(*full)) + report_signal_count(signals as nat),
{
    let mut out = String::new();
    match full {
        Some(c) => {
            put(&mut out, "\n");
            put(&mut out, "  Full validation: `");
            put(&mut out, c.as_str());
            put(&mut out, "`\n");
        },
        None => {},
    }
    let ghost mid = out@;
    assert(mid =~= report_full(opt_view(*full)));
    if signals > 0 {
        put(&mut out, "\n");
        put(&mut out, "  Raw signals: ");
        put(&mut out, decimal_string(signals as u64).as_str());
        put(&mut out, "\n");
    }
    assert(out@ =~= mid + report_signal_count(signals as nat));
    out
}

/// Render the text report of an analysis.
pub fn render_text(
    result: &AnalysisResult,
    recommendations: &Vec<Recommendation>,
    coverage_gaps: &Vec<CoverageGap>,
) -> (t: String)
    ensures
        t@ == text_report(
            result.changed_files@.len(),
            recommendation_views(recommendations@),
            coverage_gaps@.map_values(|g: CoverageGap| gap_view(g)),
            opt_view(result.full_validation_command),
            result.signals@.len(),
        ),
{
    let head = render_head(result.changed_files.len());
    let recs = render_recommendations(recommendations);
    let gaps = render_gaps(coverage_gaps);
    let tail = render_tail(&result.full_validation_command, result.signals.len());
    let mut out = head;
    put(&mut out, recs.as_str());
    put(&mut out, gaps.as_str());
    put(&mut out, tail.as_str());
    assert(out@ =~= text_report(
        result.changed_files@.len(),
        recommendation_views(recommendations@),
        coverage_gaps@.map_values(|g: CoverageGap| gap_view(g)),
        opt_view(result.full_validation_command),
        result.signals@.len(),
    ));
    out
}

/// A command no signal carries has no points.
pub proof fn lemma_command_score_absent(signals: Seq<SignalView>, c: Seq<char>)
    requires
        !carries_command(signals, c),
    ensures
        command_score(signals, c) == 0,
    decreases signals.len(),
{
    if signals.len() > 0 {
        assert(!carries_command(signals.drop_last(), c)) by {
            if carries_command(signals.drop_last(), c) {
                let i = choose|i: int|
                    0 <= i < signals.drop_last().len() && (#[trigger] signals.drop_last()[i]).command
                        == Some(c);
                assert(signals[i] == signals.drop_last()[i]);
            }
        }
        assert(signals.last() == signals[signals.len() - 1]);
        lemma_command_score_absent(signals.drop_last(), c);
    }
}

/// Whether the points of command `c` fit in a `u32`.
fn command_total_fits(signals: &Vec<Signal>, c: &str) -> (r: bool)
    ensures
        r == (command_score(signal_views(signals@), c@) <= u32::MAX),
{
    let ghost sv = signal_views(signals@);
    let mut total: u64 = 0;
    let mut i: usize = 0;
    assert(sv.take(0) =~= Seq::<SignalView>::empty());
    while i < signals.len()
        invariant
            i <= signals@.len(),
            sv == signal_views(signals@),
            total == command_score(sv.take(i as int), c@),
            total <= u32::MAX,
        decreases signals@.len() - i,
    {
        let s = &signals[i];
        assert(sv.take(i + 1).drop_last() =~= sv.take(i as int));
        assert(sv.take(i + 1).last() == signal_view(*s));
        let same = match &s.command {
            Some(x) => same_text(x.as_str(), c),
            None => false,
        };
        if same {
            total = total + confidence_score(s.confidence.as_str()) as u64 + signal_score(s.kind.as_str()) as u64;
            if total > 0xffff_ffffu64 {
                proof {
                    lemma_command_score_prefix(sv, c@, i + 1);
                }
                return false;
            }
        }
        i = i + 1;
    }
    assert(sv.take(signals@.len() as int) =~= sv);
    true
}

/// Whether every command's summed points fit in a `u32`, as
/// `build_recommendations` needs.
pub fn scores_within_limit(signals: &Vec<Signal>) -> (r: bool)
    ensures
        r == scores_fit(signal_views(signals@)),
{
    let ghost sv = signal_views(signals@);
    let mut i: usize = 0;
    while i < signals.len()
        invariant
            i <= signals@.len(),
            sv == signal_views(signals@),
            forall|k: int|
                0 <= k < i ==> match (#[trigger] sv[k]).command {
                    Some(c) => command_score(sv, c) <= u32::MAX,
                    None => true,
                },
        decreases signals@.len() - i,
    {
        assert(sv[i as int] == signal_view(signals@[i as int]));
        match &signals[i].command {
            Some(c) => {
                if !command_total_fits(signals, c.as_str()) {
                    return false;
                }
            },
            None => {},
        }
        i = i + 1;
    }
    assert forall|c: Seq<char>| #[trigger] command_score(sv, c) <= u32::MAX by {
        if carries_command(sv, c) {
            let k = choose|k: int| 0 <= k < sv.len() && (#[trigger] sv[k]).command == Some(c);
            assert(sv[k].command == Some(c));
        } else {
            lemma_command_score_absent(sv, c);
        }
    }
    true
}

/// Every pair of entries is in rank order.
pub open spec fn ranked(s: Seq<RecView>) -> bool {
    forall|i: int, j: int| 0 <= i < j < s.len() ==> rec_before(#[trigger] s[i], #[trigger] s[j])
}

proof fn lemma_rec_before_total(a: RecView, b: RecView)
    requires
        a.command != b.command,
    ensures
        rec_before(a, b) || rec_before(b, a),
{
    lemma_lex_total(a.command, b.command);
}

proof fn lemma_rec_before_transitive(a: RecView, b: RecView, c: RecView)
    requires
        rec_before(a, b),
        rec_before(b, c),
    ensures
        rec_before(a, c),
{
    if a.score == b.score && b.score == c.score && a.rank == b.rank && b.rank == c.rank {
        lemma_lex_transitive(a.command, b.command, c.command);
    }
}

proof fn lemma_insert_rec(x: RecView, s: Seq<RecView>)
    requires
        ranked(s),
        forall|k: int| 0 <= k < s.len() ==> (#[trigger] s[k]).command != x.command,
    ensures
        ranked(insert_rec(x, s)),
        insert_rec(x, s).len() == s.len() + 1,
        forall|y: RecView| #[trigger] insert_rec(x, s).contains(y) <==> (s.contains(y) || y == x),
    decreases s.len(),
{
    let r = insert_rec(x, s);
    if s.len() == 0 {
        assert(r =~= seq![x]);
        assert forall|y: RecView| #[trigger] r.contains(y) <==> (s.contains(y) || y == x) by {
            if r.contains(y) {
                let k = choose|k: int| 0 <= k < r.len() && r[k] == y;
            }
            if y == x {
                assert(r[0] == x);
            }
        }
    } else if rec_before(x, s[0]) {
        assert(r =~= seq![x] + s);
        assert forall|i: int, j: int| 0 <= i < j < r.len() implies rec_before(#[trigger] r[i], #[trigger] r[j]) by {
            if i == 0 {
                if j > 1 {
                    lemma_rec_before_transitive(x, s[0], s[j - 1]);
                }
            } else {
                assert(r[i] == s[i - 1] && r[j] == s[j - 1]);
            }
        }
        assert forall|y: RecView| #[trigger] r.contains(y) <==> (s.contains(y) || y == x) by {
            if r.contains(y) {
                let k = choose|k: int| 0 <= k < r.len() && r[k] == y;
                if k > 0 {
                    assert(s[k - 1] == y);
                }
            }
            if s.contains(y) {
                let k = choose|k: int| 0 <= k < s.len() && s[k] == y;
                assert(r[k + 1] == y);
            }
            if y == x {
                assert(r[0] == x);
            }
        }
    } else {
        let t = s.drop_first();
        assert(ranked(t)) by {
            assert forall|i: int, j: int| 0 <= i < j < t.len() implies rec_before(#[trigger] t[i], #[trigger] t[j]) by {
                assert(t[i] == s[i + 1] && t[j] == s[j + 1]);
            }
        }
        assert forall|k: int| 0 <= k < t.len() implies (#[trigger] t[k]).command != x.command by {
            assert(t[k] == s[k + 1]);
        }
        lemma_insert_rec(x, t);
        let rest = insert_rec(x, t);
        assert(r =~= seq![s[0]] + rest);
        lemma_rec_before_total(x, s[0]);
        assert forall|i: int, j: int| 0 <= i < j < r.len() implies rec_before(#[trigger] r[i], #[trigger] r[j]) by {
            if i == 0 {
                assert(r[j] == rest[j - 1]);
                assert(rest.contains(r[j]));
                if r[j] != x {
                    assert(t.contains(r[j]));
                    let m = choose|m: int| 0 <= m < t.len() && t[m] == r[j];
                    assert(s[m + 1] == r[j]);
                }
            } else {
                assert(r[i] == rest[i - 1] && r[j] == rest[j - 1]);
            }
        }
        assert forall|y: RecView| #[trigger] r.contains(y) <==> (s.contains(y) || y == x) by {
            if r.contains(y) {
                let k = choose|k: int| 0 <= k < r.len() && r[k] == y;
                if k > 0 {
                    assert(rest[k - 1] == y);
                    assert(rest.contains(y));
                    if y != x {
                        let m = choose|m: int| 0 <= m < t.len() && t[m] == y;
                        assert(s[m + 1] == y);
                    }
                } else {
                    assert(s[0] == y);
                }
            }
            if s.contains(y) {
                let k = choose|k: int| 0 <= k < s.len() && s[k] == y;
                if k == 0 {
                    assert(r[0] == y);
                } else {
                    assert(t[k - 1] == y);
                    assert(t.contains(y));
                    assert(rest.contains(y));
                    let m = choose|m: int| 0 <= m < rest.len() && rest[m] == y;
                    assert(r[m + 1] == y);
                }
            }
            if y == x {
                assert(rest.contains(x));
                let m = choose|m: int| 0 <= m < rest.len() && rest[m] == x;
                assert(r[m + 1] == x);
            }
        }
    }
}

/// Sorting recommendations with distinct commands ranks them and keeps
/// exactly the same entries.
pub proof fn lemma_sort_recs(bs: Seq<RecView>)
    requires
        distinct_commands(bs),
    ensures
        ranked(sort_recs(bs)),
        sort_recs(bs).len() == bs.len(),
        forall|y: RecView| #[trigger] sort_recs(bs).contains(y) <==> bs.contains(y),
    decreases bs.len(),
{
    if bs.len() > 0 {
        let init = bs.drop_last();
        assert(distinct_commands(init)) by {
            assert forall|i: int, j: int| 0 <= i < j < init.len() implies (#[trigger] init[i]).command
                != (#[trigger] init[j]).command by {
                assert(init[i] == bs[i] && init[j] == bs[j]);
            }
        }
        lemma_sort_recs(init);
        let sorted = sort_recs(init);
        let x = bs.last();
        assert forall|k: int| 0 <= k < sorted.len() implies (#[trigger] sorted[k]).command != x.command by {
            assert(sorted.contains(sorted[k]));
            assert(init.contains(sorted[k]));
            let m = choose|m: int| 0 <= m < init.len() && init[m] == sorted[k];
            assert(bs[m] == sorted[k]);
            assert(bs[bs.len() - 1] == x);
        }
        lemma_insert_rec(x, sorted);
        assert forall|y: RecView| #[trigger] sort_recs(bs).contains(y) <==> bs.contains(y) by {
            if bs.contains(y) {
                let m = choose|m: int| 0 <= m < bs.len() && bs[m] == y;
                if m < init.len() {
                    assert(init[m] == y);
                    assert(init.contains(y));
                }
            }
            if init.contains(y) {
                let m = choose|m: int| 0 <= m < init.len() && init[m] == y;
                assert(bs[m] == y);
            }
            if y == x {
                assert(bs[bs.len() - 1] == x);
            }
        }
    }
}

/// The highest confidence rank among the signals with command `c`.
pub open spec fn command_rank(signals: Seq<SignalView>, c: Seq<char>) -> nat
    decreases signals.len(),
{
    if signals.len() == 0 {
        0
    } else {
        let prev = command_rank(signals.drop_last(), c);
        if signals.last().command == Some(c) && rank_of(signals.last().confidence) > prev {
            rank_of(signals.last().confidence)
        } else {
            prev
        }
    }
}

/// The values of one field over the signals with command `c`.
pub open spec fn field_values(
    signals: Seq<SignalView>,
    c: Seq<char>,
    field: spec_fn(SignalView) -> Option<Seq<char>>,
) -> Set<Seq<char>>
    decreases signals.len(),
{
    if signals.len() == 0 {
        Set::empty()
    } else {
        let prev = field_values(signals.drop_last(), c, field);
        let s = signals.last();
        if s.command == Some(c) {
            match field(s) {
                Some(v) => prev.insert(v),
                None => prev,
            }
        } else {
            prev
        }
    }
}

/// A signal's test file.
pub open spec fn test_field(s: SignalView) -> Option<Seq<char>> {
    s.test_file
}

/// A signal's changed file.
pub open spec fn changed_field(s: SignalView) -> Option<Seq<char>> {
    Some(s.changed_file)
}

/// A signal's reason.
pub open spec fn reason_field(s: SignalView) -> Option<Seq<char>> {
    Some(s.reason)
}

/// A signal's kind.
pub open spec fn kind_field(s: SignalView) -> Option<Seq<char>> {
    Some(s.kind)
}

/// What a gathered recommendation holds: the highest rank and the value
/// sets of the signals with its command.
pub proof fn lemma_aggregate_contents(signals: Seq<SignalView>)
    ensures
        forall|k: int|
            0 <= k < aggregate(signals).len() ==> {
                let b = #[trigger] aggregate(signals)[k];
                &&& b.rank == command_rank(signals, b.command)
                &&& b.rank <= 4
                &&& b.test_files.to_set() == field_values(signals, b.command, |s: SignalView| test_field(s))
                &&& b.changed_files.to_set() == field_values(signals, b.command, |s: SignalView| changed_field(s))
                &&& b.reasons.to_set() == field_values(signals, b.command, |s: SignalView| reason_field(s))
                &&& b.kinds.to_set() == field_values(signals, b.command, |s: SignalView| kind_field(s))
            },
    decreases signals.len(),
{
    if signals.len() > 0 {
        let prev_s = signals.drop_last();
        lemma_aggregate_contents(prev_s);
        lemma_aggregate(prev_s);
        let bs = aggregate(prev_s);
        let s = signals.last();
        let r = aggregate(signals);
        let tf = |s: SignalView| test_field(s);
        let cf = |s: SignalView| changed_field(s);
        let rf = |s: SignalView| reason_field(s);
        let kf = |s: SignalView| kind_field(s);
        match s.command {
            Some(c) => {
                lemma_position_of(bs, c);
                match position_of(bs, c) {
                    Some(k) => {
                        let b = bs[k];
                        lemma_set_insert(b.changed_files, s.changed_file);
                        lemma_set_insert(b.reasons, s.reason);
                        lemma_set_insert(b.kinds, s.kind);
                        match s.test_file {
                            Some(t) => lemma_set_insert(b.test_files, t),
                            None => {},
                        }
                        assert forall|k2: int| 0 <= k2 < r.len() implies {
                            let b2 = #[trigger] r[k2];
                            &&& b2.rank == command_rank(signals, b2.command)
                            &&& b2.rank <= 4
                            &&& b2.test_files.to_set() == field_values(signals, b2.command, tf)
                            &&& b2.changed_files.to_set() == field_values(signals, b2.command, cf)
                            &&& b2.reasons.to_set() == field_values(signals, b2.command, rf)
                            &&& b2.kinds.to_set() == field_values(signals, b2.command, kf)
                        } by {
                            let b1 = bs[k2];
                            if k2 != k {
                                assert(b1.command != c);
                            }
                        }
                    },
                    None => {
                        let b = fresh_rec(c);
                        lemma_set_insert(b.changed_files, s.changed_file);
                        lemma_set_insert(b.reasons, s.reason);
                        lemma_set_insert(b.kinds, s.kind);
                        match s.test_file {
                            Some(t) => lemma_set_insert(b.test_files, t),
                            None => {},
                        }
                        lemma_absent_fields(prev_s, c);
                        assert(Seq::<Seq<char>>::empty().to_set() =~= Set::<Seq<char>>::empty());
                        assert forall|k2: int| 0 <= k2 < r.len() implies {
                            let b2 = #[trigger] r[k2];
                            &&& b2.rank == command_rank(signals, b2.command)
                            &&& b2.rank <= 4
                            &&& b2.test_files.to_set() == field_values(signals, b2.command, tf)
                            &&& b2.changed_files.to_set() == field_values(signals, b2.command, cf)
                            &&& b2.reasons.to_set() == field_values(signals, b2.command, rf)
                            &&& b2.kinds.to_set() == field_values(signals, b2.command, kf)
                        } by {
                            if k2 < bs.len() {
                                let b1 = bs[k2];
                                assert(b1.command != c);
                            }
                        }
                    },
                }
            },
            None => {},
        }
    }
}

/// A command absent from the gathered recommendations has no rank and no
/// values.
proof fn lemma_absent_fields(signals: Seq<SignalView>, c: Seq<char>)
    requires
        position_of(aggregate(signals), c) is None,
    ensures
        command_rank(signals, c) == 0,
        field_values(signals, c, |s: SignalView| test_field(s)) == Set::<Seq<char>>::empty(),
        field_values(signals, c, |s: SignalView| changed_field(s)) == Set::<Seq<char>>::empty(),
        field_values(signals, c, |s: SignalView| reason_field(s)) == Set::<Seq<char>>::empty(),
        field_values(signals, c, |s: SignalView| kind_field(s)) == Set::<Seq<char>>::empty(),
    decreases signals.len(),
{
    if signals.len() > 0 {
        let prev_s = signals.drop_last();
        let bs = aggregate(prev_s);
        let s = signals.last();
        lemma_position_of(aggregate(signals), c);
        lemma_position_of(bs, c);
        match s.command {
            Some(c2) => {
                lemma_position_of(bs, c2);
                match position_of(bs, c2) {
                    Some(k) => {
                        assert(aggregate(signals)[k].command == c2);
                        if position_of(bs, c) is Some {
                            let k2 = position_of(bs, c)->0;
                            assert(aggregate(signals)[k2].command == c);
                        }
                    },
                    None => {
                        assert(aggregate(signals)[bs.len() as int].command == c2);
                        if position_of(bs, c) is Some {
                            let k2 = position_of(bs, c)->0;
                            assert(aggregate(signals)[k2].command == c);
                        }
                    },
                }
            },
            None => {},
        }
        lemma_absent_fields(prev_s, c);
    }
}

/// Confidence labels and ranks correspond: the label of a rank up to 4 has
/// that rank, and each of the four labels is the label of its own rank.
pub proof fn law_confidence_rank_roundtrip(rank: nat, label: Seq<char>)
    ensures
        rank <= 4 ==> rank_of(label_of(rank)) == rank,
        (label == "certain"@ || label == "high"@ || label == "medium"@ || label == "low"@)
            ==> label_of(rank_of(label)) == label,
{
    reveal_strlit("certain");
    reveal_strlit("high");
    reveal_strlit("medium");
    reveal_strlit("low");
    reveal_strlit("unknown");
    assert("certain"@[0] == 'c');
    assert("high"@[0] == 'h');
    assert("medium"@[0] == 'm');
    assert("low"@[0] == 'l');
    assert("unknown"@[0] == 'u');
}

/// The scoring tables: the confidence labels `certain`, `high`, `medium` and
/// `low` rank 4, 3, 2 and 1 and score 400, 300, 200 and 100, any other label
/// ranks and scores 0; a direct test change adds 50 points, a convention or
/// import match 40, a history correlation 20, any other kind nothing. A
/// label's score is always a hundred times its rank.
pub proof fn law_scoring_tables(confidence: Seq<char>, kind: Seq<char>)
    ensures
        rank_of("certain"@) == 4 && base_score("certain"@) == 400,
        rank_of("high"@) == 3 && base_score("high"@) == 300,
        rank_of("medium"@) == 2 && base_score("medium"@) == 200,
        rank_of("low"@) == 1 && base_score("low"@) == 100,
        confidence != "certain"@ && confidence != "high"@ && confidence != "medium"@ && confidence
            != "low"@ ==> rank_of(confidence) == 0 && base_score(confidence) == 0,
        base_score(confidence) == 100 * rank_of(confidence),
        kind_bonus("direct_test_change"@) == 50,
        kind_bonus("convention_match"@) == 40,
        kind_bonus("import_match"@) == 40,
        kind_bonus("history_correlation"@) == 20,
        kind != "direct_test_change"@ && kind != "convention_match"@ && kind != "import_match"@ && kind
            != "history_correlation"@ ==> kind_bonus(kind) == 0,
{
    reveal_strlit("certain");
    reveal_strlit("high");
    reveal_strlit("medium");
    reveal_strlit("low");
    assert("certain"@[0] == 'c' && "high"@[0] == 'h' && "medium"@[0] == 'm' && "low"@[0] == 'l');
    reveal_strlit("direct_test_change");
    reveal_strlit("convention_match");
    reveal_strlit("import_match");
    reveal_strlit("history_correlation");
    assert("direct_test_change"@[0] == 'd' && "convention_match"@[0] == 'c' && "import_match"@[0]
        == 'i' && "history_correlation"@[0] == 'h');
}

/// A command's score adds up over its signals: the score of two lists of
/// signals together is the sum of their scores, and one signal for the
/// command scores its confidence's base score plus its kind's bonus.
pub proof fn law_scores_add_up(a: Seq<SignalView>, b: Seq<SignalView>, s: SignalView, c: Seq<char>)
    ensures
        command_score(a + b, c) == command_score(a, c) + command_score(b, c),
        command_score(seq![s], c) == if s.command == Some(c) {
            base_score(s.confidence) + kind_bonus(s.kind)
        } else {
            0
        },
    decreases b.len(),
{
    if b.len() == 0 {
        assert(a + b =~= a);
    } else {
        law_scores_add_up(a, b.drop_last(), s, c);
        assert((a + b).drop_last() =~= a + b.drop_last());
        assert((a + b).last() == b.last());
    }
    assert(seq![s].drop_last() =~= Seq::<SignalView>::empty());
    assert(seq![s].last() == s);
    assert(command_score(Seq::<SignalView>::empty(), c) == 0);
    assert(signal_points(s) == base_score(s.confidence) + kind_bonus(s.kind));
}

/// Whether some recommendation is for command `c`.
pub open spec fn has_recommendation(rs: Seq<RecommendationView>, c: Seq<char>) -> bool {
    exists|k: int| 0 <= k < rs.len() && (#[trigger] rs[k]).command == c
}

/// The gathered recommendations, ranked, are the recommendations.
proof fn lemma_recommendations_sorted(signals: Seq<SignalView>)
    ensures
        ranked(sort_recs(aggregate(signals))),
        sort_recs(aggregate(signals)).len() == aggregate(signals).len(),
        forall|y: RecView|
            #[trigger] sort_recs(aggregate(signals)).contains(y) <==> aggregate(signals).contains(y),
        recommendations_of(signals).len() == aggregate(signals).len(),
        forall|k: int|
            0 <= k < recommendations_of(signals).len() ==> #[trigger] recommendations_of(signals)[k]
                == finish(sort_recs(aggregate(signals))[k]),
{
    lemma_aggregate(signals);
    lemma_sort_recs(aggregate(signals));
}

/// Recommendations are deduplicated by command: no two share a command, and
/// there is one for each command that some signal carries.
pub proof fn law_one_recommendation_per_command(signals: Seq<SignalView>)
    ensures
        forall|i: int, j: int|
            0 <= i < j < recommendations_of(signals).len() ==> (#[trigger] recommendations_of(
                signals,
            )[i]).command != (#[trigger] recommendations_of(signals)[j]).command,
        forall|c: Seq<char>|
            #[trigger] has_recommendation(recommendations_of(signals), c) <==> carries_command(signals, c),
{
    lemma_recommendations_sorted(signals);
    lemma_aggregate(signals);
    let agg = aggregate(signals);
    let sorted = sort_recs(agg);
    let rs = recommendations_of(signals);
    assert forall|i: int, j: int| 0 <= i < j < rs.len() implies (#[trigger] rs[i]).command
        != (#[trigger] rs[j]).command by {
        assert(rs[i] == finish(sorted[i]) && rs[j] == finish(sorted[j]));
        assert(rec_before(sorted[i], sorted[j]));
        if sorted[i].command == sorted[j].command {
            lemma_lex_irreflexive(sorted[i].command);
            assert(sorted.contains(sorted[i]) && sorted.contains(sorted[j]));
            let a = choose|a: int| 0 <= a < agg.len() && agg[a] == sorted[i];
            let b = choose|b: int| 0 <= b < agg.len() && agg[b] == sorted[j];
            if a < b {
                assert(agg[a].command != agg[b].command);
            } else if b < a {
                assert(agg[b].command != agg[a].command);
            } else {
                assert(!rec_before(sorted[i], sorted[i]));
            }
        }
    }
    assert forall|c: Seq<char>| #[trigger] has_recommendation(rs, c) <==> carries_command(signals, c) by {
        if has_recommendation(rs, c) {
            let k = choose|k: int| 0 <= k < rs.len() && (#[trigger] rs[k]).command == c;
            assert(rs[k] == finish(sorted[k]));
            assert(sorted.contains(sorted[k]));
            let a = choose|a: int| 0 <= a < agg.len() && agg[a] == sorted[k];
            assert(has_command(agg, c));
        }
        if carries_command(signals, c) {
            assert(has_command(agg, c));
            let a = choose|a: int| 0 <= a < agg.len() && (#[trigger] agg[a]).command == c;
            assert(agg.contains(agg[a]));
            assert(sorted.contains(agg[a]));
            let k = choose|k: int| 0 <= k < sorted.len() && sorted[k] == agg[a];
            assert(rs[k] == finish(sorted[k]));
        }
    }
}

/// Recommendations come sorted by score, highest first; equal scores go by
/// confidence, highest first, then by command in ascending order.
pub proof fn law_recommendations_ranked(signals: Seq<SignalView>)
    ensures
        forall|i: int, j: int|
            0 <= i < j < recommendations_of(signals).len() ==> {
                let a = #[trigger] recommendations_of(signals)[i];
                let b = #[trigger] recommendations_of(signals)[j];
                ||| a.score > b.score
                ||| a.score == b.score && rank_of(a.confidence) > rank_of(b.confidence)
                ||| a.score == b.score && rank_of(a.confidence) == rank_of(b.confidence) && lex_lt(
                    a.command,
                    b.command,
                )
            },
{
    lemma_recommendations_sorted(signals);
    lemma_aggregate_contents(signals);
    let agg = aggregate(signals);
    let sorted = sort_recs(agg);
    let rs = recommendations_of(signals);
    assert forall|i: int, j: int| 0 <= i < j < rs.len() implies {
        let a = #[trigger] rs[i];
        let b = #[trigger] rs[j];
        ||| a.score > b.score
        ||| a.score == b.score && rank_of(a.confidence) > rank_of(b.confidence)
        ||| a.score == b.score && rank_of(a.confidence) == rank_of(b.confidence) && lex_lt(
            a.command,
            b.command,
        )
    } by {
        assert(rs[i] == finish(sorted[i]) && rs[j] == finish(sorted[j]));
        assert(rec_before(sorted[i], sorted[j]));
        assert(sorted.contains(sorted[i]) && sorted.contains(sorted[j]));
        let a = choose|a: int| 0 <= a < agg.len() && agg[a] == sorted[i];
        let b = choose|b: int| 0 <= b < agg.len() && agg[b] == sorted[j];
        assert(agg[a].rank <= 4 && agg[b].rank <= 4);
        law_confidence_rank_roundtrip(sorted[i].rank, Seq::empty());
        law_confidence_rank_roundtrip(sorted[j].rank, Seq::empty());
    }
}

/// Signals strengthen the recommendation for their command: its score is the
/// sum of their points, its confidence the highest of theirs, and its lists
/// hold, ascending and each once, their test files, changed files, reasons
/// and kinds.
pub proof fn law_recommendation_contents(signals: Seq<SignalView>)
    ensures
        forall|k: int|
            0 <= k < recommendations_of(signals).len() ==> {
                let r = #[trigger] recommendations_of(signals)[k];
                &&& r.score == command_score(signals, r.command)
                &&& r.confidence == label_of(command_rank(signals, r.command))
                &&& strictly_ascending(r.test_files)
                &&& strictly_ascending(r.changed_files)
                &&& strictly_ascending(r.reasons)
                &&& strictly_ascending(r.signal_kinds)
                &&& r.test_files.to_set() == field_values(signals, r.command, |s: SignalView| test_field(s))
                &&& r.changed_files.to_set() == field_values(signals, r.command, |s: SignalView| changed_field(s))
                &&& r.reasons.to_set() == field_values(signals, r.command, |s: SignalView| reason_field(s))
                &&& r.signal_kinds.to_set() == field_values(signals, r.command, |s: SignalView| kind_field(s))
            },
{
    lemma_recommendations_sorted(signals);
    lemma_aggregate(signals);
    lemma_aggregate_contents(signals);
    let agg = aggregate(signals);
    let sorted = sort_recs(agg);
    let rs = recommendations_of(signals);
    assert forall|k: int| 0 <= k < rs.len() implies {
        let r = #[trigger] rs[k];
        &&& r.score == command_score(signals, r.command)
        &&& r.confidence == label_of(command_rank(signals, r.command))
        &&& strictly_ascending(r.test_files)
        &&& strictly_ascending(r.changed_files)
        &&& strictly_ascending(r.reasons)
        &&& strictly_ascending(r.signal_kinds)
        &&& r.test_files.to_set() == field_values(signals, r.command, |s: SignalView| test_field(s))
        &&& r.changed_files.to_set() == field_values(signals, r.command, |s: SignalView| changed_field(s))
        &&& r.reasons.to_set() == field_values(signals, r.command, |s: SignalView| reason_field(s))
        &&& r.signal_kinds.to_set() == field_values(signals, r.command, |s: SignalView| kind_field(s))
    } by {
        assert(rs[k] == finish(sorted[k]));
        assert(sorted.contains(sorted[k]));
        let a = choose|a: int| 0 <= a < agg.len() && agg[a] == sorted[k];
        assert(agg[a] == sorted[k]);
    }
}

/// Whether `f` is reported as a coverage gap.
pub open spec fn is_gap(gaps: Seq<(Seq<char>, Seq<char>)>, f: Seq<char>) -> bool {
    exists|k: int| 0 <= k < gaps.len() && (#[trigger] gaps[k]).0 == f
}

/// Coverage gaps identify the changed files without a targeted test: a file
/// is a gap exactly when it changed and no signal about that very file names
/// a test file (a fallback signal names none, and a signal about another
/// file covers nothing of it); every gap gives the same reason.
pub proof fn law_coverage_gaps(files: Seq<Seq<char>>, signals: Seq<SignalView>)
    ensures
        forall|f: Seq<char>|
            #[trigger] is_gap(gaps_of(files, signals), f) <==> (files.contains(f) && forall|k: int|
                0 <= k < signals.len() ==> !((#[trigger] signals[k]).changed_file == f
                    && signals[k].test_file is Some)),
        forall|k: int|
            0 <= k < gaps_of(files, signals).len() ==> (#[trigger] gaps_of(files, signals)[k]).1
                == GAP_REASON@,
{
    let keep = |f: Seq<char>| !has_targeted_test(signals, f);
    let mk = |f: Seq<char>| (f, GAP_REASON@);
    let kept = files.filter(keep);
    let gaps = gaps_of(files, signals);
    assert forall|f: Seq<char>| #[trigger] is_gap(gaps, f) <==> (files.contains(f) && !has_targeted_test(
        signals,
        f,
    )) by {
        if is_gap(gaps, f) {
            let k = choose|k: int| 0 <= k < gaps.len() && (#[trigger] gaps[k]).0 == f;
            assert(gaps[k] == mk(kept[k]));
            files.lemma_filter_pred(keep, k);
            assert(kept.contains(kept[k]));
            files.lemma_filter_contains_rev(keep, kept[k]);
        }
        if files.contains(f) && !has_targeted_test(signals, f) {
            let m = choose|m: int| 0 <= m < files.len() && files[m] == f;
            files.lemma_filter_contains(keep, m);
            let k = choose|k: int| 0 <= k < kept.len() && kept[k] == f;
            assert(gaps[k] == mk(kept[k]));
        }
    }
}

/// The larger of two numbers.
pub open spec fn max_nat(a: nat, b: nat) -> nat {
    if a >= b {
        a
    } else {
        b
    }
}

/// The rank a signal contributes to command `c`.
pub open spec fn rank_for(s: SignalView, c: Seq<char>) -> nat {
    if s.command == Some(c) {
        rank_of(s.confidence)
    } else {
        0
    }
}

/// The points a signal contributes to command `c`.
pub open spec fn points_for(s: SignalView, c: Seq<char>) -> nat {
    if s.command == Some(c) {
        signal_points(s)
    } else {
        0
    }
}

/// `set` with the value a signal contributes to command `c`.
pub open spec fn with_value(
    set: Set<Seq<char>>,
    s: SignalView,
    c: Seq<char>,
    field: spec_fn(SignalView) -> Option<Seq<char>>,
) -> Set<Seq<char>> {
    if s.command == Some(c) {
        match field(s) {
            Some(v) => set.insert(v),
            None => set,
        }
    } else {
        set
    }
}

/// Taking one signal out anywhere and adding its share back gives the same
/// summaries.
proof fn lemma_remove_decomposes(
    s: Seq<SignalView>,
    i: int,
    c: Seq<char>,
    field: spec_fn(SignalView) -> Option<Seq<char>>,
)
    requires
        0 <= i < s.len(),
    ensures
        command_score(s, c) == command_score(s.remove(i), c) + points_for(s[i], c),
        command_rank(s, c) == max_nat(command_rank(s.remove(i), c), rank_for(s[i], c)),
        field_values(s, c, field) == with_value(field_values(s.remove(i), c, field), s[i], c, field),
    decreases s.len(),
{
    if i == s.len() - 1 {
        assert(s.remove(i) =~= s.drop_last());
    } else {
        let t = s.drop_last();
        assert(t[i] == s[i]);
        lemma_remove_decomposes(t, i, c, field);
        assert(s.remove(i).drop_last() =~= t.remove(i));
        assert(s.remove(i).last() == s.last());
        assert(s.remove(i).len() > 0);
        let a = field_values(t.remove(i), c, field);
        assert(with_value(with_value(a, s[i], c, field), s.last(), c, field) =~= with_value(
            with_value(a, s.last(), c, field),
            s[i],
            c,
            field,
        ));
    }
}

/// Signals that are a reordering of each other have the same per-command
/// score, rank and value sets, and carry the same commands.
proof fn lemma_reordering_summaries(
    p: Seq<SignalView>,
    s: Seq<SignalView>,
    c: Seq<char>,
    field: spec_fn(SignalView) -> Option<Seq<char>>,
)
    requires
        p.to_multiset() == s.to_multiset(),
    ensures
        command_score(p, c) == command_score(s, c),
        command_rank(p, c) == command_rank(s, c),
        field_values(p, c, field) == field_values(s, c, field),
        carries_command(p, c) == carries_command(s, c),
    decreases p.len(),
{
    broadcast use vstd::multiset::group_multiset_axioms;

    p.to_multiset_ensures();
    s.to_multiset_ensures();
    if carries_command(p, c) {
        let i = choose|i: int| 0 <= i < p.len() && (#[trigger] p[i]).command == Some(c);
        assert(p.contains(p[i]));
        assert(p.to_multiset().count(p[i]) > 0);
        assert(s.to_multiset().count(p[i]) > 0);
        assert(s.contains(p[i]));
        let j = choose|j: int| 0 <= j < s.len() && s[j] == p[i];
        assert(s[j].command == Some(c));
    }
    if carries_command(s, c) {
        let i = choose|i: int| 0 <= i < s.len() && (#[trigger] s[i]).command == Some(c);
        assert(s.contains(s[i]));
        assert(s.to_multiset().count(s[i]) > 0);
        assert(p.to_multiset().count(s[i]) > 0);
        assert(p.contains(s[i]));
        let j = choose|j: int| 0 <= j < p.len() && p[j] == s[i];
        assert(p[j].command == Some(c));
    }
    if p.len() == 0 {
        assert(s.len() == 0);
    } else {
        let x = p.last();
        let p2 = p.drop_last();
        assert(p2.push(x) =~= p);
        p2.to_multiset_ensures();
        assert(p.to_multiset() =~= p2.to_multiset().insert(x));
        assert(p.contains(x)) by {
            assert(p[p.len() - 1] == x);
        }
        assert(p.to_multiset().count(x) > 0);
        assert(s.to_multiset().count(x) > 0);
        assert(s.contains(x));
        let i = choose|i: int| 0 <= i < s.len() && s[i] == x;
        let s2 = s.remove(i);
        assert(s2.to_multiset() =~= s.to_multiset().remove(x));
        assert(p2.to_multiset() =~= s2.to_multiset());
        lemma_reordering_summaries(p2, s2, c, field);
        lemma_remove_decomposes(s, i, c, field);
    }
}

/// Two strictly ascending lists with the same elements are the same list.
proof fn lemma_ascending_unique(a: Seq<Seq<char>>, b: Seq<Seq<char>>)
    requires
        strictly_ascending(a),
        strictly_ascending(b),
        a.to_set() == b.to_set(),
    ensures
        a == b,
    decreases a.len(),
{
    if a.len() == 0 || b.len() == 0 {
        if b.len() > 0 {
            assert(b.to_set().contains(b[0]));
        }
        if a.len() > 0 {
            assert(a.to_set().contains(a[0]));
        }
        assert(a =~= b);
    } else {
        assert(a.to_set().contains(a[0]));
        assert(b.to_set().contains(b[0]));
        let m = choose|m: int| 0 <= m < b.len() && b[m] == a[0];
        let n = choose|n: int| 0 <= n < a.len() && a[n] == b[0];
        if a[0] != b[0] {
            assert(m > 0 && n > 0);
            assert(lex_lt(b[0], b[m]));
            assert(lex_lt(a[0], a[n]));
            lemma_lex_asymmetric(a[0], b[0]);
        }
        let ta = a.drop_first();
        let tb = b.drop_first();
        assert(strictly_ascending(ta)) by {
            assert forall|i: int, j: int| 0 <= i < j < ta.len() implies lex_lt(#[trigger] ta[i], #[trigger] ta[j]) by {
                assert(ta[i] == a[i + 1] && ta[j] == a[j + 1]);
            }
        }
        assert(strictly_ascending(tb)) by {
            assert forall|i: int, j: int| 0 <= i < j < tb.len() implies lex_lt(#[trigger] tb[i], #[trigger] tb[j]) by {
                assert(tb[i] == b[i + 1] && tb[j] == b[j + 1]);
            }
        }
        assert(ta.to_set() =~= tb.to_set()) by {
            assert forall|y: Seq<char>| ta.to_set().contains(y) <==> tb.to_set().contains(y) by {
                if ta.contains(y) {
                    let k = choose|k: int| 0 <= k < ta.len() && ta[k] == y;
                    assert(a[k + 1] == y);
                    assert(a.to_set().contains(y));
                    assert(b.contains(y));
                    let q = choose|q: int| 0 <= q < b.len() && b[q] == y;
                    if q == 0 {
                        assert(lex_lt(a[0], a[k + 1]));
                        lemma_lex_irreflexive(y);
                    } else {
                        assert(tb[q - 1] == y);
                    }
                }
                if tb.contains(y) {
                    let k = choose|k: int| 0 <= k < tb.len() && tb[k] == y;
                    assert(b[k + 1] == y);
                    assert(b.to_set().contains(y));
                    assert(a.contains(y));
                    let q = choose|q: int| 0 <= q < a.len() && a[q] == y;
                    if q == 0 {
                        assert(lex_lt(b[0], b[k + 1]));
                        lemma_lex_irreflexive(y);
                    } else {
                        assert(ta[q - 1] == y);
                    }
                }
            }
        }
        lemma_ascending_unique(ta, tb);
        assert(a =~= b) by {
            assert forall|k: int| 0 <= k < a.len() implies a[k] == b[k] by {
                if k > 0 {
                    assert(a[k] == ta[k - 1] && b[k] == tb[k - 1]);
                }
            }
        }
    }
}

/// Two ranked lists with the same elements are the same list.
proof fn lemma_ranked_unique(a: Seq<RecView>, b: Seq<RecView>)
    requires
        ranked(a),
        ranked(b),
        forall|y: RecView| #[trigger] a.contains(y) <==> b.contains(y),
    ensures
        a == b,
    decreases a.len(),
{
    if a.len() == 0 || b.len() == 0 {
        if b.len() > 0 {
            assert(b.contains(b[0]));
            assert(a.contains(b[0]));
        }
        if a.len() > 0 {
            assert(a.contains(a[0]));
            assert(b.contains(a[0]));
        }
        assert(a =~= b);
    } else {
        assert(a.contains(a[0]));
        assert(b.contains(a[0]));
        assert(b.contains(b[0]));
        assert(a.contains(b[0]));
        let m = choose|m: int| 0 <= m < b.len() && b[m] == a[0];
        let n = choose|n: int| 0 <= n < a.len() && a[n] == b[0];
        if a[0] != b[0] {
            assert(m > 0 && n > 0);
            assert(rec_before(b[0], b[m]));
            assert(rec_before(a[0], a[n]));
            lemma_rec_before_transitive(a[0], b[0], a[0]);
            lemma_lex_irreflexive(a[0].command);
        }
        let ta = a.drop_first();
        let tb = b.drop_first();
        assert(ranked(ta)) by {
            assert forall|i: int, j: int| 0 <= i < j < ta.len() implies rec_before(#[trigger] ta[i], #[trigger] ta[j]) by {
                assert(ta[i] == a[i + 1] && ta[j] == a[j + 1]);
            }
        }
        assert(ranked(tb)) by {
            assert forall|i: int, j: int| 0 <= i < j < tb.len() implies rec_before(#[trigger] tb[i], #[trigger] tb[j]) by {
                assert(tb[i] == b[i + 1] && tb[j] == b[j + 1]);
            }
        }
        assert forall|y: RecView| #[trigger] ta.contains(y) <==> tb.contains(y) by {
            if ta.contains(y) {
                let k = choose|k: int| 0 <= k < ta.len() && ta[k] == y;
                assert(a[k + 1] == y);
                assert(a.contains(y));
                assert(b.contains(y));
                let q = choose|q: int| 0 <= q < b.len() && b[q] == y;
                if q == 0 {
                    assert(rec_before(a[0], a[k + 1]));
                    lemma_lex_irreflexive(y.command);
                } else {
                    assert(tb[q - 1] == y);
                }
            }
            if tb.contains(y) {
                let k = choose|k: int| 0 <= k < tb.len() && tb[k] == y;
                assert(b[k + 1] == y);
                assert(b.contains(y));
                assert(a.contains(y));
                let q = choose|q: int| 0 <= q < a.len() && a[q] == y;
                if q == 0 {
                    assert(rec_before(b[0], b[k + 1]));
                    lemma_lex_irreflexive(y.command);
                } else {
                    assert(ta[q - 1] == y);
                }
            }
        }
        lemma_ranked_unique(ta, tb);
        assert(a =~= b) by {
            assert forall|k: int| 0 <= k < a.len() implies a[k] == b[k] by {
                if k > 0 {
                    assert(a[k] == ta[k - 1] && b[k] == tb[k - 1]);
                }
            }
        }
    }
}

/// A gathered recommendation of `p` is one of `s` when `p` reorders `s`.
proof fn lemma_aggregate_reordered_member(p: Seq<SignalView>, s: Seq<SignalView>, y: RecView)
    requires
        p.to_multiset() == s.to_multiset(),
        aggregate(p).contains(y),
    ensures
        aggregate(s).contains(y),
{
    lemma_aggregate(p);
    lemma_aggregate(s);
    lemma_aggregate_contents(p);
    lemma_aggregate_contents(s);
    let ap = aggregate(p);
    let as_ = aggregate(s);
    let k = choose|k: int| 0 <= k < ap.len() && ap[k] == y;
    let c = y.command;
    assert(has_command(ap, c));
    let tf = |x: SignalView| test_field(x);
    let cf = |x: SignalView| changed_field(x);
    let rf = |x: SignalView| reason_field(x);
    let kf = |x: SignalView| kind_field(x);
    lemma_reordering_summaries(p, s, c, tf);
    lemma_reordering_summaries(p, s, c, cf);
    lemma_reordering_summaries(p, s, c, rf);
    lemma_reordering_summaries(p, s, c, kf);
    assert(has_command(as_, c));
    let k2 = choose|k2: int| 0 <= k2 < as_.len() && (#[trigger] as_[k2]).command == c;
    let z = as_[k2];
    assert(ap[k] == y);
    lemma_ascending_unique(y.test_files, z.test_files);
    lemma_ascending_unique(y.changed_files, z.changed_files);
    lemma_ascending_unique(y.reasons, z.reasons);
    lemma_ascending_unique(y.kinds, z.kinds);
    assert(y == z);
}

/// The recommendations do not depend on the order of the signals: any
/// reordering of the same signals gives the same ranked recommendations.
pub proof fn law_recommendations_order_independent(p: Seq<SignalView>, s: Seq<SignalView>)
    requires
        p.to_multiset() == s.to_multiset(),
    ensures
        recommendations_of(p) == recommendations_of(s),
{
    lemma_recommendations_sorted(p);
    lemma_recommendations_sorted(s);
    let sp = sort_recs(aggregate(p));
    let ss = sort_recs(aggregate(s));
    assert forall|y: RecView| #[trigger] sp.contains(y) <==> ss.contains(y) by {
        if aggregate(p).contains(y) {
            lemma_aggregate_reordered_member(p, s, y);
        }
        if aggregate(s).contains(y) {
            lemma_aggregate_reordered_member(s, p, y);
        }
    }
    lemma_ranked_unique(sp, ss);
}

} // verus!
