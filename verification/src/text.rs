//! Character-level string operations with specifications over `Seq<char>`.
use vstd::prelude::*;

verus! {

/// `s` contains `p` as a contiguous piece.
pub open spec fn has_infix(s: Seq<char>, p: Seq<char>) -> bool {
    exists|i: int| 0 <= i && i + p.len() <= s.len() && #[trigger] s.subrange(i, i + p.len()) == p
}

/// `p` occurs in `s` starting at position `i`.
pub open spec fn occurs_at(s: Seq<char>, p: Seq<char>, i: int) -> bool {
    0 <= i && i + p.len() <= s.len() && s.subrange(i, i + p.len()) == p
}

/// Whether `s` begins with `p`.
pub fn starts_with(s: &str, p: &str) -> (r: bool)
    ensures
        r == p@.is_prefix_of(s@),
{
    let n = s.unicode_len();
    let m = p.unicode_len();
    if m > n {
        return false;
    }
    let mut i: usize = 0;
    while i < m
        invariant
            n == s@.len(),
            m == p@.len(),
            m <= n,
            i <= m,
            forall|j: int| 0 <= j < i ==> s@[j] == p@[j],
        decreases m - i,
    {
        if s.get_char(i) != p.get_char(i) {
            assert(s@.subrange(0, m as int)[i as int] != p@[i as int]);
            return false;
        }
        i = i + 1;
    }
    assert(p@ =~= s@.subrange(0, p@.len() as int));
    true
}

/// Whether `p` occurs in `s` at character position `at`.
pub fn matches_at(s: &str, p: &str, at: usize) -> (r: bool)
    ensures
        r == occurs_at(s@, p@, at as int),
{
    let n = s.unicode_len();
    let m = p.unicode_len();
    if at > n || m > n - at {
        return false;
    }
    let mut i: usize = 0;
    while i < m
        invariant
            n == s@.len(),
            m == p@.len(),
            at + m <= n,
            i <= m,
            forall|j: int| 0 <= j < i ==> s@[at + j] == p@[j],
        decreases m - i,
    {
        if s.get_char(at + i) != p.get_char(i) {
            assert(s@.subrange(at as int, at + m)[i as int] != p@[i as int]);
            return false;
        }
        i = i + 1;
    }
    assert(p@ =~= s@.subrange(at as int, at + m));
    true
}

/// Whether `s` ends with `p`.
pub fn ends_with(s: &str, p: &str) -> (r: bool)
    ensures
        r == p@.is_suffix_of(s@),
{
    let n = s.unicode_len();
    let m = p.unicode_len();
    if m > n {
        return false;
    }
    let r = matches_at(s, p, n - m);
    r
}

/// Whether `p` occurs anywhere in `s`.
pub fn contains(s: &str, p: &str) -> (r: bool)
    ensures
        r == has_infix(s@, p@),
{
    let n = s.unicode_len();
    let m = p.unicode_len();
    if m > n {
        return false;
    }
    let mut i: usize = 0;
    while i <= n - m
        invariant_except_break
            i <= n - m,
        invariant
            n == s@.len(),
            m == p@.len(),
            m <= n,
            forall|j: int| 0 <= j < i ==> !occurs_at(s@, p@, j),
        ensures
            forall|j: int| 0 <= j <= n - m ==> !occurs_at(s@, p@, j),
        decreases n - m - i,
    {
        if matches_at(s, p, i) {
            assert(s@.subrange(i as int, i + p@.len()) == p@);
            return true;
        }
        if i == n - m {
            break;
        }
        i = i + 1;
    }
    assert forall|j: int| 0 <= j && j + p@.len() <= s@.len() implies #[trigger] s@.subrange(
        j,
        j + p@.len(),
    ) != p@ by {
        assert(!occurs_at(s@, p@, j));
    }
    false
}

/// The characters that `char::is_whitespace` accepts: those with the Unicode
/// `White_Space` property.
pub open spec fn is_white(c: char) -> bool {
    let u = c as int;
    ||| 0x09 <= u <= 0x0d
    ||| u == 0x20
    ||| u == 0x85
    ||| u == 0xa0
    ||| u == 0x1680
    ||| 0x2000 <= u <= 0x200a
    ||| u == 0x2028
    ||| u == 0x2029
    ||| u == 0x202f
    ||| u == 0x205f
    ||| u == 0x3000
}

/// The white space that trimming removes: tab, line feed, vertical tab,
/// form feed, carriage return and space, next line, no-break space, and the
/// other characters with the Unicode `White_Space` property; nothing else.
pub proof fn law_white_space(c: char)
    ensures
        is_white(c) <==> (c == '\t' || c == '\n' || c == '\u{0b}' || c == '\u{0c}' || c == '\r' || c == ' '
            || c == '\u{85}' || c == '\u{a0}' || c == '\u{1680}' || ('\u{2000}' <= c && c <= '\u{200a}')
            || c == '\u{2028}' || c == '\u{2029}' || c == '\u{202f}' || c == '\u{205f}' || c == '\u{3000}'),
{
}

/// Executable test of `is_white`.
pub fn is_white_char(c: char) -> (r: bool)
    ensures
        r == is_white(c),
{
    let u = c as u32;
    (0x09 <= u && u <= 0x0d) || u == 0x20 || u == 0x85 || u == 0xa0 || u == 0x1680 || (0x2000 <= u
        && u <= 0x200a) || u == 0x2028 || u == 0x2029 || u == 0x202f || u == 0x205f || u == 0x3000
}

/// `s` without its leading white space.
pub open spec fn trim_front(s: Seq<char>) -> Seq<char>
    decreases s.len(),
{
    if s.len() > 0 && is_white(s[0]) {
        trim_front(s.drop_first())
    } else {
        s
    }
}

/// `s` without its trailing white space.
pub open spec fn trim_back(s: Seq<char>) -> Seq<char>
    decreases s.len(),
{
    if s.len() > 0 && is_white(s.last()) {
        trim_back(s.drop_last())
    } else {
        s
    }
}

/// `s` without leading and trailing white space (what `str::trim` gives).
pub open spec fn trimmed(s: Seq<char>) -> Seq<char> {
    trim_back(trim_front(s))
}

/// The piece of `s` left when leading and trailing white space is removed.
pub fn trim(s: &str) -> (r: String)
    ensures
        r@ == trimmed(s@),
{
    let n = s.unicode_len();
    let mut i: usize = 0;
    assert(s@.skip(0) =~= s@);
    while i < n && is_white_char(s.get_char(i))
        invariant
            n == s@.len(),
            i <= n,
            trim_front(s@) == trim_front(s@.skip(i as int)),
        decreases n - i,
    {
        assert(s@.skip(i as int).drop_first() =~= s@.skip(i + 1));
        i = i + 1;
    }
    assert(trim_front(s@) == s@.subrange(i as int, n as int)) by {
        assert(s@.skip(i as int) =~= s@.subrange(i as int, n as int));
    }
    let mut j: usize = n;
    while j > i && is_white_char(s.get_char(j - 1))
        invariant
            n == s@.len(),
            i <= j <= n,
            trimmed(s@) == trim_back(s@.subrange(i as int, j as int)),
        decreases j,
    {
        assert(s@.subrange(i as int, j as int).drop_last() =~= s@.subrange(i as int, j - 1));
        j = j - 1;
    }
    let piece = s.substring_char(i, j);
    piece.to_owned()
}

/// `s` cut at every occurrence of `sep`, as `str::split` with a character
/// pattern does: `k` separators give `k + 1` pieces.
pub open spec fn split_on(s: Seq<char>, sep: char) -> Seq<Seq<char>>
    decreases s.len(),
{
    if s.len() == 0 {
        seq![Seq::empty()]
    } else {
        let prev = split_on(s.drop_last(), sep);
        if s.last() == sep {
            prev.push(Seq::empty())
        } else {
            prev.update(prev.len() - 1, prev.last().push(s.last()))
        }
    }
}

/// The non-empty trimmed lines of `text`: how the output of a `git` listing
/// is read as a list of names.
pub open spec fn name_list(text: Seq<char>) -> Seq<Seq<char>> {
    split_on(text, '\n').map_values(|l: Seq<char>| trimmed(l)).filter(
        |l: Seq<char>| l.len() > 0,
    )
}

/// Read a newline-separated listing into its non-empty trimmed lines.
pub fn parse_name_list(text: &str) -> (r: Vec<String>)
    ensures
        r@.map_values(|x: String| x@) == name_list(text@),
{
    let n = text.unicode_len();
    let mut out: Vec<String> = Vec::new();
    let mut start: usize = 0;
    let mut i: usize = 0;
    let ghost trim_f = |l: Seq<char>| trimmed(l);
    let ghost keep = |l: Seq<char>| l.len() > 0;
    assert(text@.take(0) =~= Seq::<char>::empty());
    while i < n
        invariant
            n == text@.len(),
            start <= i <= n,
            trim_f == (|l: Seq<char>| trimmed(l)),
            keep == (|l: Seq<char>| l.len() > 0),
            split_on(text@.take(i as int), '\n').len() >= 1,
            split_on(text@.take(i as int), '\n').last() == text@.subrange(start as int, i as int),
            out@.map_values(|x: String| x@) == split_on(text@.take(i as int), '\n').drop_last().map_values(
                trim_f,
            ).filter(keep),
        decreases n - i,
    {
        let ghost prev = split_on(text@.take(i as int), '\n');
        assert(text@.take(i + 1).drop_last() =~= text@.take(i as int));
        if text.get_char(i) == '\n' {
            let piece = text.substring_char(start, i);
            let t = trim(piece);
            let ghost before = out@.map_values(|x: String| x@);
            proof {
                assert(split_on(text@.take(i + 1), '\n') == prev.push(Seq::empty()));
                assert(prev.push(Seq::empty()).drop_last() =~= prev);
                assert(prev =~= prev.drop_last().push(prev.last()));
                prev.drop_last().map_values(trim_f).lemma_push_map_commute(trim_f, prev.last());
                assert(prev.drop_last().push(prev.last()).map_values(trim_f) =~= prev.drop_last().map_values(trim_f).push(t@));
                prev.drop_last().map_values(trim_f).lemma_filter_push(t@, keep);
            }
            if t.unicode_len() > 0 {
                out.push(t);
                assert(out@.map_values(|x: String| x@) =~= before.push(t@));
            }
            start = i + 1;
            proof {
                assert(text@.subrange(start as int, i + 1) =~= Seq::<char>::empty());
            }
        } else {
            proof {
                let p2 = prev.update(prev.len() - 1, prev.last().push(text@[i as int]));
                assert(split_on(text@.take(i + 1), '\n') == p2);
                assert(p2.drop_last() =~= prev.drop_last());
                assert(text@.subrange(start as int, i + 1) =~= text@.subrange(start as int, i as int).push(text@[i as int]));
            }
        }
        i = i + 1;
    }
    assert(text@.take(n as int) =~= text@);
    let last_piece = text.substring_char(start, n);
    let t = trim(last_piece);
    let ghost prev = split_on(text@, '\n');
    let ghost before = out@.map_values(|x: String| x@);
    proof {
        assert(prev =~= prev.drop_last().push(prev.last()));
        prev.drop_last().map_values(trim_f).lemma_push_map_commute(trim_f, prev.last());
        prev.drop_last().map_values(trim_f).lemma_filter_push(t@, keep);
        assert(prev.drop_last().push(prev.last()).map_values(trim_f) =~= prev.drop_last().map_values(trim_f).push(t@));
    }
    if t.unicode_len() > 0 {
        out.push(t);
        assert(out@.map_values(|x: String| x@) =~= before.push(t@));
    }
    out
}

/// The decimal digit character for `d < 10`.
pub open spec fn digit_char(d: nat) -> char {
    ((48 + d) as u32) as char
}

/// The decimal numeral of `n`, as `{}` formats an unsigned integer.
pub open spec fn decimal(n: nat) -> Seq<char>
    decreases n,
{
    if n < 10 {
        seq![digit_char(n)]
    } else {
        decimal(n / 10).push(digit_char(n % 10))
    }
}

/// The number that a string of decimal digits spells.
pub open spec fn numeral_value(s: Seq<char>) -> nat
    decreases s.len(),
{
    if s.len() == 0 {
        0
    } else {
        numeral_value(s.drop_last()) * 10 + ((s.last() as u32) - 48) as nat
    }
}

/// The numeral of a number is its usual decimal spelling: at least one
/// character, every character a digit `0`-`9`, no leading zero but for zero
/// itself, and it spells back the number.
pub proof fn law_decimal_numerals(n: nat)
    ensures
        decimal(n).len() >= 1,
        forall|k: int| 0 <= k < decimal(n).len() ==> '0' <= #[trigger] decimal(n)[k] <= '9',
        decimal(n)[0] == '0' ==> n == 0,
        numeral_value(decimal(n)) == n,
    decreases n,
{
    if n < 10 {
        assert(digit_char(n) as u32 == 48 + n);
        assert(seq![digit_char(n)].drop_last() =~= Seq::<char>::empty());
        assert(seq![digit_char(n)].last() == digit_char(n));
        assert(numeral_value(Seq::<char>::empty()) == 0);
        assert(numeral_value(decimal(n)) == numeral_value(Seq::<char>::empty()) * 10 + ((digit_char(n) as u32)
            - 48) as nat);
    } else {
        law_decimal_numerals(n / 10);
        let d = digit_char(n % 10);
        assert(d as u32 == 48 + n % 10);
        let s = decimal(n / 10);
        assert(decimal(n) == s.push(d));
        assert(s.push(d).drop_last() =~= s);
        assert(s.push(d)[0] == s[0]);
        assert(n / 10 > 0);
        assert(numeral_value(s.push(d)) == (n / 10) * 10 + n % 10);
        assert forall|k: int| 0 <= k < decimal(n).len() implies '0' <= #[trigger] decimal(n)[k] <= '9' by {
            if k < s.len() {
                assert(decimal(n)[k] == s[k]);
            }
        }
    }
}

/// The one-character string of the digit `d`.
fn digit_string(d: u64) -> (r: String)
    requires
        d < 10,
    ensures
        r@ == seq![digit_char(d as nat)],
{
    let digits = "0123456789";
    proof {
        reveal_strlit("0123456789");
    }
    let piece = digits.substring_char(d as usize, d as usize + 1);
    proof {
        assert(piece@ =~= seq![digit_char(d as nat)]);
    }
    piece.to_owned()
}

/// The decimal numeral of `n`.
pub fn decimal_string(n: u64) -> (r: String)
    ensures
        r@ == decimal(n as nat),
    decreases n,
{
    if n < 10 {
        digit_string(n)
    } else {
        let mut s = decimal_string(n / 10);
        let d = digit_string(n % 10);
        s.append(d.as_str());
        proof {
            assert(s@ =~= decimal((n / 10) as nat).push(digit_char((n % 10) as nat)));
        }
        s
    }
}

/// Lexicographic order of strings by character code: the order of `String`'s
/// `Ord`, since UTF-8 keeps the order of code points.
pub open spec fn lex_lt(a: Seq<char>, b: Seq<char>) -> bool
    decreases a.len(),
{
    if a.len() == 0 {
        b.len() > 0
    } else if b.len() == 0 {
        false
    } else if a[0] != b[0] {
        (a[0] as int) < (b[0] as int)
    } else {
        lex_lt(a.drop_first(), b.drop_first())
    }
}

/// Strings are ordered character by character: a proper prefix comes
/// first; otherwise the first differing character decides, by its code; and
/// no string comes before one of its own prefixes.
pub proof fn law_lex_order(a: Seq<char>, b: Seq<char>)
    ensures
        a.is_prefix_of(b) && a.len() < b.len() ==> lex_lt(a, b),
        forall|i: int|
            0 <= i < a.len() && i < b.len() && a.take(i) == b.take(i) && (#[trigger] a[i] as int) < (
            #[trigger] b[i] as int) ==> lex_lt(a, b),
        b.is_prefix_of(a) ==> !lex_lt(a, b),
    decreases a.len(),
{
    if a.len() > 0 && b.len() > 0 {
        law_lex_order(a.drop_first(), b.drop_first());
        if a.is_prefix_of(b) {
            assert(a[0] == b[0]);
            assert(a.drop_first().is_prefix_of(b.drop_first()));
        }
        if b.is_prefix_of(a) {
            assert(a[0] == b[0]);
            assert(b.drop_first().is_prefix_of(a.drop_first()));
        }
        assert forall|i: int|
            0 <= i < a.len() && i < b.len() && a.take(i) == b.take(i) && (#[trigger] a[i] as int) < (
            #[trigger] b[i] as int) implies lex_lt(a, b) by {
            if i > 0 {
                assert(a.take(i)[0] == b.take(i)[0]);
                assert(a[0] == b[0]);
                assert(a.drop_first().take(i - 1) =~= a.take(i).drop_first());
                assert(b.drop_first().take(i - 1) =~= b.take(i).drop_first());
                assert(a.drop_first()[i - 1] == a[i]);
                assert(b.drop_first()[i - 1] == b[i]);
            }
        }
    }
}

pub proof fn lemma_lex_irreflexive(a: Seq<char>)
    ensures
        !lex_lt(a, a),
    decreases a.len(),
{
    if a.len() > 0 {
        lemma_lex_irreflexive(a.drop_first());
    }
}

pub proof fn lemma_lex_transitive(a: Seq<char>, b: Seq<char>, c: Seq<char>)
    requires
        lex_lt(a, b),
        lex_lt(b, c),
    ensures
        lex_lt(a, c),
    decreases a.len(),
{
    if a.len() > 0 && b.len() > 0 && c.len() > 0 {
        if a[0] == b[0] && b[0] == c[0] {
            lemma_lex_transitive(a.drop_first(), b.drop_first(), c.drop_first());
        }
    }
}

pub proof fn lemma_lex_total(a: Seq<char>, b: Seq<char>)
    ensures
        a == b || lex_lt(a, b) || lex_lt(b, a),
    decreases a.len(),
{
    if a.len() > 0 && b.len() > 0 {
        if a[0] == b[0] {
            lemma_lex_total(a.drop_first(), b.drop_first());
            if a.drop_first() == b.drop_first() {
                assert(a =~= seq![a[0]] + a.drop_first());
                assert(b =~= seq![b[0]] + b.drop_first());
            }
        } else {
            assert((a[0] as int) != (b[0] as int));
        }
    } else if a.len() == 0 && b.len() == 0 {
        assert(a =~= b);
    }
}

pub proof fn lemma_lex_asymmetric(a: Seq<char>, b: Seq<char>)
    requires
        lex_lt(a, b),
    ensures
        !lex_lt(b, a),
{
    if lex_lt(b, a) {
        lemma_lex_transitive(a, b, a);
        lemma_lex_irreflexive(a);
    }
}

/// Whether `a` comes strictly before `b` in lexicographic order.
pub fn lex_less(a: &str, b: &str) -> (r: bool)
    ensures
        r == lex_lt(a@, b@),
{
    let n = a.unicode_len();
    let m = b.unicode_len();
    let mut i: usize = 0;
    assert(a@.skip(0) =~= a@);
    assert(b@.skip(0) =~= b@);
    while i < n && i < m
        invariant
            n == a@.len(),
            m == b@.len(),
            i <= n,
            i <= m,
            lex_lt(a@, b@) == lex_lt(a@.skip(i as int), b@.skip(i as int)),
        decreases n - i,
    {
        let x = a.get_char(i);
        let y = b.get_char(i);
        if x != y {
            return (x as u32) < (y as u32);
        }
        assert(a@.skip(i as int).drop_first() =~= a@.skip(i + 1));
        assert(b@.skip(i as int).drop_first() =~= b@.skip(i + 1));
        i = i + 1;
    }
    i < m
}

/// Whether two strings hold the same characters.
pub fn same_text(a: &str, b: &str) -> (r: bool)
    ensures
        r == (a@ == b@),
{
    let n = a.unicode_len();
    if n != b.unicode_len() {
        return false;
    }
    let r = starts_with(a, b);
    proof {
        if r {
            assert(b@ =~= a@.subrange(0, b@.len() as int));
            assert(a@ =~= a@.subrange(0, a@.len() as int));
        }
    }
    r
}

/// `a` followed by `b`.
pub fn concat(a: &str, b: &str) -> (r: String)
    ensures
        r@ == a@ + b@,
{
    let mut s = a.to_owned();
    s.append(b);
    s
}

/// An owned copy of `a`.
pub fn owned(a: &str) -> (r: String)
    ensures
        r@ == a@,
{
    a.to_owned()
}

/// The views of a list of strings.
pub open spec fn views(v: Seq<String>) -> Seq<Seq<char>> {
    v.map_values(|x: String| x@)
}

/// Whether some string of `list` holds the same text as `x`.
pub fn list_contains(list: &Vec<String>, x: &str) -> (r: bool)
    ensures
        r == views(list@).contains(x@),
{
    let mut i: usize = 0;
    while i < list.len()
        invariant
            i <= list@.len(),
            forall|j: int| 0 <= j < i ==> list@[j]@ != x@,
        decreases list@.len() - i,
    {
        if same_text(list[i].as_str(), x) {
            assert(views(list@)[i as int] == x@);
            return true;
        }
        i = i + 1;
    }
    assert forall|j: int| 0 <= j < views(list@).len() implies views(list@)[j] != x@ by {
        assert(list@[j]@ != x@);
    }
    false
}

proof fn lemma_trim_front_shape(s: Seq<char>)
    ensures
        trim_front(s).len() <= s.len(),
        trim_front(s) == s.skip(s.len() - trim_front(s).len()),
        trim_front(s).len() > 0 ==> !is_white(trim_front(s)[0]),
    decreases s.len(),
{
    if s.len() > 0 && is_white(s[0]) {
        lemma_trim_front_shape(s.drop_first());
        assert(s.drop_first().skip(s.drop_first().len() - trim_front(s.drop_first()).len()) =~= s.skip(
            s.len() - trim_front(s.drop_first()).len(),
        ));
    } else {
        assert(s.skip(0) =~= s);
    }
}

proof fn lemma_trim_back_shape(s: Seq<char>)
    ensures
        trim_back(s).len() <= s.len(),
        trim_back(s) == s.take(trim_back(s).len() as int),
        trim_back(s).len() > 0 ==> !is_white(trim_back(s).last()),
    decreases s.len(),
{
    if s.len() > 0 && is_white(s.last()) {
        lemma_trim_back_shape(s.drop_last());
        assert(s.drop_last().take(trim_back(s.drop_last()).len() as int) =~= s.take(
            trim_back(s.drop_last()).len() as int,
        ));
    } else {
        assert(s.take(s.len() as int) =~= s);
    }
}

/// Trimming leaves no white space at either end.
pub proof fn lemma_trimmed_ends(s: Seq<char>)
    ensures
        trimmed(s).len() > 0 ==> !is_white(trimmed(s)[0]) && !is_white(trimmed(s).last()),
{
    lemma_trim_front_shape(s);
    let f = trim_front(s);
    lemma_trim_back_shape(f);
    if trimmed(s).len() > 0 {
        assert(trimmed(s)[0] == f[0]);
    }
}

/// A git listing is read as names that are not empty and have no white
/// space at either end.
pub proof fn law_names_are_trimmed(text: Seq<char>)
    ensures
        forall|k: int|
            0 <= k < name_list(text).len() ==> (#[trigger] name_list(text)[k]).len() > 0 && !is_white(
                name_list(text)[k][0],
            ) && !is_white(name_list(text)[k].last()),
{
    let pieces = split_on(text, '\n');
    let tf = |l: Seq<char>| trimmed(l);
    let keep = |l: Seq<char>| l.len() > 0;
    let mapped = pieces.map_values(tf);
    let names = mapped.filter(keep);
    assert forall|k: int| 0 <= k < names.len() implies (#[trigger] names[k]).len() > 0 && !is_white(
        names[k][0],
    ) && !is_white(names[k].last()) by {
        mapped.lemma_filter_pred(keep, k);
        assert(mapped.filter(keep).contains(names[k]));
        mapped.lemma_filter_contains_rev(keep, names[k]);
        let m = choose|m: int| 0 <= m < mapped.len() && mapped[m] == names[k];
        lemma_trimmed_ends(pieces[m]);
    }
}

/// Cutting never yields an empty list of pieces.
proof fn lemma_split_nonempty(s: Seq<char>, sep: char)
    ensures
        split_on(s, sep).len() >= 1,
    decreases s.len(),
{
    if s.len() > 0 {
        lemma_split_nonempty(s.drop_last(), sep);
    }
}

/// A string without the separator is one piece.
proof fn lemma_split_whole(s: Seq<char>, sep: char)
    requires
        forall|k: int| 0 <= k < s.len() ==> s[k] != sep,
    ensures
        split_on(s, sep) == seq![s],
    decreases s.len(),
{
    if s.len() > 0 {
        lemma_split_whole(s.drop_last(), sep);
        assert(s.last() == s[s.len() - 1]);
        assert(s.drop_last().push(s.last()) =~= s);
        assert(seq![s.drop_last()].update(0, s.drop_last().push(s.last())) =~= seq![s]);
    } else {
        assert(s =~= Seq::<char>::empty());
    }
}

/// Cutting at a separator between two strings gives the pieces of each.
proof fn lemma_split_concat(a: Seq<char>, b: Seq<char>, sep: char)
    ensures
        split_on(a + seq![sep] + b, sep) == split_on(a, sep) + split_on(b, sep),
    decreases b.len(),
{
    let s = a + seq![sep] + b;
    if b.len() == 0 {
        assert(s =~= a.push(sep));
        assert(s.drop_last() =~= a);
        assert(split_on(a, sep).push(Seq::empty()) =~= split_on(a, sep) + seq![Seq::<char>::empty()]);
    } else {
        lemma_split_concat(a, b.drop_last(), sep);
        lemma_split_nonempty(b.drop_last(), sep);
        assert(s.drop_last() =~= a + seq![sep] + b.drop_last());
        assert(s.last() == b.last());
        let x = split_on(a, sep);
        let y = split_on(b.drop_last(), sep);
        if b.last() == sep {
            assert((x + y).push(Seq::empty()) =~= x + y.push(Seq::empty()));
        } else {
            assert((x + y).update((x + y).len() - 1, (x + y).last().push(b.last())) =~= x + y.update(
                y.len() - 1,
                y.last().push(b.last()),
            ));
        }
    }
}

/// Reading a listing goes line by line: the names of two texts joined by a
/// newline are the names of the first then those of the second, and a single
/// line gives its trimmed self, unless nothing is left of it.
pub proof fn law_name_list_lines(a: Seq<char>, b: Seq<char>, line: Seq<char>)
    ensures
        name_list(a + "\n"@ + b) == name_list(a) + name_list(b),
        (forall|k: int| 0 <= k < line.len() ==> line[k] != '\n') ==> name_list(line) == if trimmed(line).len()
            > 0 {
            seq![trimmed(line)]
        } else {
            Seq::<Seq<char>>::empty()
        },
{
    reveal_strlit("\n");
    assert("\n"@ =~= seq!['\n']);
    lemma_split_concat(a, b, '\n');
    let tf = |l: Seq<char>| trimmed(l);
    let keep = |l: Seq<char>| l.len() > 0;
    let x = split_on(a, '\n');
    let y = split_on(b, '\n');
    assert((x + y).map_values(tf) =~= x.map_values(tf) + y.map_values(tf));
    Seq::filter_distributes_over_add(x.map_values(tf), y.map_values(tf), keep);
    if forall|k: int| 0 <= k < line.len() ==> line[k] != '\n' {
        lemma_split_whole(line, '\n');
        let m = seq![line].map_values(tf);
        assert(m =~= seq![trimmed(line)]);
        reveal(Seq::filter);
        assert(m.drop_last() =~= Seq::<Seq<char>>::empty());
        assert(Seq::<Seq<char>>::empty().filter(keep) =~= Seq::<Seq<char>>::empty());
    }
}

} // verus!
