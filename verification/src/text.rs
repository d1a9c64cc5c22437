//! Character classes and operations on character sequences.
//!
//! Strings are handled as `Seq<char>` in specifications and as `Vec<char>` in
//! executable code; `chars_of` and `string_of` convert at the edges.

use vstd::prelude::*;

verus! {

/// `char::is_whitespace`: the Unicode `White_Space` property.
pub open spec fn is_ws(c: char) -> bool {
    ||| ('\u{9}' <= c && c <= '\u{d}')
    ||| c == ' '
    ||| c == '\u{85}'
    ||| c == '\u{a0}'
    ||| c == '\u{1680}'
    ||| ('\u{2000}' <= c && c <= '\u{200a}')
    ||| c == '\u{2028}'
    ||| c == '\u{2029}'
    ||| c == '\u{202f}'
    ||| c == '\u{205f}'
    ||| c == '\u{3000}'
}

pub fn is_whitespace(c: char) -> (r: bool)
    ensures
        r == is_ws(c),
{
    ('\u{9}' <= c && c <= '\u{d}') || c == ' ' || c == '\u{85}' || c == '\u{a0}' || c == '\u{1680}'
        || ('\u{2000}' <= c && c <= '\u{200a}') || c == '\u{2028}' || c == '\u{2029}' || c
        == '\u{202f}' || c == '\u{205f}' || c == '\u{3000}'
}

/// `char::is_ascii_digit`.
pub open spec fn is_digit(c: char) -> bool {
    '0' <= c && c <= '9'
}

/// `char::is_control`: the Unicode general category `Cc`.
pub open spec fn is_control_char(c: char) -> bool {
    c <= '\u{1f}' || ('\u{7f}' <= c && c <= '\u{9f}')
}

pub open spec fn all_digits(s: Seq<char>) -> bool {
    forall|i: int| 0 <= i < s.len() ==> is_digit(#[trigger] s[i])
}

/// The characters of `s`, in order.
pub fn chars_of(s: &str) -> (v: Vec<char>)
    ensures
        v@ == s@,
{
    let mut v: Vec<char> = Vec::new();
    for c in it: s.chars()
        invariant
            v@ == it.seq().take(it.index() as int),
            it.seq() == s@,
    {
        v.push(c);
    }
    v
}


/// `s` read as text, each element by its view.
pub open spec fn views(v: Seq<String>) -> Seq<Seq<char>> {
    v.map_values(|x: String| x@)
}

/// `p` occurs in `s` starting at index `i`.
pub open spec fn occurs_at(s: Seq<char>, p: Seq<char>, i: int) -> bool {
    0 <= i && i + p.len() <= s.len() && s.subrange(i, i + p.len()) == p
}

/// `str::starts_with`.
pub open spec fn starts_with(s: Seq<char>, p: Seq<char>) -> bool {
    p.len() <= s.len() && s.take(p.len() as int) == p
}

/// `str::ends_with`.
pub open spec fn ends_with(s: Seq<char>, p: Seq<char>) -> bool {
    p.len() <= s.len() && s.skip(s.len() - p.len()) == p
}

/// The first index at or after `i` where `p` occurs in `s` (`str::find`
/// searches from the start, that is from `i == 0`).
pub open spec fn find_from(s: Seq<char>, p: Seq<char>, i: int) -> Option<int>
    decreases s.len() - i,
{
    if i < 0 || i + p.len() > s.len() {
        None
    } else if p.len() == 0 || s.subrange(i, i + p.len()) == p {
        Some(i)
    } else {
        find_from(s, p, i + 1)
    }
}

pub proof fn lemma_find_from(s: Seq<char>, p: Seq<char>, i: int)
    ensures
        find_from(s, p, i) matches Some(k) ==> i <= k && k + p.len() <= s.len() && occurs_at(s, p, k),
        find_from(s, p, i) matches Some(k) ==> forall|t: int| i <= t < k ==> !occurs_at(s, p, t),
        find_from(s, p, i) is None && 0 <= i ==> forall|t: int| i <= t ==> !occurs_at(s, p, t),
    decreases s.len() - i,
{
    if i < 0 || i + p.len() > s.len() {
    } else if p.len() == 0 || s.subrange(i, i + p.len()) == p {
        if p.len() == 0 {
            assert(s.subrange(i, i + p.len()) =~= p);
        }
    } else {
        lemma_find_from(s, p, i + 1);
    }
}

/// The first occurrence at or after `i` is at `k` when `p` occurs at `k` and
/// nowhere in between.
pub proof fn lemma_find_first(s: Seq<char>, p: Seq<char>, i: int, k: int)
    requires
        0 <= i <= k,
        occurs_at(s, p, k),
        forall|t: int| i <= t < k ==> !occurs_at(s, p, t),
    ensures
        find_from(s, p, i) == Some(k),
    decreases k - i,
{
    if i < k {
        assert(!occurs_at(s, p, i));
        if p.len() == 0 {
            assert(s.subrange(i, i + p.len()) =~= p);
        }
        lemma_find_first(s, p, i + 1, k);
    }
}

/// Text that neither starts nor ends with white space is its own trim.
pub proof fn lemma_trim_noop(s: Seq<char>)
    requires
        s.len() > 0 ==> !is_ws(s[0]) && !is_ws(s.last()),
    ensures
        trim(s) == s,
{
    assert(s.skip(0) =~= s);
    assert(trim_start(s) == s);
    assert(s.take(s.len() as int) =~= s);
}

/// `str::split_once`: the parts before and after the first occurrence of `p`.
pub open spec fn split_once(s: Seq<char>, p: Seq<char>) -> Option<(Seq<char>, Seq<char>)> {
    match find_from(s, p, 0) {
        Some(k) => Some((s.take(k), s.skip(k + p.len()))),
        None => None,
    }
}

/// `str::trim_start`: `s` from index `i` on, without its leading white space.
pub open spec fn trim_start_from(s: Seq<char>, i: int) -> Seq<char>
    decreases s.len() - i,
{
    if 0 <= i < s.len() && is_ws(s[i]) {
        trim_start_from(s, i + 1)
    } else {
        s.skip(i)
    }
}

/// `str::trim_end`: the first `j` characters of `s`, without trailing white space.
pub open spec fn trim_end_to(s: Seq<char>, j: int) -> Seq<char>
    decreases j,
{
    if 0 < j <= s.len() && is_ws(s[j - 1]) {
        trim_end_to(s, j - 1)
    } else {
        s.take(j)
    }
}

pub open spec fn trim_start(s: Seq<char>) -> Seq<char> {
    trim_start_from(s, 0)
}

pub open spec fn trim_end(s: Seq<char>) -> Seq<char> {
    trim_end_to(s, s.len() as int)
}

/// `str::trim`: `s` without leading and trailing white space.
pub open spec fn trim(s: Seq<char>) -> Seq<char> {
    trim_end(trim_start(s))
}

/// A line without the carriage return of a `\r\n` line ending.
pub open spec fn strip_cr(l: Seq<char>) -> Seq<char> {
    if l.len() > 0 && l.last() == '\r' {
        l.drop_last()
    } else {
        l
    }
}

/// The lines of `s` from index `i` on, the current line having begun at `start`.
pub open spec fn lines_acc(s: Seq<char>, i: int, start: int) -> Seq<Seq<char>>
    decreases s.len() - i,
{
    if i < 0 || i >= s.len() {
        if 0 <= start < s.len() {
            seq![s.subrange(start, s.len() as int)]
        } else {
            seq![]
        }
    } else if s[i] == '\n' {
        seq![strip_cr(s.subrange(start, i))] + lines_acc(s, i + 1, i + 1)
    } else {
        lines_acc(s, i + 1, start)
    }
}

/// `str::lines`: `s` split at `\n` and `\r\n`; a final line ending adds no
/// empty line, and a lone `\r` splits nothing.
pub open spec fn lines(s: Seq<char>) -> Seq<Seq<char>> {
    lines_acc(s, 0, 0)
}

/// `str::replace` for a non-empty pattern: every non-overlapping occurrence of
/// `p` from index `i` on, found from left to right, replaced by `r`.
pub open spec fn replace_from(s: Seq<char>, p: Seq<char>, r: Seq<char>, i: int) -> Seq<char>
    decreases s.len() - i,
{
    if i < 0 || i >= s.len() {
        seq![]
    } else if p.len() > 0 && i + p.len() <= s.len() && s.subrange(i, i + p.len()) == p {
        r + replace_from(s, p, r, i + p.len())
    } else {
        seq![s[i]] + replace_from(s, p, r, i + 1)
    }
}

pub open spec fn replace(s: Seq<char>, p: Seq<char>, r: Seq<char>) -> Seq<char> {
    replace_from(s, p, r, 0)
}

/// `[T]::join` on strings: the parts with `sep` between each two of them.
pub open spec fn join(parts: Seq<Seq<char>>, sep: Seq<char>) -> Seq<char>
    decreases parts.len(),
{
    if parts.len() == 0 {
        seq![]
    } else if parts.len() == 1 {
        parts[0]
    } else {
        join(parts.drop_last(), sep) + sep + parts.last()
    }
}

// ---------------------------------------------------------------------------
// Lines and joining

/// `l` holds no line feed.
pub open spec fn no_newline(l: Seq<char>) -> bool {
    forall|k: int| 0 <= k < l.len() ==> l[k] != '\n'
}

/// `l` does not end with a carriage return.
pub open spec fn no_trailing_cr(l: Seq<char>) -> bool {
    !(l.len() > 0 && l.last() == '\r')
}

/// Lines that survive being written out with `\n` and read back with `lines`.
pub open spec fn clean_lines(ls: Seq<Seq<char>>) -> bool {
    forall|i: int| 0 <= i < ls.len() ==> no_newline(#[trigger] ls[i]) && no_trailing_cr(ls[i])
}

/// The lines, each followed by `\n`.
pub open spec fn terminated(ls: Seq<Seq<char>>) -> Seq<char>
    decreases ls.len(),
{
    if ls.len() == 0 {
        seq![]
    } else {
        terminated(ls.drop_last()) + ls.last() + seq!['\n']
    }
}

pub proof fn lemma_join_terminated(ls: Seq<Seq<char>>)
    requires
        ls.len() > 0,
    ensures
        join(ls, seq!['\n']).push('\n') == terminated(ls),
    decreases ls.len(),
{
    if ls.len() == 1 {
        assert(terminated(ls.drop_last()) =~= seq![]);
        assert(join(ls, seq!['\n']).push('\n') =~= terminated(ls));
    } else {
        lemma_join_terminated(ls.drop_last());
        assert(join(ls, seq!['\n']).push('\n') =~= terminated(ls));
    }
}

proof fn lemma_terminated_first(ls: Seq<Seq<char>>)
    requires
        ls.len() > 0,
    ensures
        terminated(ls) == ls[0] + seq!['\n'] + terminated(ls.drop_first()),
    decreases ls.len(),
{
    if ls.len() == 1 {
        assert(ls.drop_first() =~= Seq::<Seq<char>>::empty());
        assert(terminated(ls.drop_last()) =~= seq![]);
        assert(terminated(ls) =~= ls[0] + seq!['\n'] + terminated(ls.drop_first()));
    } else {
        lemma_terminated_first(ls.drop_last());
        assert(ls.drop_last().drop_first() =~= ls.drop_first().drop_last());
        assert(ls.drop_first().last() == ls.last());
        assert(terminated(ls) =~= ls[0] + seq!['\n'] + terminated(ls.drop_first()));
    }
}

proof fn lemma_lines_acc_skip_line(s: Seq<char>, start: int, j: int, end: int)
    requires
        0 <= start <= j <= end < s.len(),
        s[end] == '\n',
        forall|t: int| start <= t < end ==> s[t] != '\n',
    ensures
        lines_acc(s, j, start) == seq![strip_cr(s.subrange(start, end))] + lines_acc(
            s,
            end + 1,
            end + 1,
        ),
    decreases end - j,
{
    if j < end {
        lemma_lines_acc_skip_line(s, start, j + 1, end);
    }
}

proof fn lemma_lines_terminated_at(s: Seq<char>, i: int, ls: Seq<Seq<char>>)
    requires
        0 <= i <= s.len(),
        s.skip(i) == terminated(ls),
        forall|k: int| 0 <= k < ls.len() ==> no_newline(#[trigger] ls[k]),
    ensures
        lines_acc(s, i, i) == ls.map_values(|l: Seq<char>| strip_cr(l)),
    decreases ls.len(),
{
    if ls.len() == 0 {
        assert(s.skip(i).len() == 0);
        assert(ls.map_values(|l: Seq<char>| strip_cr(l)) =~= Seq::<Seq<char>>::empty());
    } else {
        lemma_terminated_first(ls);
        let l = ls[0];
        let end = i + l.len();
        assert(s.skip(i) == l + seq!['\n'] + terminated(ls.drop_first()));
        assert(s.subrange(i, end) =~= l) by {
            assert forall|t: int| 0 <= t < l.len() implies s.subrange(i, end)[t] == l[t] by {
                assert(s[i + t] == s.skip(i)[t]);
            }
        }
        assert(s[end] == '\n') by {
            assert(s[end] == s.skip(i)[l.len() as int]);
        }
        assert forall|t: int| i <= t < end implies s[t] != '\n' by {
            assert(s[t] == l[t - i]);
            assert(no_newline(ls[0]));
        }
        lemma_lines_acc_skip_line(s, i, i, end);
        assert(s.skip(end + 1) =~= terminated(ls.drop_first())) by {
            assert forall|t: int| 0 <= t < s.skip(end + 1).len() implies s.skip(end + 1)[t]
                == terminated(ls.drop_first())[t] by {
                assert(s.skip(end + 1)[t] == s.skip(i)[l.len() + 1 + t]);
            }
        }
        assert forall|k: int| 0 <= k < ls.drop_first().len() implies no_newline(
            #[trigger] ls.drop_first()[k],
        ) by {
            assert(ls.drop_first()[k] == ls[k + 1]);
        }
        lemma_lines_terminated_at(s, end + 1, ls.drop_first());
        assert(ls.map_values(|l: Seq<char>| strip_cr(l)) =~= seq![strip_cr(l)]
            + ls.drop_first().map_values(|l: Seq<char>| strip_cr(l)));
    }
}

/// Joining keeps every part: the result is at least as long as each of them.
pub proof fn lemma_join_len(ls: Seq<Seq<char>>, sep: Seq<char>, i: int)
    requires
        0 <= i < ls.len(),
    ensures
        join(ls, sep).len() >= ls[i].len(),
    decreases ls.len(),
{
    if ls.len() > 1 && i < ls.len() - 1 {
        lemma_join_len(ls.drop_last(), sep, i);
    }
}

/// Clean lines written out with `\n` after each are read back by `lines` as they were.
pub proof fn lemma_lines_of_terminated(ls: Seq<Seq<char>>)
    requires
        clean_lines(ls),
    ensures
        lines(terminated(ls)) == ls,
{
    let s = terminated(ls);
    assert(s.skip(0) =~= s);
    lemma_lines_terminated_at(s, 0, ls);
    assert forall|k: int| 0 <= k < ls.len() implies strip_cr(ls[k]) == ls[k] by {
        assert(no_trailing_cr(ls[k]));
    }
    assert(ls.map_values(|l: Seq<char>| strip_cr(l)) =~= ls);
}

proof fn lemma_lines_acc_no_newline(s: Seq<char>, i: int, start: int)
    requires
        0 <= start <= i,
        forall|t: int| start <= t < i && t < s.len() ==> s[t] != '\n',
    ensures
        forall|k: int|
            0 <= k < lines_acc(s, i, start).len() ==> no_newline(#[trigger] lines_acc(s, i, start)[k]),
    decreases s.len() - i,
{
    if i < s.len() {
        if s[i] == '\n' {
            lemma_lines_acc_no_newline(s, i + 1, i + 1);
            let l = strip_cr(s.subrange(start, i));
            assert(no_newline(s.subrange(start, i)));
            assert(no_newline(l));
            let rest = lines_acc(s, i + 1, i + 1);
            assert forall|k: int| 0 <= k < lines_acc(s, i, start).len() implies no_newline(
                #[trigger] lines_acc(s, i, start)[k],
            ) by {
                assert(lines_acc(s, i, start) == seq![l] + rest);
                if k > 0 {
                    assert(lines_acc(s, i, start)[k] == rest[k - 1]);
                } else {
                    assert(lines_acc(s, i, start)[k] == l);
                }
            }
        } else {
            lemma_lines_acc_no_newline(s, i + 1, start);
            assert(lines_acc(s, i, start) == lines_acc(s, i + 1, start));
        }
    } else if 0 <= start < s.len() {
        assert(no_newline(s.subrange(start, s.len() as int)));
        assert(lines_acc(s, i, start) == seq![s.subrange(start, s.len() as int)]);
    } else {
        assert(lines_acc(s, i, start) == Seq::<Seq<char>>::empty());
    }
}

/// No line that `lines` gives holds a line feed.
pub proof fn lemma_lines_no_newline(s: Seq<char>)
    ensures
        forall|k: int| 0 <= k < lines(s).len() ==> no_newline(#[trigger] lines(s)[k]),
{
    lemma_lines_acc_no_newline(s, 0, 0);
}

/// `white space + s` trims to what `s` trims to.
pub proof fn lemma_trim_leading_ws(c: char, s: Seq<char>)
    requires
        is_ws(c),
    ensures
        trim(seq![c] + s) == trim(s),
{
    lemma_trim_start_shift(c, s, 0);
    assert(trim_start(seq![c] + s) == trim_start_from(seq![c] + s, 1));
}

proof fn lemma_trim_start_shift(c: char, s: Seq<char>, i: int)
    requires
        0 <= i <= s.len(),
    ensures
        trim_start_from(seq![c] + s, i + 1) == trim_start_from(s, i),
    decreases s.len() - i,
{
    let x = seq![c] + s;
    if i < s.len() {
        assert(x[i + 1] == s[i]);
        if is_ws(s[i]) {
            lemma_trim_start_shift(c, s, i + 1);
        } else {
            assert(x.skip(i + 1) =~= s.skip(i));
        }
    } else {
        assert(x.skip(i + 1) =~= s.skip(i));
    }
}

/// Whether every character of `s` is an ASCII digit.
pub fn all_ascii_digits(s: &Vec<char>) -> (r: bool)
    ensures
        r == all_digits(s@),
{
    let mut j: usize = 0;
    while j < s.len()
        invariant
            0 <= j <= s@.len(),
            forall|t: int| 0 <= t < j ==> is_digit(#[trigger] s@[t]),
        decreases s@.len() - j,
    {
        let c = s[j];
        if !('0' <= c && c <= '9') {
            assert(!is_digit(s@[j as int]));
            return false;
        }
        j = j + 1;
    }
    true
}

/// Whether `p` occurs in `s` at index `i`.
pub fn matches_at(s: &Vec<char>, p: &Vec<char>, i: usize) -> (r: bool)
    requires
        i + p@.len() <= s@.len(),
    ensures
        r == (s@.subrange(i as int, i + p@.len()) == p@),
{
    let slen = s.len();
    let mut j: usize = 0;
    while j < p.len()
        invariant
            slen == s@.len(),
            0 <= j <= p@.len(),
            i + p@.len() <= s@.len(),
            s@.subrange(i as int, i + j) == p@.take(j as int),
        decreases p@.len() - j,
    {
        if s[i + j] != p[j] {
            assert(s@.subrange(i as int, i + p@.len())[j as int] != p@[j as int]);
            return false;
        }
        j = j + 1;
        assert(s@.subrange(i as int, i + j) =~= p@.take(j as int));
    }
    assert(p@.take(p@.len() as int) =~= p@);
    true
}

/// The first index at or after `from` where `p` occurs in `s`.
pub fn find_chars(s: &Vec<char>, p: &Vec<char>, from: usize) -> (r: Option<usize>)
    requires
        from <= s@.len(),
    ensures
        find_from(s@, p@, from as int) == (match r {
            Some(k) => Some(k as int),
            None => None,
        }),
{
    let mut i: usize = from;
    while p.len() <= s.len() - i
        invariant
            from <= i <= s@.len(),
            find_from(s@, p@, from as int) == find_from(s@, p@, i as int),
        decreases s@.len() - i,
    {
        if p.len() == 0 || matches_at(s, p, i) {
            return Some(i);
        }
        i = i + 1;
    }
    None
}

/// The characters of `s` from index `a` up to index `b`.
pub fn slice_chars(s: &Vec<char>, a: usize, b: usize) -> (r: Vec<char>)
    requires
        a <= b <= s@.len(),
    ensures
        r@ == s@.subrange(a as int, b as int),
{
    let mut r: Vec<char> = Vec::new();
    let mut k: usize = a;
    while k < b
        invariant
            a <= k <= b <= s@.len(),
            r@ == s@.subrange(a as int, k as int),
        decreases b - k,
    {
        r.push(s[k]);
        k = k + 1;
        assert(r@ =~= s@.subrange(a as int, k as int));
    }
    r
}

/// `s` without leading white space.
pub fn trim_start_chars(s: &Vec<char>) -> (r: Vec<char>)
    ensures
        r@ == trim_start(s@),
{
    let mut a: usize = 0;
    while a < s.len() && is_whitespace(s[a])
        invariant
            0 <= a <= s@.len(),
            trim_start(s@) == trim_start_from(s@, a as int),
        decreases s@.len() - a,
    {
        a = a + 1;
    }
    let t = slice_chars(s, a, s.len());
    assert(t@ =~= trim_start(s@));
    t
}

/// `s` without leading and trailing white space.
pub fn trim_chars(s: &Vec<char>) -> (r: Vec<char>)
    ensures
        r@ == trim(s@),
{
    let mut a: usize = 0;
    while a < s.len() && is_whitespace(s[a])
        invariant
            0 <= a <= s@.len(),
            trim_start(s@) == trim_start_from(s@, a as int),
        decreases s@.len() - a,
    {
        a = a + 1;
    }
    let t = slice_chars(s, a, s.len());
    assert(t@ =~= trim_start(s@));
    let mut b: usize = t.len();
    while b > 0 && is_whitespace(t[b - 1])
        invariant
            0 <= b <= t@.len(),
            trim_end(t@) == trim_end_to(t@, b as int),
        decreases b,
    {
        b = b - 1;
    }
    let r = slice_chars(&t, 0, b);
    assert(r@ =~= t@.take(b as int));
    r
}

/// The text of `s` without leading and trailing white space.
pub fn trim_str(s: &str) -> (r: String)
    ensures
        r@ == trim(s@),
{
    string_of(trim_chars(&chars_of(s)))
}

/// The lines of `s`, as `str::lines` splits them.
pub fn lines_of(s: &str) -> (r: Vec<String>)
    ensures
        views(r@) == lines(s@),
{
    let cs = chars_of(s);
    let mut out: Vec<String> = Vec::new();
    let mut start: usize = 0;
    let mut i: usize = 0;
    while i < cs.len()
        invariant
            0 <= start <= i <= cs@.len(),
            cs@ == s@,
            lines(s@) == views(out@) + lines_acc(s@, i as int, start as int),
        decreases cs@.len() - i,
    {
        if cs[i] == '\n' {
            let mut line = slice_chars(&cs, start, i);
            if line.len() > 0 && line[line.len() - 1] == '\r' {
                line.pop();
            }
            let ghost before = views(out@);
            proof {
                assert(line@ =~= strip_cr(s@.subrange(start as int, i as int)));
            }
            out.push(string_of(line));
            assert(views(out@) =~= before.push(strip_cr(s@.subrange(start as int, i as int))));
            start = i + 1;
        }
        i = i + 1;
    }
    if start < cs.len() {
        let line = slice_chars(&cs, start, cs.len());
        let ghost before = views(out@);
        out.push(string_of(line));
        assert(views(out@) =~= before.push(s@.subrange(start as int, s@.len() as int)));
    }
    assert(lines(s@) =~= views(out@));
    out
}

/// `p` with every non-overlapping occurrence of the non-empty `pat` replaced by `rep`.
pub fn replace_chars(s: &Vec<char>, pat: &Vec<char>, rep: &Vec<char>) -> (r: Vec<char>)
    requires
        pat@.len() > 0,
    ensures
        r@ == replace(s@, pat@, rep@),
{
    let mut out: Vec<char> = Vec::new();
    let mut i: usize = 0;
    while i < s.len()
        invariant
            0 <= i <= s@.len(),
            pat@.len() > 0,
            replace(s@, pat@, rep@) == out@ + replace_from(s@, pat@, rep@, i as int),
        decreases s@.len() - i,
    {
        let ghost before = out@;
        if pat.len() <= s.len() - i && matches_at(s, pat, i) {
            let mut k: usize = 0;
            while k < rep.len()
                invariant
                    0 <= k <= rep@.len(),
                    out@ == before + rep@.take(k as int),
                decreases rep@.len() - k,
            {
                out.push(rep[k]);
                k = k + 1;
                assert(out@ =~= before + rep@.take(k as int));
            }
            assert(rep@.take(rep@.len() as int) =~= rep@);
            assert(out@ + replace_from(s@, pat@, rep@, i + pat@.len()) =~= before + (rep@
                + replace_from(s@, pat@, rep@, i + pat@.len())));
            i = i + pat.len();
        } else {
            out.push(s[i]);
            assert(out@ + replace_from(s@, pat@, rep@, i + 1) =~= before + (seq![s@[i as int]]
                + replace_from(s@, pat@, rep@, i + 1)));
            i = i + 1;
        }
    }
    assert(out@ + replace_from(s@, pat@, rep@, i as int) =~= out@);
    out
}

/// The parts joined with `sep` between each two of them, as `[String]::join` does.
pub fn join_strings(parts: &Vec<String>, sep: &str) -> (r: String)
    ensures
        r@ == join(views(parts@), sep@),
{
    let mut r = String::new();
    let ghost vs = views(parts@);
    let mut i: usize = 0;
    while i < parts.len()
        invariant
            0 <= i <= parts@.len(),
            vs == views(parts@),
            r@ == join(vs.take(i as int), sep@),
        decreases parts@.len() - i,
    {
        if i != 0 {
            r.append(sep);
        }
        r.append(parts[i].as_str());
        assert(vs.take(i + 1).drop_last() =~= vs.take(i as int));
        i = i + 1;
    }
    assert(vs.take(parts@.len() as int) =~= vs);
    r
}

/// `str::strip_prefix`.
pub open spec fn strip_prefix(s: Seq<char>, p: Seq<char>) -> Option<Seq<char>> {
    if starts_with(s, p) {
        Some(s.skip(p.len() as int))
    } else {
        None
    }
}

/// Whether `a` and `b` hold the same characters.
pub fn chars_eq(a: &Vec<char>, b: &Vec<char>) -> (r: bool)
    ensures
        r == (a@ == b@),
{
    if a.len() != b.len() {
        return false;
    }
    let r = matches_at(a, b, 0);
    assert(a@.subrange(0, b@.len() as int) =~= a@);
    r
}

/// Whether `s` starts with `p`.
pub fn starts_with_chars(s: &Vec<char>, p: &Vec<char>) -> (r: bool)
    ensures
        r == starts_with(s@, p@),
{
    if p.len() > s.len() {
        return false;
    }
    let r = matches_at(s, p, 0);
    assert(s@.subrange(0, p@.len() as int) =~= s@.take(p@.len() as int));
    r
}

/// `s` without its prefix `p`, if it has that prefix.
pub fn strip_prefix_chars(s: &Vec<char>, p: &Vec<char>) -> (r: Option<Vec<char>>)
    ensures
        match r {
            Some(v) => strip_prefix(s@, p@) == Some(v@),
            None => strip_prefix(s@, p@) is None,
        },
{
    if starts_with_chars(s, p) {
        let rest = slice_chars(s, p.len(), s.len());
        assert(rest@ =~= s@.skip(p@.len() as int));
        Some(rest)
    } else {
        None
    }
}

/// The parts of `s` before and after the first occurrence of `p`.
pub fn split_once_chars(s: &Vec<char>, p: &Vec<char>) -> (r: Option<(Vec<char>, Vec<char>)>)
    ensures
        match r {
            Some((a, b)) => split_once(s@, p@) == Some((a@, b@)),
            None => split_once(s@, p@) is None,
        },
{
    let n = s.len();
    match find_chars(s, p, 0) {
        None => None,
        Some(k) => {
            proof {
                lemma_find_from(s@, p@, 0);
            }
            let a = slice_chars(s, 0, k);
            let b = slice_chars(s, k + p.len(), n);
            assert(a@ =~= s@.take(k as int));
            assert(b@ =~= s@.skip(k + p@.len()));
            Some((a, b))
        },
    }
}

/// Whether `list` holds a string equal to `s`.
pub fn contains_chars(list: &[String], s: &Vec<char>) -> (r: bool)
    ensures
        r == views(list@).contains(s@),
{
    let mut i: usize = 0;
    while i < list.len()
        invariant
            0 <= i <= list@.len(),
            forall|t: int| 0 <= t < i ==> (#[trigger] list@[t])@ != s@,
        decreases list@.len() - i,
    {
        let c = chars_of(list[i].as_str());
        if chars_eq(&c, s) {
            assert(views(list@)[i as int] == s@);
            return true;
        }
        i = i + 1;
    }
    assert forall|t: int| 0 <= t < views(list@).len() implies views(list@)[t] != s@ by {
        assert(views(list@)[t] == list@[t]@);
    }
    false
}

/// The string holding exactly the characters of `v`.
///
/// Trusted: `String::from_iter` over `char`s collects the characters in order,
/// so the view of the result is `v@`.
#[verifier::external_body]
pub(crate) fn string_of(v: Vec<char>) -> (s: String)
    ensures
        s@ == v@,
{
    String::from_iter(v)
}

} // verus!
