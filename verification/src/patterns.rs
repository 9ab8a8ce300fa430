//! Regex escaping, and the calls into the `regex` crate that the config
//! merge makes, each with what the crate's documentation and source say it
//! returns.

use vstd::prelude::*;
use crate::text::{chars_of, string_push};

verus! {

/// Whether `regex::escape` puts a backslash before `c`
/// (`regex_syntax::is_meta_character`).
pub open spec fn is_regex_meta(c: char) -> bool {
    c == '\\' || c == '.' || c == '+' || c == '*' || c == '?' || c == '(' || c == ')' || c == '|'
        || c == '[' || c == ']' || c == '{' || c == '}' || c == '^' || c == '$' || c == '#'
        || c == '&' || c == '-' || c == '~'
}

/// `s` with a backslash before each regex meta character.
pub open spec fn escaped(s: Seq<char>) -> Seq<char>
    decreases s.len(),
{
    if s.len() == 0 {
        seq![]
    } else {
        (if is_regex_meta(s[0]) { seq!['\\', s[0]] } else { seq![s[0]] }) + escaped(s.drop_first())
    }
}

/// `text` with every regex meta character preceded by a backslash, so that
/// the result matches `text` literally (what `regex::escape` returns).
pub fn regex_escape(text: &str) -> (r: String)
    ensures
        r@ == escaped(text@),
{
    let v = chars_of(text);
    let mut out = String::new();
    let mut i: usize = 0;
    assert(v@.skip(0) =~= v@);
    while i < v.len()
        invariant
            i <= v.len(),
            escaped(v@) == out@ + escaped(v@.skip(i as int)),
        decreases v.len() - i,
    {
        let c = v[i];
        let ghost rest = v@.skip(i as int);
        assert(rest[0] == c);
        assert(rest.drop_first() =~= v@.skip(i + 1));
        let ghost before = out@;
        if is_regex_meta_char(c) {
            string_push(&mut out, '\\');
            string_push(&mut out, c);
            assert(out@ =~= before + seq!['\\', c]);
        } else {
            string_push(&mut out, c);
            assert(out@ =~= before + seq![c]);
        }
        i = i + 1;
    }
    assert(v@.skip(i as int) =~= Seq::<char>::empty());
    assert(out@ + Seq::<char>::empty() =~= out@);
    out
}

/// Whether `c` is a regex meta character.
fn is_regex_meta_char(c: char) -> (r: bool)
    ensures
        r == is_regex_meta(c),
{
    c == '\\' || c == '.' || c == '+' || c == '*' || c == '?' || c == '(' || c == ')' || c == '|'
        || c == '[' || c == ']' || c == '{' || c == '}' || c == '^' || c == '$' || c == '#'
        || c == '&' || c == '-' || c == '~'
}

/// `n` newline characters.
pub open spec fn newlines(n: nat) -> Seq<char> {
    Seq::new(n, |i: int| '\n')
}

/// What a run of `n` newlines becomes: `rep` when it is three or longer.
pub open spec fn run_replaced(n: nat, rep: Seq<char>) -> Seq<char> {
    if n >= 3 { rep } else { newlines(n) }
}

/// `s`, after `pending` newlines already read, with every maximal run of
/// three or more newlines replaced by `rep`.
pub open spec fn runs_replaced_from(s: Seq<char>, pending: nat, rep: Seq<char>) -> Seq<char>
    decreases s.len(),
{
    if s.len() == 0 {
        run_replaced(pending, rep)
    } else if s[0] == '\n' {
        runs_replaced_from(s.drop_first(), pending + 1, rep)
    } else {
        run_replaced(pending, rep) + seq![s[0]] + runs_replaced_from(s.drop_first(), 0, rep)
    }
}

/// `s` with every maximal run of three or more newlines replaced by `rep`.
pub open spec fn newline_runs_replaced(s: Seq<char>, rep: Seq<char>) -> Seq<char> {
    runs_replaced_from(s, 0, rep)
}

/// `regex::Regex::new(pattern)` then `Regex::replace_all(text, replacement)`,
/// for the pattern `\n{3,}`: every leftmost-first, greedy match, which is each
/// maximal run of three or more newlines, is replaced by `replacement`, taken
/// literally since it holds no `$`. The pattern compiles, so `unwrap` does
/// not panic.
#[verifier::external_body]
pub(crate) fn regex_replace_all(pattern: &str, text: &str, replacement: &str) -> (r: String)
    requires
        pattern@ == newline_runs_pattern(),
        !replacement@.contains('$'),
    ensures
        r@ == newline_runs_replaced(text@, replacement@),
{
    regex::Regex::new(pattern).unwrap().replace_all(text, replacement).into_owned()
}

/// The pattern `\n{3,}`.
pub open spec fn newline_runs_pattern() -> Seq<char> {
    seq!['\\', 'n', '{', '3', ',', '}']
}

/// `p` occurs in `t` at position `i`.
pub open spec fn occurs_at(t: Seq<char>, p: Seq<char>, i: int) -> bool {
    0 <= i && i + p.len() <= t.len() && t.subrange(i, i + p.len()) == p
}

/// `p` occurs somewhere in `t`.
pub open spec fn contains_text(t: Seq<char>, p: Seq<char>) -> bool {
    exists|i: int| occurs_at(t, p, i)
}

/// Each character of an occurrence is the pattern's.
pub proof fn lemma_occurs_char(t: Seq<char>, p: Seq<char>, k: int, pos: int)
    requires
        occurs_at(t, p, k),
        k <= pos < k + p.len(),
    ensures
        t[pos] == p[pos - k],
{
    assert(t.subrange(k, k + p.len())[pos - k] == t[pos]);
}

/// An occurrence inside `t[lo..hi]` is an occurrence in that slice.
pub proof fn lemma_occurs_inside(t: Seq<char>, p: Seq<char>, k: int, lo: int, hi: int)
    requires
        occurs_at(t, p, k),
        0 <= lo <= k,
        k + p.len() <= hi <= t.len(),
    ensures
        occurs_at(t.subrange(lo, hi), p, k - lo),
{
    assert(t.subrange(lo, hi).subrange(k - lo, k - lo + p.len()) =~= t.subrange(k, k + p.len()));
}

/// `t[i..j + close.len()]` starts with `open` and ends with `close`, the two
/// not overlapping.
pub open spec fn span_at(t: Seq<char>, open: Seq<char>, close: Seq<char>, i: int, j: int) -> bool {
    occurs_at(t, open, i) && i + open.len() <= j && occurs_at(t, close, j)
}

/// Some span from `open` to `close` starts at `i`.
pub open spec fn starts_span(t: Seq<char>, open: Seq<char>, close: Seq<char>, i: int) -> bool {
    exists|j: int| span_at(t, open, close, i, j)
}

/// `t` holds a span from `open` to `close`.
pub open spec fn has_span(t: Seq<char>, open: Seq<char>, close: Seq<char>) -> bool {
    exists|i: int| starts_span(t, open, close, i)
}

/// Where the leftmost span starts.
pub open spec fn span_start(t: Seq<char>, open: Seq<char>, close: Seq<char>) -> int {
    choose|i: int|
        starts_span(t, open, close, i) && forall|k: int| 0 <= k < i ==> !starts_span(t, open, close, k)
}

/// Where the shortest span that starts at `i` has its `close`.
pub open spec fn span_close(t: Seq<char>, open: Seq<char>, close: Seq<char>, i: int) -> int {
    choose|j: int|
        span_at(t, open, close, i, j) && forall|k: int| i + open.len() <= k < j ==> !occurs_at(t, close, k)
}

/// `t` with its leftmost, shortest span from `open` to `close` replaced by
/// `rep`; `t` itself when it holds no such span.
pub open spec fn first_span_replaced(t: Seq<char>, open: Seq<char>, close: Seq<char>, rep: Seq<char>) -> Seq<char> {
    if has_span(t, open, close) {
        let i = span_start(t, open, close);
        let j = span_close(t, open, close, i);
        t.take(i) + rep + t.skip(j + close.len())
    } else {
        t
    }
}

/// The pattern `(?s)` + `escape(open)` + `.*?` + `escape(close)`: `open`,
/// then as few characters as possible, newlines included, then `close`.
pub open spec fn lazy_span_pattern(open: Seq<char>, close: Seq<char>) -> Seq<char> {
    seq!['(', '?', 's', ')'] + escaped(open) + seq!['.', '*', '?'] + escaped(close)
}

/// The two markers that delimit the managed block.
pub open spec fn managed_markers() -> (Seq<char>, Seq<char>) {
    (crate::ssh_config::MARK_START@, crate::ssh_config::MARK_END@)
}

/// `regex::RegexBuilder::new(pattern).build()` then `Regex::is_match(text)`,
/// for the pattern that matches a managed block: true exactly when `text`
/// holds the start marker followed, later, by the end marker. The pattern
/// compiles, so `unwrap` does not panic.
#[verifier::external_body]
pub(crate) fn regex_is_match(pattern: &str, text: &str) -> (r: bool)
    requires
        pattern@ == lazy_span_pattern(managed_markers().0, managed_markers().1),
    ensures
        r == has_span(text@, managed_markers().0, managed_markers().1),
{
    regex::RegexBuilder::new(pattern).build().unwrap().is_match(text)
}

/// `regex::RegexBuilder::new(pattern).build()` then `Regex::replace(text,
/// replacement)`, for the pattern that matches a managed block: the
/// leftmost match, from the first start marker that an end marker follows
/// to the nearest such end marker (the repetition is lazy and `(?s)` lets
/// `.` match newlines), is replaced by `replacement`, taken literally since it
/// holds no `$`. The pattern compiles, so `unwrap` does not panic.
#[verifier::external_body]
pub(crate) fn regex_replace(pattern: &str, text: &str, replacement: &str) -> (r: String)
    requires
        pattern@ == lazy_span_pattern(managed_markers().0, managed_markers().1),
        !replacement@.contains('$'),
    ensures
        r@ == first_span_replaced(text@, managed_markers().0, managed_markers().1, replacement@),
{
    regex::RegexBuilder::new(pattern).build().unwrap().replace(text, replacement).into_owned()
}

} // verus!
