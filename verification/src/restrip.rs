//! Stripping managed hosts a second time keeps what the first pass kept:
//! words, trimming and the rebuilt `Host` lines, line by line.

use vstd::prelude::*;
use crate::text::{is_white_space, trim, trim_start, trim_end, words, words_from, join, starts_with};
use crate::order::lowercase;
use crate::ssh_config::{strip_line, strip_lines, after_first, unmanaged};
use crate::patterns::{newlines, run_replaced, runs_replaced_from, contains_text, occurs_at};
use crate::ssh_config::{manual_part, merged_config, MARK_START, MARK_END};
use crate::laws::law_next_merge_drops_managed_block;

verus! {

/// No character of `s` is whitespace.
pub open spec fn no_white(s: Seq<char>) -> bool {
    forall|i: int| 0 <= i < s.len() ==> !is_white_space(#[trigger] s[i])
}

/// Every character of `s` is whitespace.
pub open spec fn all_white(s: Seq<char>) -> bool {
    forall|i: int| 0 <= i < s.len() ==> is_white_space(#[trigger] s[i])
}

/// `w` is a word: non-empty, without whitespace.
pub open spec fn is_word(w: Seq<char>) -> bool {
    w.len() > 0 && no_white(w)
}

/// Splitting at a space splits the words.
proof fn lemma_words_split(a: Seq<char>, b: Seq<char>, cur: Seq<char>)
    ensures
        words_from(a + seq![' '] + b, cur) == words_from(a, cur) + words_from(b, seq![]),
    decreases a.len(),
{
    assert(is_white_space(' '));
    let s = a + seq![' '] + b;
    if a.len() == 0 {
        assert(s =~= seq![' '] + b);
        assert(s.drop_first() =~= b);
    } else {
        assert(s.drop_first() =~= a.drop_first() + seq![' '] + b);
        assert(s[0] == a[0]);
        if is_white_space(a[0]) {
            lemma_words_split(a.drop_first(), b, seq![]);
            let head: Seq<Seq<char>> = if cur.len() > 0 { seq![cur] } else { seq![] };
            assert(words_from(s, cur) =~= head + (words_from(a.drop_first(), seq![]) + words_from(b, seq![])));
            assert(words_from(a, cur) =~= head + words_from(a.drop_first(), seq![]));
        } else {
            lemma_words_split(a.drop_first(), b, cur.push(a[0]));
        }
    }
}

/// A text without whitespace, after `cur`, is one word.
proof fn lemma_word_alone(w: Seq<char>, cur: Seq<char>)
    requires
        no_white(w),
        cur.len() + w.len() > 0,
    ensures
        words_from(w, cur) == seq![cur + w],
    decreases w.len(),
{
    if w.len() == 0 {
        assert(cur + w =~= cur);
    } else {
        assert(!is_white_space(w[0]));
        assert(no_white(w.drop_first()));
        lemma_word_alone(w.drop_first(), cur.push(w[0]));
        assert(cur.push(w[0]) + w.drop_first() =~= cur + w);
    }
}

/// Words joined by single spaces read back as those words.
proof fn lemma_words_of_join(ws: Seq<Seq<char>>)
    requires
        ws.len() > 0,
        forall|i: int| 0 <= i < ws.len() ==> is_word(#[trigger] ws[i]),
    ensures
        words(join(ws, " "@)) == ws,
    decreases ws.len(),
{
    reveal_strlit(" ");
    assert(" "@ =~= seq![' ']);
    assert(is_word(ws[0]));
    if ws.len() == 1 {
        lemma_word_alone(ws[0], seq![]);
        assert(seq![] + ws[0] =~= ws[0]);
        assert(ws =~= seq![ws[0]]);
    } else {
        let init = ws.drop_last();
        assert forall|i: int| 0 <= i < init.len() implies is_word(#[trigger] init[i]) by {
            assert(init[i] == ws[i]);
        }
        lemma_words_of_join(init);
        assert(is_word(ws.last()));
        lemma_words_split(join(init, " "@), ws.last(), seq![]);
        lemma_word_alone(ws.last(), seq![]);
        assert(seq![] + ws.last() =~= ws.last());
        assert(join(ws, " "@) == join(init, " "@) + seq![' '] + ws.last());
        assert(init + seq![ws.last()] =~= ws);
    }
}

/// Every word read is a word.
proof fn lemma_words_are_words(s: Seq<char>, cur: Seq<char>)
    requires
        no_white(cur),
    ensures
        forall|i: int| 0 <= i < words_from(s, cur).len() ==> is_word(#[trigger] words_from(s, cur)[i]),
    decreases s.len(),
{
    if s.len() == 0 {
        if cur.len() > 0 {
            assert(words_from(s, cur) =~= seq![cur]);
            assert(is_word(cur));
        }
    } else if is_white_space(s[0]) {
        lemma_words_are_words(s.drop_first(), seq![]);
        let head: Seq<Seq<char>> = if cur.len() > 0 { seq![cur] } else { seq![] };
        let tail = words_from(s.drop_first(), seq![]);
        assert(words_from(s, cur) == head + tail);
        assert forall|i: int| 0 <= i < words_from(s, cur).len() implies is_word(#[trigger] words_from(s, cur)[i]) by {
            if i >= head.len() {
                assert(words_from(s, cur)[i] == tail[i - head.len()]);
            } else {
                assert(words_from(s, cur)[i] == cur);
                assert(is_word(cur));
            }
        }
    } else {
        assert(no_white(cur.push(s[0]))) by {
            assert forall|j: int| 0 <= j < cur.push(s[0]).len() implies !is_white_space(#[trigger] cur.push(s[0])[j]) by {
                if j < cur.len() {
                    assert(cur.push(s[0])[j] == cur[j]);
                }
            }
        }
        assert(words_from(s, cur) == words_from(s.drop_first(), cur.push(s[0])));
        lemma_words_are_words(s.drop_first(), cur.push(s[0]));
    }
}

/// The first word of a text that starts with a non-space character, after
/// `cur`, is `cur` followed by the first `k` characters of the text.
proof fn lemma_first_word(s: Seq<char>, cur: Seq<char>) -> (k: int)
    requires
        cur.len() > 0 || (s.len() > 0 && !is_white_space(s[0])),
    ensures
        0 <= k <= s.len(),
        words_from(s, cur).len() > 0,
        words_from(s, cur)[0] == cur + s.take(k),
    decreases s.len(),
{
    if s.len() == 0 {
        assert(cur + s.take(0) =~= cur);
        0
    } else if is_white_space(s[0]) {
        assert(cur + s.take(0) =~= cur);
        0
    } else {
        let k1 = lemma_first_word(s.drop_first(), cur.push(s[0]));
        assert(cur.push(s[0]) + s.drop_first().take(k1) =~= cur + s.take(k1 + 1));
        k1 + 1
    }
}

/// Trimming the start drops a run of whitespace.
proof fn lemma_trim_start_split(s: Seq<char>) -> (w: int)
    ensures
        0 <= w <= s.len(),
        trim_start(s) == s.skip(w),
        all_white(s.take(w)),
        trim_start(s).len() > 0 ==> !is_white_space(trim_start(s)[0]),
    decreases s.len(),
{
    if s.len() > 0 && is_white_space(s[0]) {
        let w1 = lemma_trim_start_split(s.drop_first());
        assert(s.drop_first().skip(w1) =~= s.skip(w1 + 1));
        assert forall|i: int| 0 <= i < w1 + 1 implies is_white_space(#[trigger] s.take(w1 + 1)[i]) by {
            if i > 0 {
                assert(s.take(w1 + 1)[i] == s.drop_first().take(w1)[i - 1]);
            }
        }
        w1 + 1
    } else {
        assert(s.skip(0) =~= s);
        0
    }
}

/// Trimming the end keeps a prefix that ends, if anywhere, in a non-space.
proof fn lemma_trim_end_prefix(s: Seq<char>)
    ensures
        trim_end(s).len() <= s.len(),
        trim_end(s) == s.take(trim_end(s).len() as int),
        trim_end(s).len() > 0 ==> !is_white_space(trim_end(s).last()),
    decreases s.len(),
{
    if s.len() > 0 && is_white_space(s.last()) {
        lemma_trim_end_prefix(s.drop_last());
        assert(s.drop_last().take(trim_end(s).len() as int) =~= s.take(trim_end(s).len() as int));
    } else {
        assert(s.take(s.len() as int) =~= s);
    }
}

/// Leading whitespace before a non-space is what trimming the start drops.
proof fn lemma_trim_start_white(w: Seq<char>, x: Seq<char>)
    requires
        all_white(w),
        x.len() > 0,
        !is_white_space(x[0]),
    ensures
        trim_start(w + x) == x,
    decreases w.len(),
{
    if w.len() == 0 {
        assert(w + x =~= x);
    } else {
        assert(is_white_space(w[0]));
        assert(all_white(w.drop_first()));
        lemma_trim_start_white(w.drop_first(), x);
        assert((w + x).drop_first() =~= w.drop_first() + x);
    }
}

/// The aliases that stay are aliases of the line, none of them managed.
proof fn lemma_unmanaged_from(a: Seq<Seq<char>>, names: Seq<Seq<char>>)
    ensures
        forall|i: int| 0 <= i < unmanaged(a, names).len() ==>
            a.contains(#[trigger] unmanaged(a, names)[i]) && !names.contains(unmanaged(a, names)[i]),
    decreases a.len(),
{
    if a.len() > 0 {
        lemma_unmanaged_from(a.drop_last(), names);
        let u0 = unmanaged(a.drop_last(), names);
        assert forall|i: int| 0 <= i < unmanaged(a, names).len() implies
            a.contains(#[trigger] unmanaged(a, names)[i]) && !names.contains(unmanaged(a, names)[i]) by {
            if i < u0.len() {
                assert(unmanaged(a, names)[i] == u0[i]);
                let j = choose|j: int| 0 <= j < a.drop_last().len() && a.drop_last()[j] == u0[i];
                assert(a[j] == u0[i]);
            } else {
                assert(unmanaged(a, names)[i] == a.last());
                assert(a[a.len() - 1] == a.last());
            }
        }
    }
}

/// When no alias is managed, all stay.
proof fn lemma_unmanaged_all(a: Seq<Seq<char>>, names: Seq<Seq<char>>)
    requires
        forall|i: int| 0 <= i < a.len() ==> !names.contains(#[trigger] a[i]),
    ensures
        unmanaged(a, names) == a,
    decreases a.len(),
{
    if a.len() > 0 {
        assert forall|i: int| 0 <= i < a.drop_last().len() implies !names.contains(#[trigger] a.drop_last()[i]) by {
            assert(a.drop_last()[i] == a[i]);
        }
        lemma_unmanaged_all(a.drop_last(), names);
        assert(!names.contains(a[a.len() - 1]));
        assert(a.drop_last() + seq![a.last()] =~= a);
    }
}

/// Words joined by spaces end with the last word's last character.
proof fn lemma_join_last(ws: Seq<Seq<char>>)
    requires
        ws.len() > 0,
        ws.last().len() > 0,
    ensures
        join(ws, " "@).len() > 0,
        join(ws, " "@).last() == ws.last().last(),
{
    if ws.len() == 1 {
        assert(ws.last() == ws[0]);
    }
}

/// A `Host` line that the first pass rebuilt, from its leading whitespace
/// `w`, keyword `p0` and remaining aliases `keep`, none of them managed,
/// comes out of a second pass as it went in.
proof fn lemma_rebuilt_line_stays(w: Seq<char>, p0: Seq<char>, keep: Seq<Seq<char>>, names: Seq<Seq<char>>)
    requires
        all_white(w),
        is_word(p0),
        keep.len() > 0,
        forall|i: int| 0 <= i < keep.len() ==> is_word(#[trigger] keep[i]) && !names.contains(keep[i]),
    ensures
        ({
            let r = w + p0 + " "@ + join(keep, " "@);
            strip_line(r, false, names) == (Some(r), false)
        }),
{
    reveal_strlit(" ");
    assert(" "@ =~= seq![' ']);
    let jn = join(keep, " "@);
    let body = p0 + seq![' '] + jn;
    let r = w + p0 + " "@ + jn;
    assert(r =~= w + body);
    assert(body[0] == p0[0]);
    lemma_trim_start_white(w, body);
    assert(is_word(keep.last()));
    lemma_join_last(keep);
    assert(body.last() == jn.last());
    assert(trim_end(body) == body);
    assert(trim(r) == body);
    let stripped = trim(r);
    let lower = lowercase(stripped);
    if starts_with(lower, "match "@) {
    } else if starts_with(lower, "host "@) {
        lemma_words_split(p0, jn, seq![]);
        lemma_word_alone(p0, seq![]);
        assert(seq![] + p0 =~= p0);
        lemma_words_of_join(keep);
        let parts = words(stripped);
        assert(parts =~= seq![p0] + keep);
        assert(after_first(parts) =~= keep);
        lemma_unmanaged_all(keep, names);
        assert(r.len() - trim_start(r).len() + parts[0].len() == w.len() + p0.len());
        assert(r.take((w.len() + p0.len()) as int) =~= w + p0);
    } else {
    }
}

/// A line that a pass keeps comes out of a second pass, with no dropped block
/// before it, as it went in.
proof fn lemma_kept_line_stays(line: Seq<char>, skip: bool, names: Seq<Seq<char>>)
    requires
        strip_line(line, skip, names).0 is Some,
    ensures
        ({
            let l = strip_line(line, skip, names).0->Some_0;
            strip_line(l, false, names) == (Some(l), false)
        }),
{
    let stripped = trim(line);
    let lower = lowercase(stripped);
    if starts_with(lower, "match "@) {
    } else if starts_with(lower, "host "@) {
        let parts = words(stripped);
        let keep = unmanaged(after_first(parts), names);
        let ts = trim_start(line);
        let wl = lemma_trim_start_split(line);
        lemma_trim_end_prefix(ts);
        lemma_words_are_words(stripped, seq![]);
        lemma_unmanaged_from(after_first(parts), names);
        assert(parts.len() > 0) by {
            if parts.len() == 0 {
                assert(after_first(parts) =~= parts);
            }
        }
        // the first word is a prefix of the trimmed line
        assert(stripped.len() > 0) by {
            if stripped.len() == 0 {
                assert(parts == words_from(Seq::<char>::empty(), seq![]));
            }
        }
        assert(stripped == ts.take(stripped.len() as int));
        assert(stripped[0] == ts[0]);
        let k = lemma_first_word(stripped, seq![]);
        let p0 = parts[0];
        assert(p0 =~= stripped.take(k));
        assert(p0 =~= ts.take(k));
        assert(is_word(p0));
        let w = line.take(wl);
        assert(line.take(line.len() - ts.len() + p0.len()) =~= w + p0);
        assert forall|i: int| 0 <= i < keep.len() implies is_word(#[trigger] keep[i]) && !names.contains(keep[i]) by {
            let j = choose|j: int| 0 <= j < after_first(parts).len() && after_first(parts)[j] == keep[i];
            assert(after_first(parts)[j] == parts[j + 1]);
        }
        lemma_rebuilt_line_stays(w, p0, keep, names);
    } else {
    }
}

/// Stripping the lines that a strip kept keeps them all, unchanged, and ends
/// outside any dropped block: the line-by-line part of merging twice.
pub proof fn law_strip_again_keeps_lines(ls: Seq<Seq<char>>, names: Seq<Seq<char>>)
    ensures
        strip_lines(strip_lines(ls, names).0, names) == (strip_lines(ls, names).0, false),
    decreases ls.len(),
{
    if ls.len() > 0 {
        let init = ls.drop_last();
        law_strip_again_keeps_lines(init, names);
        let (kept, skip) = strip_lines(init, names);
        let (line, skip2) = strip_line(ls.last(), skip, names);
        match line {
            Some(l) => {
                lemma_kept_line_stays(ls.last(), skip, names);
                let all = kept + seq![l];
                assert(all.drop_last() =~= kept);
                assert(all.last() == l);
                assert(kept + seq![l] =~= all);
            },
            None => {
                assert(kept + Seq::<Seq<char>>::empty() =~= kept);
            },
        }
    }
}


/// The pieces of `s` between newlines, the first of them after `cur`
/// (`str::split('\n')`).
pub open spec fn pieces_from(s: Seq<char>, cur: Seq<char>) -> Seq<Seq<char>>
    decreases s.len(),
{
    if s.len() == 0 {
        seq![cur]
    } else if s[0] == '\n' {
        seq![cur] + pieces_from(s.drop_first(), seq![])
    } else {
        pieces_from(s.drop_first(), cur.push(s[0]))
    }
}

/// `s` holds no newline.
pub open spec fn no_newline(s: Seq<char>) -> bool {
    forall|i: int| 0 <= i < s.len() ==> #[trigger] s[i] != '\n'
}

/// No carriage return in `s` comes right before a newline.
pub open spec fn no_crlf(s: Seq<char>) -> bool {
    forall|i: int| 0 <= i < s.len() - 1 ==> !(#[trigger] s[i] == '\r' && s[i + 1] == '\n')
}

/// `ps` without its last entry when that entry is empty.
pub open spec fn drop_empty_last(ps: Seq<Seq<char>>) -> Seq<Seq<char>> {
    if ps.len() > 0 && ps.last().len() == 0 { ps.drop_last() } else { ps }
}

/// There is always a piece.
proof fn lemma_pieces_nonempty(s: Seq<char>, cur: Seq<char>)
    ensures
        pieces_from(s, cur).len() > 0,
    decreases s.len(),
{
    if s.len() > 0 && s[0] != '\n' {
        lemma_pieces_nonempty(s.drop_first(), cur.push(s[0]));
    }
}

/// A text without newlines is one piece.
proof fn lemma_pieces_single(w: Seq<char>, cur: Seq<char>)
    requires
        no_newline(w),
    ensures
        pieces_from(w, cur) == seq![cur + w],
    decreases w.len(),
{
    if w.len() == 0 {
        assert(cur + w =~= cur);
    } else {
        assert(w[0] != '\n');
        assert(no_newline(w.drop_first()));
        lemma_pieces_single(w.drop_first(), cur.push(w[0]));
        assert(cur.push(w[0]) + w.drop_first() =~= cur + w);
    }
}

/// Splitting at a newline splits the pieces.
pub proof fn lemma_pieces_split(a: Seq<char>, b: Seq<char>, cur: Seq<char>)
    ensures
        pieces_from(a + seq!['\n'] + b, cur) == pieces_from(a, cur) + pieces_from(b, seq![]),
    decreases a.len(),
{
    let s = a + seq!['\n'] + b;
    if a.len() == 0 {
        assert(s.drop_first() =~= b);
    } else {
        assert(s.drop_first() =~= a.drop_first() + seq!['\n'] + b);
        assert(s[0] == a[0]);
        if a[0] == '\n' {
            lemma_pieces_split(a.drop_first(), b, seq![]);
            assert(pieces_from(s, cur) =~= seq![cur] + (pieces_from(a.drop_first(), seq![]) + pieces_from(b, seq![])));
        } else {
            lemma_pieces_split(a.drop_first(), b, cur.push(a[0]));
        }
    }
}

/// A join of two or more parts, from the front.
proof fn lemma_join_front(a: Seq<char>, ps: Seq<Seq<char>>, sep: Seq<char>)
    requires
        ps.len() > 0,
    ensures
        join(seq![a] + ps, sep) == a + sep + join(ps, sep),
    decreases ps.len(),
{
    let all = seq![a] + ps;
    if ps.len() == 1 {
        assert(all.drop_last() =~= seq![a]);
        assert(join(seq![a], sep) == a);
        assert(all.last() == ps[0]);
        assert(join(all, sep) == join(all.drop_last(), sep) + sep + all.last());
    } else {
        lemma_join_front(a, ps.drop_last(), sep);
        assert(all.drop_last() =~= seq![a] + ps.drop_last());
        assert(all.last() == ps.last());
        assert(join(all, sep) == join(all.drop_last(), sep) + sep + all.last());
        assert(join(ps, sep) == join(ps.drop_last(), sep) + sep + ps.last());
        assert(a + sep + join(ps.drop_last(), sep) + sep + ps.last() =~= a + sep + (join(ps.drop_last(), sep) + sep + ps.last()));
    }
}

/// Joining the pieces with newlines gives the text back.
proof fn lemma_join_pieces(s: Seq<char>, cur: Seq<char>)
    ensures
        join(pieces_from(s, cur), "\n"@) == cur + s,
    decreases s.len(),
{
    reveal_strlit("\n");
    assert("\n"@ =~= seq!['\n']);
    if s.len() == 0 {
        assert(cur + s =~= cur);
    } else if s[0] == '\n' {
        lemma_join_pieces(s.drop_first(), seq![]);
        lemma_pieces_nonempty(s.drop_first(), seq![]);
        lemma_join_front(cur, pieces_from(s.drop_first(), seq![]), "\n"@);
        assert(cur + seq!['\n'] + (seq![] + s.drop_first()) =~= cur + s);
    } else {
        lemma_join_pieces(s.drop_first(), cur.push(s[0]));
        assert(cur.push(s[0]) + s.drop_first() =~= cur + s);
    }
}

/// Lines without newlines, joined by newlines, split back into those lines.
proof fn lemma_pieces_of_join(ls: Seq<Seq<char>>)
    requires
        ls.len() > 0,
        forall|i: int| 0 <= i < ls.len() ==> no_newline(#[trigger] ls[i]),
    ensures
        pieces_from(join(ls, "\n"@), seq![]) == ls,
    decreases ls.len(),
{
    reveal_strlit("\n");
    assert("\n"@ =~= seq!['\n']);
    assert(no_newline(ls.last()));
    if ls.len() == 1 {
        assert(no_newline(ls[0]));
        lemma_pieces_single(ls[0], seq![]);
        assert(seq![] + ls[0] =~= ls[0]);
        assert(ls =~= seq![ls[0]]);
    } else {
        let init = ls.drop_last();
        assert forall|i: int| 0 <= i < init.len() implies no_newline(#[trigger] init[i]) by {
            assert(init[i] == ls[i]);
        }
        lemma_pieces_of_join(init);
        lemma_pieces_split(join(init, "\n"@), ls.last(), seq![]);
        lemma_pieces_single(ls.last(), seq![]);
        assert(seq![] + ls.last() =~= ls.last());
        assert(init + seq![ls.last()] =~= ls);
    }
}

/// Without a carriage return before a newline, the lines are the pieces,
/// less an empty last one.
proof fn lemma_lines_are_pieces(s: Seq<char>, cur: Seq<char>)
    requires
        no_crlf(cur + s),
    ensures
        crate::text::lines_from(s, cur) == drop_empty_last(pieces_from(s, cur)),
    decreases s.len(),
{
    if s.len() == 0 {
    } else if s[0] == '\n' {
        let t = cur + s;
        if cur.len() > 0 {
            assert(t[cur.len() - 1] == cur.last());
            assert(t[cur.len() as int] == '\n');
            assert(cur.last() != '\r');
        }
        assert(no_crlf(s.drop_first())) by {
            assert forall|i: int| 0 <= i < s.drop_first().len() - 1 implies
                !(#[trigger] s.drop_first()[i] == '\r' && s.drop_first()[i + 1] == '\n') by {
                assert(s.drop_first()[i] == t[cur.len() + 1 + i]);
                assert(s.drop_first()[i + 1] == t[cur.len() + 1 + i + 1]);
            }
        }
        assert(seq![] + s.drop_first() =~= s.drop_first());
        lemma_lines_are_pieces(s.drop_first(), seq![]);
        lemma_pieces_nonempty(s.drop_first(), seq![]);
        let rest = pieces_from(s.drop_first(), seq![]);
        assert(drop_empty_last(seq![cur] + rest) =~= seq![cur] + drop_empty_last(rest));
    } else {
        assert(cur.push(s[0]) + s.drop_first() =~= cur + s);
        lemma_lines_are_pieces(s.drop_first(), cur.push(s[0]));
    }
}


/// A second pass, outside any dropped block, keeps `l` as it is.
pub open spec fn stays(l: Seq<char>, names: Seq<Seq<char>>) -> bool {
    strip_line(l, false, names) == (Some(l), false)
}

/// A second pass keeps every line of `ps` as it is.
pub open spec fn all_stay(ps: Seq<Seq<char>>, names: Seq<Seq<char>>) -> bool {
    forall|i: int| 0 <= i < ps.len() ==> stays(#[trigger] ps[i], names)
}

/// Every entry of `a` is an entry of `b`.
pub open spec fn within(a: Seq<Seq<char>>, b: Seq<Seq<char>>) -> bool {
    forall|i: int| 0 <= i < a.len() ==> b.contains(#[trigger] a[i])
}

/// `k` empty lines.
pub open spec fn blanks(k: nat) -> Seq<Seq<char>> {
    Seq::new(k, |i: int| Seq::<char>::empty())
}

/// The pieces of a run of newlines.
proof fn lemma_pieces_newlines(k: nat, cur: Seq<char>)
    ensures
        pieces_from(newlines(k), cur) == seq![cur] + blanks(k),
    decreases k,
{
    if k == 0 {
        assert(newlines(0).len() == 0);
        assert(seq![cur] + blanks(0) =~= seq![cur]);
    } else {
        assert(newlines(k)[0] == '\n');
        assert(newlines(k).drop_first() =~= newlines((k - 1) as nat));
        lemma_pieces_newlines((k - 1) as nat, seq![]);
        assert(seq![cur] + (seq![Seq::<char>::empty()] + blanks((k - 1) as nat)) =~= seq![cur] + blanks(k));
    }
}

/// Cutting runs of three or more newlines to two only drops empty pieces.
proof fn lemma_collapse_within(s: Seq<char>, p: nat, cur: Seq<char>)
    ensures
        within(
            pieces_from(runs_replaced_from(s, p, "\n\n"@), cur),
            pieces_from(newlines(p) + s, cur),
        ),
    decreases s.len(),
{
    reveal_strlit("\n\n");
    let m: nat = if p >= 3 { 2 } else { p };
    assert(run_replaced(p, "\n\n"@) =~= newlines(m));
    let out = pieces_from(runs_replaced_from(s, p, "\n\n"@), cur);
    let inp = pieces_from(newlines(p) + s, cur);
    if s.len() == 0 {
        assert(newlines(p) + s =~= newlines(p));
        lemma_pieces_newlines(m, cur);
        lemma_pieces_newlines(p, cur);
        assert forall|i: int| 0 <= i < out.len() implies inp.contains(#[trigger] out[i]) by {
            if i == 0 {
                assert(inp[0] == out[0]);
            } else {
                assert(out[i] == inp[1]);
            }
        }
    } else if s[0] == '\n' {
        lemma_collapse_within(s.drop_first(), p + 1, cur);
        assert(newlines(p + 1) + s.drop_first() =~= newlines(p) + s);
    } else {
        let rest = s.drop_first();
        let r = runs_replaced_from(rest, 0, "\n\n"@);
        assert(newlines(0) + rest =~= rest);
        let text = runs_replaced_from(s, p, "\n\n"@);
        assert(text == newlines(m) + seq![s[0]] + r);
        if m == 0 {
            assert(newlines(m) + seq![s[0]] + r =~= seq![s[0]] + r);
            assert((seq![s[0]] + r).drop_first() =~= r);
            assert(newlines(p) + s =~= s);
            lemma_collapse_within(rest, 0, cur.push(s[0]));
        } else {
            let m1: nat = (m - 1) as nat;
            let p1: nat = (p - 1) as nat;
            assert(text =~= newlines(m1) + seq!['\n'] + (seq![s[0]] + r));
            assert(newlines(p) + s =~= newlines(p1) + seq!['\n'] + s);
            lemma_pieces_split(newlines(m1), seq![s[0]] + r, cur);
            lemma_pieces_split(newlines(p1), s, cur);
            assert((seq![s[0]] + r).drop_first() =~= r);
            assert(seq![] + seq![s[0]] =~= seq![s[0]]);
            assert(pieces_from(seq![s[0]] + r, seq![]) == pieces_from(r, seq![s[0]]));
            assert(pieces_from(s, seq![]) == pieces_from(rest, seq![s[0]]));
            lemma_pieces_newlines(m1, cur);
            lemma_pieces_newlines(p1, cur);
            lemma_collapse_within(rest, 0, seq![s[0]]);
            let a1 = seq![cur] + blanks(m1);
            let b1 = seq![cur] + blanks(p1);
            let a2 = pieces_from(r, seq![s[0]]);
            let b2 = pieces_from(rest, seq![s[0]]);
            assert(out == a1 + a2);
            assert(inp == b1 + b2);
            assert forall|i: int| 0 <= i < out.len() implies inp.contains(#[trigger] out[i]) by {
                if i == 0 {
                    assert(inp[0] == cur);
                } else if i < a1.len() {
                    assert(out[i] == Seq::<char>::empty());
                    assert(inp[1] == Seq::<char>::empty());
                } else {
                    assert(out[i] == a2[i - a1.len()]);
                    assert(b2.contains(a2[i - a1.len()]));
                    let j = choose|j: int| 0 <= j < b2.len() && b2[j] == a2[i - a1.len()];
                    assert(inp[b1.len() + j] == b2[j]);
                }
            }
        }
    }
}

/// Adding a character to the end adds it to the last piece, or, for a
/// newline, starts an empty piece.
proof fn lemma_pieces_push(x: Seq<char>, c: char, cur: Seq<char>)
    ensures
        pieces_from(x, cur).len() > 0,
        pieces_from(x.push(c), cur) == (if c == '\n' {
            pieces_from(x, cur) + seq![Seq::<char>::empty()]
        } else {
            pieces_from(x, cur).drop_last() + seq![pieces_from(x, cur).last().push(c)]
        }),
    decreases x.len(),
{
    lemma_pieces_nonempty(x, cur);
    if x.len() == 0 {
        assert(x.push(c) =~= seq![c]);
        assert(seq![c].drop_first() =~= Seq::<char>::empty());
        assert(pieces_from(x, cur) == seq![cur]);
        if c == '\n' {
            assert(pieces_from(seq![c], cur) == seq![cur] + pieces_from(Seq::<char>::empty(), seq![]));
            assert(seq![cur] + seq![Seq::<char>::empty()] =~= seq![cur] + pieces_from(Seq::<char>::empty(), seq![]));
        } else {
            assert(pieces_from(seq![c], cur) == pieces_from(Seq::<char>::empty(), cur.push(c)));
            assert(seq![cur].drop_last() + seq![cur.push(c)] =~= seq![cur.push(c)]);
        }
    } else {
        assert(x.push(c).drop_first() =~= x.drop_first().push(c));
        assert(x.push(c)[0] == x[0]);
        if x[0] == '\n' {
            lemma_pieces_push(x.drop_first(), c, seq![]);
            let q = pieces_from(x.drop_first(), seq![]);
            if c == '\n' {
                assert(seq![cur] + (q + seq![Seq::<char>::empty()]) =~= (seq![cur] + q) + seq![Seq::<char>::empty()]);
            } else {
                assert(seq![cur] + (q.drop_last() + seq![q.last().push(c)])
                    =~= (seq![cur] + q).drop_last() + seq![(seq![cur] + q).last().push(c)]);
            }
        } else {
            lemma_pieces_push(x.drop_first(), c, cur.push(x[0]));
            assert(pieces_from(x.push(c), cur) == pieces_from(x.drop_first().push(c), cur.push(x[0])));
            assert(pieces_from(x, cur) == pieces_from(x.drop_first(), cur.push(x[0])));
        }
    }
}

/// Trimming the start of a text that ends in whitespace `c`.
proof fn lemma_trim_start_push_white(x: Seq<char>, c: char)
    requires
        is_white_space(c),
    ensures
        trim_start(x.push(c)) == (if trim_start(x).len() > 0 { trim_start(x).push(c) } else { Seq::<char>::empty() }),
    decreases x.len(),
{
    if x.len() == 0 {
        assert(x.push(c) =~= seq![c]);
        assert(seq![c].drop_first() =~= Seq::<char>::empty());
        assert(trim_start(seq![c]) == trim_start(Seq::<char>::empty()));
        assert(trim_start(x) == x);
    } else {
        assert(x.push(c)[0] == x[0]);
        assert(x.push(c).drop_first() =~= x.drop_first().push(c));
        if is_white_space(x[0]) {
            lemma_trim_start_push_white(x.drop_first(), c);
            assert(trim_start(x.push(c)) == trim_start(x.drop_first().push(c)));
            assert(trim_start(x) == trim_start(x.drop_first()));
        } else {
            assert(trim_start(x.push(c)) == x.push(c));
            assert(trim_start(x) == x);
        }
    }
}

/// Trailing whitespace does not change the trimmed text.
proof fn lemma_trim_push_white(x: Seq<char>, c: char)
    requires
        is_white_space(c),
    ensures
        trim(x.push(c)) == trim(x),
{
    lemma_trim_start_push_white(x, c);
    let t = trim_start(x);
    if t.len() > 0 {
        assert(t.push(c).drop_last() =~= t);
    }
}

/// A line that a second pass keeps as a rebuilt `Host` line ends in a
/// non-space.
proof fn lemma_host_stays_ends(l: Seq<char>, names: Seq<Seq<char>>)
    requires
        stays(l, names),
        starts_with(lowercase(trim(l)), "host "@),
        !starts_with(lowercase(trim(l)), "match "@),
    ensures
        l.len() > 0,
        !is_white_space(l.last()),
{
    reveal_strlit(" ");
    let parts = words(trim(l));
    let keep = unmanaged(after_first(parts), names);
    lemma_words_are_words(trim(l), seq![]);
    lemma_unmanaged_from(after_first(parts), names);
    assert(keep.len() > 0);
    let j = choose|j: int| 0 <= j < after_first(parts).len() && after_first(parts)[j] == keep.last();
    assert(after_first(parts)[j] == parts[j + 1]);
    assert(keep[keep.len() - 1] == keep.last());
    assert(is_word(keep.last()));
    lemma_join_last(keep);
    let prefix = l.take(l.len() - trim_start(l).len() + parts[0].len());
    assert(l == prefix + " "@ + join(keep, " "@));
    assert(l.last() == join(keep, " "@).last());
    assert(keep.last()[keep.last().len() - 1] == keep.last().last());
}

/// Dropping trailing whitespace from a line that stays leaves one that stays.
proof fn lemma_stays_less_white(x: Seq<char>, c: char, names: Seq<Seq<char>>)
    requires
        is_white_space(c),
        stays(x.push(c), names),
    ensures
        stays(x, names),
{
    lemma_trim_push_white(x, c);
    let lower = lowercase(trim(x));
    if starts_with(lower, "host "@) && !starts_with(lower, "match "@) {
        lemma_host_stays_ends(x.push(c), names);
        assert(x.push(c).last() == c);
    }
}

/// Trimming the end of a text whose pieces all stay leaves pieces that all stay.
proof fn lemma_trim_end_stays(s: Seq<char>, names: Seq<Seq<char>>)
    requires
        all_stay(pieces_from(s, seq![]), names),
    ensures
        all_stay(pieces_from(trim_end(s), seq![]), names),
    decreases s.len(),
{
    if s.len() > 0 && is_white_space(s.last()) {
        let x = s.drop_last();
        let c = s.last();
        assert(x.push(c) =~= s);
        lemma_pieces_push(x, c, seq![]);
        let q = pieces_from(x, seq![]);
        assert forall|i: int| 0 <= i < q.len() implies stays(#[trigger] q[i], names) by {
            if c == '\n' {
                assert(pieces_from(s, seq![])[i] == q[i]);
            } else if i < q.len() - 1 {
                assert(pieces_from(s, seq![])[i] == q[i]);
            } else {
                assert(pieces_from(s, seq![])[q.len() - 1] == q.last().push(c));
                lemma_stays_less_white(q.last(), c, names);
            }
        }
        lemma_trim_end_stays(x, names);
    }
}


/// No three newlines in a row in `s`.
pub open spec fn no_triple_newline(s: Seq<char>) -> bool {
    forall|i: int| 0 <= i < s.len() - 2 ==> !(#[trigger] s[i] == '\n' && s[i + 1] == '\n' && s[i + 2] == '\n')
}

/// Cutting runs of newlines leaves no three in a row.
proof fn lemma_collapse_no_triple(s: Seq<char>, p: nat)
    ensures
        no_triple_newline(runs_replaced_from(s, p, "\n\n"@)),
    decreases s.len(),
{
    reveal_strlit("\n\n");
    let m: nat = if p >= 3 { 2 } else { p };
    assert(run_replaced(p, "\n\n"@) =~= newlines(m));
    if s.len() == 0 {
    } else if s[0] == '\n' {
        lemma_collapse_no_triple(s.drop_first(), p + 1);
    } else {
        let r = runs_replaced_from(s.drop_first(), 0, "\n\n"@);
        lemma_collapse_no_triple(s.drop_first(), 0);
        let out = newlines(m) + seq![s[0]] + r;
        assert(runs_replaced_from(s, p, "\n\n"@) == out);
        assert forall|i: int| 0 <= i < out.len() - 2 implies
            !(#[trigger] out[i] == '\n' && out[i + 1] == '\n' && out[i + 2] == '\n') by {
            let a = m as int;
            if i > a {
                assert(out[i] == r[i - a - 1]);
                assert(out[i + 1] == r[i - a]);
                assert(out[i + 2] == r[i - a + 1]);
            } else if i == a {
                assert(out[i] == s[0]);
            } else if i + 1 == a {
                assert(out[i + 1] == s[0]);
            } else {
                assert(out[i + 2] == s[0]);
            }
        }
    }
}

/// Without three newlines in a row, cutting runs changes nothing.
proof fn lemma_collapse_keeps(s: Seq<char>, p: nat)
    requires
        p <= 2,
        no_triple_newline(newlines(p) + s),
    ensures
        runs_replaced_from(s, p, "\n\n"@) == newlines(p) + s,
    decreases s.len(),
{
    reveal_strlit("\n\n");
    let t = newlines(p) + s;
    if s.len() == 0 {
        assert(t =~= newlines(p));
    } else if s[0] == '\n' {
        if p == 2 {
            assert(t[0] == '\n' && t[1] == '\n' && t[2] == '\n');
        }
        assert(newlines(p + 1) + s.drop_first() =~= t);
        lemma_collapse_keeps(s.drop_first(), p + 1);
    } else {
        let rest = s.drop_first();
        assert(no_triple_newline(newlines(0) + rest)) by {
            assert(newlines(0) + rest =~= rest);
            assert forall|i: int| 0 <= i < rest.len() - 2 implies
                !(#[trigger] rest[i] == '\n' && rest[i + 1] == '\n' && rest[i + 2] == '\n') by {
                assert(rest[i] == t[p + 1 + i]);
                assert(rest[i + 1] == t[p + 1 + i + 1]);
                assert(rest[i + 2] == t[p + 1 + i + 2]);
            }
        }
        lemma_collapse_keeps(rest, 0);
        assert(newlines(0) + rest =~= rest);
        assert(newlines(p) + seq![s[0]] + rest =~= t);
    }
}

/// Empty lines joined after others add newlines.
proof fn lemma_join_blanks(ls: Seq<Seq<char>>, j: nat)
    requires
        ls.len() > 0,
    ensures
        join(ls + blanks(j), "\n"@) == join(ls, "\n"@) + newlines(j),
    decreases j,
{
    reveal_strlit("\n");
    if j == 0 {
        assert(ls + blanks(0) =~= ls);
        assert(join(ls, "\n"@) + newlines(0) =~= join(ls, "\n"@));
    } else {
        let j1: nat = (j - 1) as nat;
        lemma_join_blanks(ls, j1);
        let all = ls + blanks(j);
        assert(all.drop_last() =~= ls + blanks(j1));
        assert(all.last() == Seq::<char>::empty());
        assert(join(all, "\n"@) == join(all.drop_last(), "\n"@) + "\n"@ + all.last());
        assert(join(ls, "\n"@) + newlines(j1) + "\n"@ + Seq::<char>::empty() =~= join(ls, "\n"@) + newlines(j));
    }
}

/// Trailing newlines go with trimming the end.
proof fn lemma_trim_end_newlines(t: Seq<char>, j: nat)
    requires
        trim_end(t) == t,
    ensures
        trim_end(t + newlines(j)) == t,
    decreases j,
{
    if j > 0 {
        let x = t + newlines(j);
        assert(x.last() == '\n');
        assert(x.drop_last() =~= t + newlines((j - 1) as nat));
        lemma_trim_end_newlines(t, (j - 1) as nat);
    } else {
        assert(t + newlines(0) =~= t);
    }
}

/// A text trims to nothing exactly when its end does.
pub proof fn lemma_trim_empty(x: Seq<char>)
    ensures
        (trim(x).len() == 0) == (trim_end(x).len() == 0),
    decreases x.len(),
{
    if x.len() > 0 && is_white_space(x.last()) {
        let y = x.drop_last();
        assert(y.push(x.last()) =~= x);
        lemma_trim_push_white(y, x.last());
        lemma_trim_empty(y);
    } else if x.len() > 0 {
        let w = lemma_trim_start_split(x);
        let ts = trim_start(x);
        if w == x.len() {
            assert(x.take(w)[x.len() - 1] == x.last());
        }
        assert(ts.len() > 0);
        assert(ts.last() == x.last());
    }
}

/// Lines read from text hold no newline.
proof fn lemma_lines_no_newline(s: Seq<char>, cur: Seq<char>)
    requires
        no_newline(cur),
    ensures
        forall|i: int| 0 <= i < crate::text::lines_from(s, cur).len() ==> no_newline(#[trigger] crate::text::lines_from(s, cur)[i]),
    decreases s.len(),
{
    let ls = crate::text::lines_from(s, cur);
    if s.len() == 0 {
        if cur.len() > 0 {
            assert(ls == seq![cur]);
            assert(ls[0] == cur);
        }
    } else if s[0] == '\n' {
        lemma_lines_no_newline(s.drop_first(), seq![]);
        let sc = crate::text::strip_cr(cur);
        assert(no_newline(sc)) by {
            if cur.len() > 0 && cur.last() == '\r' {
                assert forall|i: int| 0 <= i < sc.len() implies #[trigger] sc[i] != '\n' by {
                    assert(sc[i] == cur[i]);
                }
            }
        }
        let rest = crate::text::lines_from(s.drop_first(), seq![]);
        assert(ls == seq![sc] + rest);
        assert forall|i: int| 0 <= i < ls.len() implies no_newline(#[trigger] ls[i]) by {
            if i > 0 {
                assert(ls[i] == rest[i - 1]);
            }
        }
    } else {
        assert(no_newline(cur.push(s[0]))) by {
            assert forall|i: int| 0 <= i < cur.push(s[0]).len() implies #[trigger] cur.push(s[0])[i] != '\n' by {
                if i < cur.len() {
                    assert(cur.push(s[0])[i] == cur[i]);
                }
            }
        }
        lemma_lines_no_newline(s.drop_first(), cur.push(s[0]));
        assert(ls == crate::text::lines_from(s.drop_first(), cur.push(s[0])));
    }
}

/// Words joined by spaces hold no newline.
proof fn lemma_join_words_no_newline(ws: Seq<Seq<char>>)
    requires
        forall|i: int| 0 <= i < ws.len() ==> is_word(#[trigger] ws[i]),
    ensures
        no_newline(join(ws, " "@)),
    decreases ws.len(),
{
    reveal_strlit(" ");
    assert(is_white_space('\n'));
    if ws.len() == 1 {
        assert(is_word(ws[0]));
    } else if ws.len() > 1 {
        let init = ws.drop_last();
        assert forall|i: int| 0 <= i < init.len() implies is_word(#[trigger] init[i]) by {
            assert(init[i] == ws[i]);
        }
        lemma_join_words_no_newline(init);
        assert(is_word(ws.last()));
        let j = join(ws, " "@);
        let a = join(init, " "@);
        assert(j == a + " "@ + ws.last());
        assert forall|i: int| 0 <= i < j.len() implies #[trigger] j[i] != '\n' by {
            if i < a.len() {
                assert(j[i] == a[i]);
            } else if i == a.len() {
                assert(j[i] == ' ');
            } else {
                assert(j[i] == ws.last()[i - a.len() - 1]);
            }
        }
    }
}

/// A kept line of a line without newlines holds none.
proof fn lemma_kept_no_newline(line: Seq<char>, skip: bool, names: Seq<Seq<char>>)
    requires
        no_newline(line),
        strip_line(line, skip, names).0 is Some,
    ensures
        no_newline(strip_line(line, skip, names).0->Some_0),
{
    reveal_strlit(" ");
    let stripped = trim(line);
    let lower = lowercase(stripped);
    if !starts_with(lower, "match "@) && starts_with(lower, "host "@) {
        let parts = words(stripped);
        let keep = unmanaged(after_first(parts), names);
        lemma_words_are_words(stripped, seq![]);
        lemma_unmanaged_from(after_first(parts), names);
        assert forall|i: int| 0 <= i < keep.len() implies is_word(#[trigger] keep[i]) by {
            let j = choose|j: int| 0 <= j < after_first(parts).len() && after_first(parts)[j] == keep[i];
            assert(after_first(parts)[j] == parts[j + 1]);
        }
        lemma_join_words_no_newline(keep);
        let ts = trim_start(line);
        let wl = lemma_trim_start_split(line);
        lemma_trim_end_prefix(ts);
        assert(parts.len() > 0) by {
            if parts.len() == 0 {
                assert(after_first(parts) =~= parts);
            }
        }
        assert(stripped.len() > 0) by {
            if stripped.len() == 0 {
                assert(parts == words_from(Seq::<char>::empty(), seq![]));
            }
        }
        assert(stripped[0] == ts[0]);
        let k = lemma_first_word(stripped, seq![]);
        assert(parts[0] =~= stripped.take(k));
        let prefix = line.take(line.len() - trim_start(line).len() + parts[0].len());
        assert(prefix.len() <= line.len());
        let l = prefix + " "@ + join(keep, " "@);
        assert forall|i: int| 0 <= i < l.len() implies #[trigger] l[i] != '\n' by {
            if i < prefix.len() {
                assert(l[i] == line[i]);
            } else if i == prefix.len() {
                assert(l[i] == ' ');
            } else {
                assert(l[i] == join(keep, " "@)[i - prefix.len() - 1]);
            }
        }
    }
}

/// Every line that a strip keeps stays on a second pass and holds no newline.
proof fn lemma_kept_lines(ls: Seq<Seq<char>>, names: Seq<Seq<char>>)
    requires
        forall|i: int| 0 <= i < ls.len() ==> no_newline(#[trigger] ls[i]),
    ensures
        all_stay(strip_lines(ls, names).0, names),
        forall|i: int| 0 <= i < strip_lines(ls, names).0.len() ==> no_newline(#[trigger] strip_lines(ls, names).0[i]),
    decreases ls.len(),
{
    if ls.len() > 0 {
        let init = ls.drop_last();
        assert forall|i: int| 0 <= i < init.len() implies no_newline(#[trigger] init[i]) by {
            assert(init[i] == ls[i]);
        }
        lemma_kept_lines(init, names);
        let (kept, skip) = strip_lines(init, names);
        assert(no_newline(ls[ls.len() - 1]));
        let (line, skip2) = strip_line(ls.last(), skip, names);
        match line {
            Some(l) => {
                lemma_kept_line_stays(ls.last(), skip, names);
                lemma_kept_no_newline(ls.last(), skip, names);
                let all = kept + seq![l];
                assert(strip_lines(ls, names).0 == all);
                assert forall|i: int| 0 <= i < all.len() implies stays(#[trigger] all[i], names) && no_newline(all[i]) by {
                    if i < kept.len() {
                        assert(all[i] == kept[i]);
                    }
                }
            },
            None => {
                assert(strip_lines(ls, names).0 =~= kept);
            },
        }
    }
}

/// Lines that all stay are all kept, as they are.
proof fn lemma_strip_all_stay(ls: Seq<Seq<char>>, names: Seq<Seq<char>>)
    requires
        all_stay(ls, names),
    ensures
        strip_lines(ls, names) == (ls, false),
    decreases ls.len(),
{
    if ls.len() > 0 {
        let init = ls.drop_last();
        assert forall|i: int| 0 <= i < init.len() implies stays(#[trigger] init[i], names) by {
            assert(init[i] == ls[i]);
        }
        lemma_strip_all_stay(init, names);
        assert(stays(ls[ls.len() - 1], names));
        assert(init + seq![ls.last()] =~= ls);
    }
}


/// An empty line is dropped or kept as it is.
proof fn lemma_blank_line(skip: bool, names: Seq<Seq<char>>)
    ensures
        strip_line(Seq::<char>::empty(), skip, names).0 == None::<Seq<char>>
            || strip_line(Seq::<char>::empty(), skip, names).0 == Some(Seq::<char>::empty()),
{
    let e = Seq::<char>::empty();
    assert(trim_start(e) == e);
    assert(trim_end(e) == e);
    assert(trim(e) == e);
    assert(words(e) == Seq::<Seq<char>>::empty());
    assert(after_first(words(e)) == Seq::<Seq<char>>::empty());
    assert(unmanaged(Seq::<Seq<char>>::empty(), names) == Seq::<Seq<char>>::empty());
}

/// Kept lines followed by two empty lines, stripped again: the kept lines
/// and some of the empty ones.
proof fn lemma_strip_with_blanks(ls: Seq<Seq<char>>, names: Seq<Seq<char>>) -> (j: nat)
    requires
        all_stay(ls, names),
    ensures
        j <= 2,
        strip_lines(ls + blanks(2), names).0 == ls + blanks(j),
{
    let e = Seq::<char>::empty();
    lemma_strip_all_stay(ls, names);
    let l1 = ls + blanks(1);
    let l2 = ls + blanks(2);
    assert(l1.drop_last() =~= ls);
    assert(l1.last() == e);
    assert(l2.drop_last() =~= l1);
    assert(l2.last() == e);
    lemma_blank_line(false, names);
    let (a, s1) = strip_line(e, false, names);
    lemma_blank_line(s1, names);
    let (b, s2) = strip_line(e, s1, names);
    let k1 = ls + match a { Some(l) => seq![l], None => seq![] };
    assert(strip_lines(l1, names) == (k1, s1));
    let k2 = k1 + match b { Some(l) => seq![l], None => seq![] };
    assert(strip_lines(l2, names) == (k2, s2));
    let j: nat = (if a is Some { 1nat } else { 0nat }) + (if b is Some { 1nat } else { 0nat });
    assert(k2 =~= ls + blanks(j));
    j
}

/// Stripping, again, the end-trimmed text that a strip gave, followed by the
/// separator and newline that merging writes, gives that text back once its
/// end is trimmed.
proof fn lemma_restrip_text(text: Seq<char>, names: Seq<Seq<char>>)
    requires
        no_crlf(trim_end(crate::ssh_config::stripped_text(text, names))),
    ensures
        ({
            let c = crate::ssh_config::stripped_text(text, names);
            let t = trim_end(c);
            let sep = if trim(c).len() == 0 { ""@ } else { "\n\n"@ };
            &&& trim_end(crate::ssh_config::stripped_text(t + sep + "\n"@, names)) == t
            &&& (trim(c).len() == 0) == (t.len() == 0)
        }),
{
    reveal_strlit("");
    reveal_strlit("\n");
    reveal_strlit("\n\n");
    let c = crate::ssh_config::stripped_text(text, names);
    let t = trim_end(c);
    let sep = if trim(c).len() == 0 { ""@ } else { "\n\n"@ };
    let x = t + sep + "\n"@;
    let ls = crate::text::lines(text);
    let k = strip_lines(ls, names).0;
    let j0 = join(k, "\n"@);
    assert(c == runs_replaced_from(j0, 0, "\n\n"@));
    lemma_trim_empty(c);
    lemma_trim_end_prefix(c);
    if t.len() == 0 {
        assert(x =~= seq!['\n']);
        assert(seq!['\n'].drop_first() =~= Seq::<char>::empty());
        assert(crate::text::lines(x) == seq![crate::text::strip_cr(Seq::<char>::empty())] + crate::text::lines_from(Seq::<char>::empty(), seq![]));
        assert(crate::text::lines(x) =~= seq![Seq::<char>::empty()]);
        lemma_strip_all_stay(Seq::<Seq<char>>::empty(), names);
        assert(seq![Seq::<char>::empty()].drop_last() =~= Seq::<Seq<char>>::empty());
        lemma_blank_line(false, names);
        let kept2 = strip_lines(crate::text::lines(x), names).0;
        assert(kept2 =~= Seq::<Seq<char>>::empty() || kept2 =~= seq![Seq::<char>::empty()]);
        assert(join(kept2, "\n"@) =~= Seq::<char>::empty());
        assert(run_replaced(0, "\n\n"@) =~= Seq::<char>::empty());
    } else {
        lemma_lines_no_newline(text, seq![]);
        lemma_kept_lines(ls, names);
        assert(k.len() > 0) by {
            if k.len() == 0 {
                assert(j0 == Seq::<char>::empty());
                assert(run_replaced(0, "\n\n"@) =~= Seq::<char>::empty());
            }
        }
        lemma_pieces_of_join(k);
        lemma_collapse_within(j0, 0, seq![]);
        assert(newlines(0) + j0 =~= j0);
        let pc = pieces_from(c, seq![]);
        assert forall|i: int| 0 <= i < pc.len() implies stays(#[trigger] pc[i], names) by {
            assert(k.contains(pc[i]));
            let q = choose|q: int| 0 <= q < k.len() && k[q] == pc[i];
        }
        lemma_trim_end_stays(c, names);
        let pt = pieces_from(t, seq![]);
        lemma_collapse_no_triple(j0, 0);
        assert(!is_white_space(t.last()));
        assert(trim_end(t) == t);
        // the text read the second time
        assert(x =~= t + seq!['\n'] + newlines(2));
        lemma_pieces_split(t, newlines(2), seq![]);
        lemma_pieces_newlines(2, seq![]);
        assert(is_white_space('\r'));
        assert(no_crlf(seq![] + x)) by {
            assert(seq![] + x =~= x);
            assert forall|i: int| 0 <= i < x.len() - 1 implies !(#[trigger] x[i] == '\r' && x[i + 1] == '\n') by {
                if i < t.len() - 1 {
                    assert(x[i] == t[i] && x[i + 1] == t[i + 1]);
                } else if i == t.len() - 1 {
                    assert(x[i] == t.last());
                } else {
                    assert(x[i] == '\n');
                }
            }
        }
        lemma_lines_are_pieces(x, seq![]);
        let px = pieces_from(x, seq![]);
        assert(px == pt + (seq![Seq::<char>::empty()] + blanks(2)));
        assert(crate::text::lines(x) =~= pt + blanks(2));
        let jn = lemma_strip_with_blanks(pt, names);
        let kept2 = strip_lines(crate::text::lines(x), names).0;
        assert(kept2 == pt + blanks(jn));
        lemma_pieces_nonempty(t, seq![]);
        lemma_join_blanks(pt, jn);
        lemma_join_pieces(t, seq![]);
        assert(seq![] + t =~= t);
        let y = t + newlines(jn);
        assert(join(kept2, "\n"@) == y);
        assert(no_triple_newline(newlines(0) + y)) by {
            assert(newlines(0) + y =~= y);
            assert forall|i: int| 0 <= i < y.len() - 2 implies
                !(#[trigger] y[i] == '\n' && y[i + 1] == '\n' && y[i + 2] == '\n') by {
                if i + 2 < t.len() {
                    assert(y[i] == c[i] && y[i + 1] == c[i + 1] && y[i + 2] == c[i + 2]);
                } else if i < t.len() {
                    let last = t.len() - 1;
                    assert(y[last] == t.last());
                } else {
                    assert(i + 2 >= t.len() + 2);
                }
            }
        }
        lemma_collapse_keeps(y, 0);
        assert(newlines(0) + y =~= y);
        lemma_trim_end_newlines(t, jn);
    }
}

/// Merging a merged config again, for the same hosts and block, gives it
/// back unchanged. This holds when the part of the config that the first
/// merge kept holds no start marker and no carriage return before a newline,
/// and the hosts' block holds no end marker: a marker there would pair with
/// the block's own, and reading lines drops such a carriage return.
pub proof fn law_merge_again_changes_nothing(existing: Seq<char>, names: Seq<Seq<char>>, block: Seq<char>)
    requires
        !contains_text(trim_end(crate::ssh_config::stripped_text(manual_part(existing), names)), MARK_START@),
        !contains_text(trim_end(crate::ssh_config::stripped_text(manual_part(existing), names)), "\r\n"@),
        !contains_text(block, MARK_END@),
    ensures
        merged_config(merged_config(existing, names, block), names, block) == merged_config(existing, names, block),
{
    reveal_strlit("\r\n");
    let c = crate::ssh_config::stripped_text(manual_part(existing), names);
    let t = trim_end(c);
    assert(no_crlf(t)) by {
        assert forall|i: int| 0 <= i < t.len() - 1 implies !(#[trigger] t[i] == '\r' && t[i + 1] == '\n') by {
            if t[i] == '\r' && t[i + 1] == '\n' {
                assert(t.subrange(i, i + 2) =~= "\r\n"@);
                assert(occurs_at(t, "\r\n"@, i));
            }
        }
    }
    law_next_merge_drops_managed_block(existing, names, block);
    lemma_restrip_text(manual_part(existing), names);
    let m1 = merged_config(existing, names, block);
    let c2 = crate::ssh_config::stripped_text(manual_part(m1), names);
    lemma_trim_empty(c2);
}


/// The trimmed text and words of a line made of leading whitespace `w`, a
/// keyword `p0` and the words `keep`, each after a single space.
proof fn lemma_rebuilt_words(w: Seq<char>, p0: Seq<char>, keep: Seq<Seq<char>>)
    requires
        all_white(w),
        is_word(p0),
        keep.len() > 0,
        forall|i: int| 0 <= i < keep.len() ==> is_word(#[trigger] keep[i]),
    ensures
        ({
            let r = w + p0 + " "@ + join(keep, " "@);
            &&& trim(r) == p0 + " "@ + join(keep, " "@)
            &&& words(trim(r)) == seq![p0] + keep
        }),
{
    reveal_strlit(" ");
    assert(" "@ =~= seq![' ']);
    let jn = join(keep, " "@);
    let body = p0 + seq![' '] + jn;
    let r = w + p0 + " "@ + jn;
    assert(r =~= w + body);
    assert(body[0] == p0[0]);
    lemma_trim_start_white(w, body);
    assert(is_word(keep.last()));
    lemma_join_last(keep);
    assert(body.last() == jn.last());
    assert(trim_end(body) == body);
    lemma_words_split(p0, jn, seq![]);
    lemma_word_alone(p0, seq![]);
    assert(seq![] + p0 =~= p0);
    lemma_words_of_join(keep);
    assert(body =~= p0 + " "@ + jn);
}

/// A line that a second pass keeps as it is and that reads as a `Host` line
/// names none of `names` among its aliases.
pub proof fn lemma_stays_names_unmanaged(l: Seq<char>, names: Seq<Seq<char>>)
    requires
        stays(l, names),
        starts_with(lowercase(trim(l)), "host "@),
    ensures
        forall|k: int| 0 <= k < after_first(words(trim(l))).len()
            ==> !names.contains(#[trigger] after_first(words(trim(l)))[k]),
{
    reveal_strlit("host ");
    reveal_strlit("match ");
    let stripped = trim(l);
    let lower = lowercase(stripped);
    assert(lower.take(5)[0] == 'h');
    assert(!starts_with(lower, "match "@)) by {
        if starts_with(lower, "match "@) {
            assert(lower.take(6)[0] == 'm');
            assert(lower.take(6)[0] == lower[0]);
            assert(lower.take(5)[0] == lower[0]);
        }
    }
    let parts = words(stripped);
    let keep = unmanaged(after_first(parts), names);
    let ts = trim_start(l);
    let wl = lemma_trim_start_split(l);
    lemma_trim_end_prefix(ts);
    lemma_words_are_words(stripped, seq![]);
    lemma_unmanaged_from(after_first(parts), names);
    assert(keep.len() > 0);
    assert(parts.len() > 0) by {
        if parts.len() == 0 {
            assert(after_first(parts) =~= parts);
        }
    }
    assert(stripped.len() > 0) by {
        if stripped.len() == 0 {
            assert(parts == words_from(Seq::<char>::empty(), seq![]));
        }
    }
    assert(stripped == ts.take(stripped.len() as int));
    assert(stripped[0] == ts[0]);
    let k = lemma_first_word(stripped, seq![]);
    let p0 = parts[0];
    assert(p0 =~= stripped.take(k));
    assert(p0 =~= ts.take(k));
    assert(is_word(p0));
    let w = l.take(wl);
    assert(l.take(l.len() - ts.len() + p0.len()) =~= w + p0);
    assert forall|i: int| 0 <= i < keep.len() implies is_word(#[trigger] keep[i]) by {
        let j = choose|j: int| 0 <= j < after_first(parts).len() && after_first(parts)[j] == keep[i];
        assert(after_first(parts)[j] == parts[j + 1]);
    }
    assert(l == w + p0 + " "@ + join(keep, " "@));
    lemma_rebuilt_words(w, p0, keep);
    assert(parts == seq![p0] + keep);
    assert(after_first(parts) =~= keep);
    assert forall|q: int| 0 <= q < after_first(parts).len() implies !names.contains(#[trigger] after_first(parts)[q]) by {
        assert(after_first(parts)[q] == keep[q]);
    }
}

/// Every piece of the end-trimmed text that a strip gives, when not empty,
/// stays on a second pass.
pub proof fn lemma_kept_text_stays(text: Seq<char>, names: Seq<Seq<char>>)
    requires
        trim_end(crate::ssh_config::stripped_text(text, names)).len() > 0,
    ensures
        all_stay(pieces_from(trim_end(crate::ssh_config::stripped_text(text, names)), seq![]), names),
{
    reveal_strlit("\n\n");
    let c = crate::ssh_config::stripped_text(text, names);
    let ls = crate::text::lines(text);
    let k = strip_lines(ls, names).0;
    let j0 = join(k, "\n"@);
    assert(c == runs_replaced_from(j0, 0, "\n\n"@));
    lemma_trim_end_prefix(c);
    lemma_lines_no_newline(text, seq![]);
    lemma_kept_lines(ls, names);
    assert(k.len() > 0) by {
        if k.len() == 0 {
            assert(j0 == Seq::<char>::empty());
            assert(run_replaced(0, "\n\n"@) =~= Seq::<char>::empty());
        }
    }
    lemma_pieces_of_join(k);
    lemma_collapse_within(j0, 0, seq![]);
    assert(newlines(0) + j0 =~= j0);
    let pc = pieces_from(c, seq![]);
    assert forall|i: int| 0 <= i < pc.len() implies stays(#[trigger] pc[i], names) by {
        assert(k.contains(pc[i]));
        let q = choose|q: int| 0 <= q < k.len() && k[q] == pc[i];
    }
    lemma_trim_end_stays(c, names);
}

} // verus!
