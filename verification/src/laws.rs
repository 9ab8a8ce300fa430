//! Properties that hold across the library's operations.

use vstd::prelude::*;
use crate::keyed::{keyed, keys_distinct, has_key, lemma_keyed_rearranged, lemma_keyed_all, lemma_keyed_dom};
use crate::ssh_config::{strip_line, strip_lines, after_first, unmanaged, first_duplicate, manual_part, managed_section, merged_config, stripped_text, MARK_END,
    MARK_START, MANAGED_HEADER};
use crate::patterns::{contains_text, occurs_at, span_at, starts_span, has_span, span_start, span_close,
    first_span_replaced, lemma_occurs_char, lemma_occurs_inside};
use crate::text::{trim, trim_end, trim_start, words, lines, join, starts_with};
use crate::order::{lowercase, lex_le, lists, stable_order, lemma_stable_order_upto, lemma_lex_antisym};
use crate::ssh_config::{generated_block, is_merge_result, host_names, SSHConfigError, option_lines, host_block_lines,
    host_blocks, jump_host_block, server_block};
use crate::keyed::lemma_keyed_value;
use crate::ssh_config::{line_problems, alias_problems};
use crate::restrip::{pieces_from, lemma_kept_text_stays, lemma_stays_names_unmanaged, lemma_pieces_split, lemma_trim_empty};
use crate::store::{stably_sorted, lower_keys, ascending_by_lower};
use crate::patterns::newline_runs_replaced;
use crate::models::{ServerView, SSHKeyView};
use crate::order::{arranged_by, is_rearrangement};
use crate::store::{
    AppStore, StoreView, add_key_result, add_server_result, by_alias, by_jump_name, by_key_name,
    delete_key_result, delete_server_result, jump_host_views, key_views, server_views,
    update_server_result, with_servers,
};

verus! {

/// Saving then loading restores the store: loading a record whose tables
/// are rearrangements of a well-formed store's tables, as `save` returns
/// them, files the same records under the same names, with the same settings.
pub proof fn law_load_of_save(store: AppStore, data: crate::store::StoreData)
    requires
        store.wf(),
        is_rearrangement(server_views(data.servers@), server_views(store.servers@)),
        is_rearrangement(jump_host_views(data.jump_hosts@), jump_host_views(store.jump_hosts@)),
        is_rearrangement(key_views(data.keys@), key_views(store.keys@)),
        data.settings@ == store.settings@,
    ensures
        keyed(server_views(data.servers@), by_alias()) == store@.servers,
        keyed(jump_host_views(data.jump_hosts@), by_jump_name()) == store@.jump_hosts,
        keyed(key_views(data.keys@), by_key_name()) == store@.keys,
{
    let ps = choose|p: Seq<usize>| arranged_by(server_views(data.servers@), server_views(store.servers@), p);
    lemma_keyed_rearranged(server_views(data.servers@), server_views(store.servers@), by_alias(), ps);
    let pj = choose|p: Seq<usize>| arranged_by(jump_host_views(data.jump_hosts@), jump_host_views(store.jump_hosts@), p);
    lemma_keyed_rearranged(jump_host_views(data.jump_hosts@), jump_host_views(store.jump_hosts@), by_jump_name(), pj);
    let pk = choose|p: Seq<usize>| arranged_by(key_views(data.keys@), key_views(store.keys@), p);
    lemma_keyed_rearranged(key_views(data.keys@), key_views(store.keys@), by_key_name(), pk);
}

/// A server that was added is filed under its alias, and nothing else changed.
pub proof fn law_added_server_is_filed(st: StoreView, s: ServerView)
    requires
        add_server_result(st, s) is Ok,
    ensures
        add_server_result(st, s)->Ok_0.servers.dom().contains(s.alias),
        add_server_result(st, s)->Ok_0.servers[s.alias] == s,
        add_server_result(st, s)->Ok_0.jump_hosts == st.jump_hosts,
        add_server_result(st, s)->Ok_0.keys == st.keys,
        add_server_result(st, s)->Ok_0.settings == st.settings,
{
}

/// Adding a server never replaces one: an addition succeeds only for a new alias.
pub proof fn law_add_server_needs_new_alias(st: StoreView, s: ServerView)
    requires
        st.servers.dom().contains(s.alias),
    ensures
        add_server_result(st, s) is Err,
{
}

/// Deleting the server just added gives back the store as it was.
pub proof fn law_delete_undoes_add_server(st: StoreView, s: ServerView)
    requires
        add_server_result(st, s) is Ok,
    ensures
        delete_server_result(add_server_result(st, s)->Ok_0, s.alias) == Ok::<StoreView, Seq<char>>(st),
{
    let st2 = add_server_result(st, s)->Ok_0;
    assert(st2.servers.remove(s.alias) =~= st.servers);
}

/// Deleting the key just added gives back the store as it was.
pub proof fn law_delete_undoes_add_key(st: StoreView, k: SSHKeyView)
    requires
        add_key_result(st, k) is Ok,
    ensures
        delete_key_result(add_key_result(st, k)->Ok_0, k.name) == Ok::<StoreView, Seq<char>>(st),
{
    let st2 = add_key_result(st, k)->Ok_0;
    assert(st2.keys.remove(k.name) =~= st.keys);
}

/// An update files the new record under its alias and leaves no server under
/// the old alias when the alias changed; the other servers stay.
pub proof fn law_update_server_moves_entry(st: StoreView, original: Seq<char>, s: ServerView)
    requires
        update_server_result(st, original, s) is Ok,
    ensures
        ({
            let st2 = update_server_result(st, original, s)->Ok_0;
            &&& st2.servers.dom().contains(s.alias)
            &&& st2.servers[s.alias] == s
            &&& original != s.alias ==> !st2.servers.dom().contains(original)
            &&& forall|a: Seq<char>| a != original && a != s.alias ==>
                (#[trigger] st2.servers.dom().contains(a) == st.servers.dom().contains(a))
        }),
{
    if original != s.alias {
        assert(!st.servers.dom().contains(s.alias));
    }
}

/// Deleting a server that was filed removes it and nothing else.
pub proof fn law_delete_server_removes_only_it(st: StoreView, alias: Seq<char>)
    requires
        st.servers.dom().contains(alias),
    ensures
        delete_server_result(st, alias) == Ok::<StoreView, Seq<char>>(with_servers(st, st.servers.remove(alias))),
        !delete_server_result(st, alias)->Ok_0.servers.dom().contains(alias),
{
}

/// The duplicate check fails exactly when two hosts share a name.
pub proof fn law_duplicates_are_repeats(names: Seq<Seq<char>>)
    ensures
        (first_duplicate(names) is None) == (forall|i: int, j: int|
            0 <= i < j < names.len() ==> #[trigger] names[i] != #[trigger] names[j]),
    decreases names.len(),
{
    if names.len() > 0 {
        let init = names.drop_last();
        law_duplicates_are_repeats(init);
        if first_duplicate(init) is None {
            if init.contains(names.last()) {
                let i = choose|i: int| 0 <= i < init.len() && init[i] == names.last();
                assert(names[i] == names[names.len() - 1]);
            } else {
                assert forall|i: int, j: int| 0 <= i < j < names.len() implies #[trigger] names[i]
                    != #[trigger] names[j] by {
                    if j == names.len() - 1 {
                        assert(init[i] == names[i]);
                    } else {
                        assert(init[i] == names[i] && init[j] == names[j]);
                    }
                }
            }
        } else {
            let i = choose|i: int, j: int| 0 <= i < j < init.len() && #[trigger] init[i] == #[trigger] init[j];
            let (a, b) = i;
            assert(names[a] == names[b]);
        }
    }
}

/// The merged config ends with the managed block and a newline, after the
/// hand-written part without trailing whitespace and, when that part is not
/// blank, a blank line.
pub proof fn law_merged_config_ends_with_block(existing: Seq<char>, names: Seq<Seq<char>>, block: Seq<char>)
    ensures
        ({
            let cleaned = stripped_text(manual_part(existing), names);
            let sep = if trim(cleaned).len() == 0 { ""@ } else { "\n\n"@ };
            merged_config(existing, names, block) == trim_end(cleaned) + sep + managed_section(block) + "\n"@
        }),
{
    reveal_strlit("\n");
    reveal_strlit("# <<< ssh-bootstrap-manager managed block <<<");
    let cleaned = stripped_text(manual_part(existing), names);
    let sep = if trim(cleaned).len() == 0 { ""@ } else { "\n\n"@ };
    let t = trim_end(cleaned) + sep + managed_section(block);
    assert(MARK_END@ == "# <<< ssh-bootstrap-manager managed block <<<"@);
    assert(t.last() == MARK_END@.last());
    assert(t.push('\n') =~= t + "\n"@);
}

/// A `Host` line of the hand-written part keeps exactly its aliases that the
/// store does not manage, in their order: none that it manages, and every one
/// that it does not.
pub proof fn law_host_line_keeps_unmanaged(aliases: Seq<Seq<char>>, names: Seq<Seq<char>>)
    ensures
        forall|i: int| 0 <= i < unmanaged(aliases, names).len() ==> !names.contains(#[trigger] unmanaged(aliases, names)[i]),
        forall|i: int| 0 <= i < aliases.len() && !names.contains(#[trigger] aliases[i]) ==> unmanaged(aliases, names).contains(aliases[i]),
        forall|i: int| 0 <= i < unmanaged(aliases, names).len() ==> aliases.contains(#[trigger] unmanaged(aliases, names)[i]),
    decreases aliases.len(),
{
    if aliases.len() > 0 {
        let init = aliases.drop_last();
        law_host_line_keeps_unmanaged(init, names);
        let u0 = unmanaged(init, names);
        let u = unmanaged(aliases, names);
        assert forall|i: int| 0 <= i < u.len() implies !names.contains(#[trigger] u[i]) by {
            if i < u0.len() {
                assert(u[i] == u0[i]);
            }
        }
        assert forall|i: int| 0 <= i < aliases.len() && !names.contains(#[trigger] aliases[i]) implies u.contains(aliases[i]) by {
            if i < init.len() {
                assert(init[i] == aliases[i]);
                assert(u0.contains(aliases[i]));
                let k = choose|k: int| 0 <= k < u0.len() && u0[k] == aliases[i];
                assert(u[k] == u0[k]);
            } else {
                assert(u[u.len() - 1] == aliases[i]);
            }
        }
        assert forall|i: int| 0 <= i < u.len() implies aliases.contains(#[trigger] u[i]) by {
            if i < u0.len() {
                assert(u[i] == u0[i]);
                assert(init.contains(u0[i]));
                let k = choose|k: int| 0 <= k < init.len() && init[k] == u0[i];
                assert(aliases[k] == init[k]);
            } else {
                assert(aliases[aliases.len() - 1] == u[i]);
            }
        }
    }
}

/// With no names to take out, every alias stays.
proof fn lemma_unmanaged_none(aliases: Seq<Seq<char>>)
    ensures
        unmanaged(aliases, Seq::<Seq<char>>::empty()) == aliases,
    decreases aliases.len(),
{
    if aliases.len() > 0 {
        lemma_unmanaged_none(aliases.drop_last());
        assert(aliases.drop_last().push(aliases.last()) =~= aliases);
    }
}

/// A line that a pass with no managed hosts writes back as it was: when it
/// reads as a `Host` line, it is already its leading whitespace, its keyword,
/// and at least one alias, each after a single space.
pub open spec fn is_settled_line(line: Seq<char>) -> bool {
    let stripped = trim(line);
    let parts = words(stripped);
    starts_with(lowercase(stripped), "host "@) && !starts_with(lowercase(stripped), "match "@) ==> {
        &&& parts.len() >= 2
        &&& line == line.take(line.len() - trim_start(line).len() + parts[0].len()) + " "@
            + join(after_first(parts), " "@)
    }
}

/// Stripping lines with no managed hosts keeps every settled line.
proof fn lemma_strip_lines_none(ls: Seq<Seq<char>>)
    requires
        forall|i: int| 0 <= i < ls.len() ==> is_settled_line(#[trigger] ls[i]),
    ensures
        strip_lines(ls, Seq::<Seq<char>>::empty()) == (ls, false),
    decreases ls.len(),
{
    if ls.len() > 0 {
        let init = ls.drop_last();
        assert forall|i: int| 0 <= i < init.len() implies is_settled_line(#[trigger] init[i]) by {
            assert(init[i] == ls[i]);
        }
        lemma_strip_lines_none(init);
        let line = ls.last();
        assert(is_settled_line(ls[ls.len() - 1]));
        let parts = words(trim(line));
        lemma_unmanaged_none(after_first(parts));
        assert(strip_line(line, false, Seq::<Seq<char>>::empty()) == (Some(line), false));
        assert(init + seq![line] =~= ls);
    }
}

/// With no managed hosts, stripping keeps a config line for line, in order,
/// only cutting runs of three or more newlines to two and line ends to `\n`:
/// provided each `Host` line is already settled (see [`is_settled_line`]).
pub proof fn law_strip_without_hosts_keeps_text(text: Seq<char>)
    requires
        forall|i: int| 0 <= i < lines(text).len() ==> is_settled_line(#[trigger] lines(text)[i]),
    ensures
        stripped_text(text, Seq::<Seq<char>>::empty()) == newline_runs_replaced(join(lines(text), "\n"@), "\n\n"@),
{
    lemma_strip_lines_none(lines(text));
}

/// No two entries of `s` have `key`s equal but for case.
pub open spec fn no_case_ties<V>(s: Seq<V>, key: spec_fn(V) -> Seq<char>) -> bool {
    forall|i: int, j: int|
        0 <= i < j < s.len() ==> lowercase(key(#[trigger] s[i])) != lowercase(key(#[trigger] s[j]))
}

/// The stable sort rearranges its input into ascending order.
proof fn lemma_stably_sorted<V>(s: Seq<V>, key: spec_fn(V) -> Seq<char>)
    requires
        s.len() <= usize::MAX,
    ensures
        arranged_by(stably_sorted(s, key), s, stable_order(lower_keys(s, key))),
        ascending_by_lower(stably_sorted(s, key), key),
{
    let lk = lower_keys(s, key);
    lemma_stable_order_upto(lk, lk.len());
    let p = stable_order(lk);
    let r = stably_sorted(s, key);
    assert forall|x: int, y: int| 0 <= x < y < r.len() implies lex_le(
        lowercase(key(#[trigger] r[x])),
        lowercase(key(#[trigger] r[y])),
    ) by {
        assert(lex_le(lk[p[x] as int], lk[p[y] as int]));
    }
}

/// A rearrangement holds the same entries.
proof fn lemma_rearranged_contains<V>(r: Seq<V>, s: Seq<V>, p: Seq<usize>, x: V)
    requires
        arranged_by(r, s, p),
    ensures
        r.contains(x) == s.contains(x),
{
    if r.contains(x) {
        let k = choose|k: int| 0 <= k < r.len() && r[k] == x;
        assert(r[k] == s[p[k] as int]);
    }
    if s.contains(x) {
        let j = choose|j: int| 0 <= j < s.len() && s[j] == x;
        assert(lists(p, j));
        let k = choose|k: int| 0 <= k < p.len() && p[k] as int == j;
        assert(r[k] == s[p[k] as int]);
    }
}

/// A rearrangement of entries without case ties has none.
proof fn lemma_rearranged_no_ties<V>(r: Seq<V>, s: Seq<V>, p: Seq<usize>, key: spec_fn(V) -> Seq<char>)
    requires
        arranged_by(r, s, p),
        no_case_ties(s, key),
    ensures
        no_case_ties(r, key),
{
    assert forall|i: int, j: int| 0 <= i < j < r.len() implies lowercase(key(#[trigger] r[i]))
        != lowercase(key(#[trigger] r[j])) by {
        assert(r[i] == s[p[i] as int] && r[j] == s[p[j] as int]);
        assert(p[i] != p[j]);
        if (p[i] as int) > (p[j] as int) {
            assert(lowercase(key(s[p[j] as int])) != lowercase(key(s[p[i] as int])));
        }
    }
}

/// Two lists ascending by lower-cased key, without case ties and with the
/// same entries, are equal.
proof fn lemma_sorted_unique<V>(a: Seq<V>, b: Seq<V>, key: spec_fn(V) -> Seq<char>)
    requires
        ascending_by_lower(a, key),
        ascending_by_lower(b, key),
        no_case_ties(a, key),
        no_case_ties(b, key),
        forall|x: V| #[trigger] a.contains(x) == b.contains(x),
    ensures
        a == b,
    decreases a.len(),
{
    if a.len() == 0 {
        if b.len() > 0 {
            assert(b.contains(b[0]));
            assert(a.contains(b[0]) == b.contains(b[0]));
            assert(!a.contains(b[0]));
        }
        assert(a =~= b);
    } else {
        assert(a.contains(a[0]));
        assert(a.contains(a[0]) == b.contains(a[0]));
        let j = choose|j: int| 0 <= j < b.len() && b[j] == a[0];
        assert(b.contains(b[0]));
        assert(a.contains(b[0]) == b.contains(b[0]));
        let k = choose|k: int| 0 <= k < a.len() && a[k] == b[0];
        if j > 0 {
            assert(lex_le(lowercase(key(b[0])), lowercase(key(b[j]))));
            if k == 0 {
                assert(lowercase(key(b[0])) != lowercase(key(b[j])));
            } else {
                assert(lex_le(lowercase(key(a[0])), lowercase(key(a[k]))));
                lemma_lex_antisym(lowercase(key(a[0])), lowercase(key(a[k])));
            }
        }
        assert(b[0] == a[0]);
        let a1 = a.drop_first();
        let b1 = b.drop_first();
        assert forall|x: V| #[trigger] a1.contains(x) == b1.contains(x) by {
            if a1.contains(x) {
                let i = choose|i: int| 0 <= i < a1.len() && a1[i] == x;
                assert(a[i + 1] == x);
                assert(a.contains(x));
                assert(a.contains(x) == b.contains(x));
                let i2 = choose|i2: int| 0 <= i2 < b.len() && b[i2] == x;
                if i2 == 0 {
                    assert(lowercase(key(a[0])) != lowercase(key(a[i + 1])));
                }
                assert(b1[i2 - 1] == x);
            }
            if b1.contains(x) {
                let i = choose|i: int| 0 <= i < b1.len() && b1[i] == x;
                assert(b[i + 1] == x);
                assert(b.contains(x));
                assert(a.contains(x) == b.contains(x));
                let i2 = choose|i2: int| 0 <= i2 < a.len() && a[i2] == x;
                if i2 == 0 {
                    assert(lowercase(key(b[0])) != lowercase(key(b[i + 1])));
                }
                assert(a1[i2 - 1] == x);
            }
        }
        assert forall|x: int, y: int| 0 <= x < y < a1.len() implies lex_le(
            lowercase(key(#[trigger] a1[x])), lowercase(key(#[trigger] a1[y]))) by {
            assert(a1[x] == a[x + 1] && a1[y] == a[y + 1]);
        }
        assert forall|x: int, y: int| 0 <= x < y < b1.len() implies lex_le(
            lowercase(key(#[trigger] b1[x])), lowercase(key(#[trigger] b1[y]))) by {
            assert(b1[x] == b[x + 1] && b1[y] == b[y + 1]);
        }
        assert forall|x: int, y: int| 0 <= x < y < a1.len() implies lowercase(key(#[trigger] a1[x]))
            != lowercase(key(#[trigger] a1[y])) by {
            assert(a1[x] == a[x + 1] && a1[y] == a[y + 1]);
        }
        assert forall|x: int, y: int| 0 <= x < y < b1.len() implies lowercase(key(#[trigger] b1[x]))
            != lowercase(key(#[trigger] b1[y])) by {
            assert(b1[x] == b[x + 1] && b1[y] == b[y + 1]);
        }
        lemma_sorted_unique(a1, b1, key);
        assert(a =~= seq![a[0]] + a1);
        assert(b =~= seq![b[0]] + b1);
    }
}

/// Lists with distinct keys that build the same map hold the same entries.
proof fn lemma_same_map_same_entries<V>(v1: Seq<V>, v2: Seq<V>, key: spec_fn(V) -> Seq<char>, x: V)
    requires
        keys_distinct(v1, key),
        keys_distinct(v2, key),
        keyed(v1, key) == keyed(v2, key),
    ensures
        v1.contains(x) == v2.contains(x),
{
    lemma_keyed_all(v1, key);
    lemma_keyed_all(v2, key);
    if v1.contains(x) {
        let i = choose|i: int| 0 <= i < v1.len() && v1[i] == x;
        assert(keyed(v1, key)[key(v1[i])] == v1[i]);
        assert(has_key(v1, key, key(x)));
        assert(keyed(v2, key).dom().contains(key(x)));
        let j = choose|j: int| 0 <= j < v2.len() && key(#[trigger] v2[j]) == key(x);
        assert(keyed(v2, key)[key(v2[j])] == v2[j]);
    }
    if v2.contains(x) {
        let i = choose|i: int| 0 <= i < v2.len() && v2[i] == x;
        assert(keyed(v2, key)[key(v2[i])] == v2[i]);
        assert(has_key(v2, key, key(x)));
        assert(keyed(v1, key).dom().contains(key(x)));
        let j = choose|j: int| 0 <= j < v1.len() && key(#[trigger] v1[j]) == key(x);
        assert(keyed(v1, key)[key(v1[j])] == v1[j]);
    }
}

/// The sorted list of a table is the same for any list that builds the same
/// map, when no two names are equal but for case.
proof fn lemma_sorted_table<V>(v1: Seq<V>, v2: Seq<V>, key: spec_fn(V) -> Seq<char>)
    requires
        v1.len() <= usize::MAX,
        v2.len() <= usize::MAX,
        keys_distinct(v1, key),
        keys_distinct(v2, key),
        keyed(v1, key) == keyed(v2, key),
        no_case_ties(v1, key),
        no_case_ties(v2, key),
    ensures
        stably_sorted(v1, key) == stably_sorted(v2, key),
{
    lemma_stably_sorted(v1, key);
    lemma_stably_sorted(v2, key);
    let r1 = stably_sorted(v1, key);
    let r2 = stably_sorted(v2, key);
    let p1 = stable_order(lower_keys(v1, key));
    let p2 = stable_order(lower_keys(v2, key));
    lemma_rearranged_no_ties(r1, v1, p1, key);
    lemma_rearranged_no_ties(r2, v2, p2, key);
    assert forall|x: V| #[trigger] r1.contains(x) == r2.contains(x) by {
        lemma_rearranged_contains(r1, v1, p1, x);
        lemma_rearranged_contains(r2, v2, p2, x);
        lemma_same_map_same_entries(v1, v2, key, x);
    }
    lemma_sorted_unique(r1, r2, key);
}

/// Two stores that file the same records, with no two server aliases and no
/// two jump host names equal but for case, save the same server and jump host
/// tables and generate the same block: the output does not depend on the order
/// in which the store holds its entries. (The block reads the keys only by
/// name, so their order and case do not matter to it.)
pub proof fn law_same_tables_same_output(s1: AppStore, s2: AppStore)
    requires
        s1.wf(),
        s2.wf(),
        s1@.servers == s2@.servers,
        s1@.jump_hosts == s2@.jump_hosts,
        s1@.keys == s2@.keys,
        no_case_ties(server_views(s1.servers@), by_alias()),
        no_case_ties(server_views(s2.servers@), by_alias()),
        no_case_ties(jump_host_views(s1.jump_hosts@), by_jump_name()),
        no_case_ties(jump_host_views(s2.jump_hosts@), by_jump_name()),
    ensures
        stably_sorted(server_views(s1.servers@), by_alias()) == stably_sorted(server_views(s2.servers@), by_alias()),
        stably_sorted(jump_host_views(s1.jump_hosts@), by_jump_name())
            == stably_sorted(jump_host_views(s2.jump_hosts@), by_jump_name()),
        generated_block(s1) == generated_block(s2),
{
    assert(s1.servers.len() == s1.servers@.len() && s2.servers.len() == s2.servers@.len());
    assert(s1.jump_hosts.len() == s1.jump_hosts@.len() && s2.jump_hosts.len() == s2.jump_hosts@.len());
    lemma_sorted_table(server_views(s1.servers@), server_views(s2.servers@), by_alias());
    lemma_sorted_table(jump_host_views(s1.jump_hosts@), jump_host_views(s2.jump_hosts@), by_jump_name());
}

/// Two stores that file the same keys, with no two key names equal but for
/// case, save the same key table, whatever order they hold the keys in.
pub proof fn law_same_keys_same_saved_keys(s1: AppStore, s2: AppStore)
    requires
        s1.wf(),
        s2.wf(),
        s1@.keys == s2@.keys,
        no_case_ties(key_views(s1.keys@), by_key_name()),
        no_case_ties(key_views(s2.keys@), by_key_name()),
    ensures
        stably_sorted(key_views(s1.keys@), by_key_name()) == stably_sorted(key_views(s2.keys@), by_key_name()),
{
    assert(s1.keys.len() == s1.keys@.len() && s2.keys.len() == s2.keys@.len());
    lemma_sorted_table(key_views(s1.keys@), key_views(s2.keys@), by_key_name());
}

/// What the markers and the header are made of.
proof fn lemma_marker_facts()
    ensures
        MARK_START@.len() == 45,
        MARK_END@.len() == 45,
        MARK_START@[0] == '#',
        forall|d: int| 1 <= d < 45 ==> MARK_START@[d] != '#',
        forall|d: int| 0 <= d < 45 ==> MARK_START@[d] != '\n',
        forall|d: int| 0 <= d < 45 ==> MARK_END@[d] != '\n',
        MARK_END@[2] == '<',
        MANAGED_HEADER@.len() > 0,
        MANAGED_HEADER@.last() == '\n',
        forall|i: int| 0 <= i < MANAGED_HEADER@.len() ==> MANAGED_HEADER@[i] != '<',
{
    reveal_strlit("# >>> ssh-bootstrap-manager managed block >>>");
    reveal_strlit("# <<< ssh-bootstrap-manager managed block <<<");
    reveal_strlit("# This block is auto-generated by SSH Bootstrap Manager.\n# Do not edit by hand - manage servers and jump hosts from the app;\n# manual changes here will be overwritten on the next save.\n");
    assert(MARK_START@ == "# >>> ssh-bootstrap-manager managed block >>>"@);
    assert(MARK_END@ == "# <<< ssh-bootstrap-manager managed block <<<"@);
    assert(MANAGED_HEADER@ == "# This block is auto-generated by SSH Bootstrap Manager.\n# Do not edit by hand - manage servers and jump hosts from the app;\n# manual changes here will be overwritten on the next save.\n"@);
}

/// No start marker begins before the managed block: the hand-written part
/// holds none, the separator is newlines, and the marker's `#` appears only
/// at its start.
proof fn lemma_no_start_before(c: Seq<char>, sep: Seq<char>, rest: Seq<char>, k: int)
    requires
        !contains_text(c, MARK_START@),
        sep == Seq::<char>::empty() || sep == seq!['\n', '\n'],
        rest.len() >= MARK_START@.len(),
        rest.take(MARK_START@.len() as int) == MARK_START@,
        0 <= k < c.len() + sep.len(),
    ensures
        !occurs_at(c + sep + rest, MARK_START@, k),
{
    lemma_marker_facts();
    let r = c + sep + rest;
    let a: int = (c.len() + sep.len()) as int;
    if occurs_at(r, MARK_START@, k) {
        if k + 45 <= c.len() {
            lemma_occurs_inside(r, MARK_START@, k, 0, c.len() as int);
            assert(r.subrange(0, c.len() as int) =~= c);
        } else {
            let p = if k > c.len() { k } else { c.len() as int };
            if p < a {
                lemma_occurs_char(r, MARK_START@, k, p);
                assert(r[p] == sep[p - c.len()]);
            } else {
                lemma_occurs_char(r, MARK_START@, k, a);
                assert(r[a] == rest[0]);
                assert(rest[0] == rest.take(45)[0]);
            }
        }
    }
}

/// No end marker begins between the start marker and the managed block's
/// own end marker: the header holds no `<`, the hosts' block holds no end
/// marker, and the marker holds no newline to straddle lines with.
proof fn lemma_no_end_inside(x: Seq<char>, block: Seq<char>, body: Seq<char>, k: int)
    requires
        !contains_text(block, MARK_END@),
        body == (if block.len() == 0 { MANAGED_HEADER@ } else { MANAGED_HEADER@ + block + seq!['\n'] }),
        x.len() + 45 <= k < x.len() + 46 + body.len(),
    ensures
        !occurs_at(x + MARK_START@ + seq!['\n'] + body + MARK_END@ + seq!['\n'], MARK_END@, k),
{
    lemma_marker_facts();
    let pre = x + MARK_START@ + seq!['\n'];
    let r = pre + body + MARK_END@ + seq!['\n'];
    let q: int = x.len() as int + 45;
    let j0: int = (pre.len() + body.len()) as int;
    let h = MANAGED_HEADER@;
    assert(pre.len() == q + 1);
    if occurs_at(r, MARK_END@, k) {
        if k == q {
            lemma_occurs_char(r, MARK_END@, k, q);
            assert(r[q] == pre[q]);
        } else if k + 45 > j0 - 1 {
            lemma_occurs_char(r, MARK_END@, k, j0 - 1);
            assert(r[j0 - 1] == body[body.len() - 1]);
        } else if block.len() == 0 {
            lemma_occurs_char(r, MARK_END@, k, k + 2);
            assert(r[k + 2] == body[k + 2 - pre.len()]);
        } else {
            let b0: int = (pre.len() + h.len()) as int;
            assert(body[h.len() - 1] == h.last());
            if k < b0 {
                if k + 45 > b0 - 1 {
                    lemma_occurs_char(r, MARK_END@, k, b0 - 1);
                    assert(r[b0 - 1] == body[h.len() - 1]);
                } else {
                    lemma_occurs_char(r, MARK_END@, k, k + 2);
                    assert(r[k + 2] == body[k + 2 - pre.len()]);
                    assert(body[k + 2 - pre.len()] == h[k + 2 - pre.len()]);
                }
            } else {
                lemma_occurs_inside(r, MARK_END@, k, b0, b0 + block.len());
                assert(r.subrange(b0, b0 + block.len()) =~= block);
            }
        }
    }
}


/// A span start that has no span start before it is the leftmost.
proof fn lemma_span_start_is(r: Seq<char>, start: Seq<char>, end: Seq<char>, a: int)
    requires
        starts_span(r, start, end, a),
        forall|k: int| 0 <= k < a ==> !starts_span(r, start, end, k),
    ensures
        span_start(r, start, end) == a,
{
    let i = span_start(r, start, end);
    assert(starts_span(r, start, end, i) && forall|k: int| 0 <= k < i ==> !starts_span(r, start, end, k));
    if i < a {
        assert(!starts_span(r, start, end, i));
    } else if i > a {
        assert(!starts_span(r, start, end, a));
    }
}

/// A close marker with none between the open marker and it is the nearest.
proof fn lemma_span_close_is(r: Seq<char>, start: Seq<char>, end: Seq<char>, a: int, j0: int)
    requires
        span_at(r, start, end, a, j0),
        forall|k: int| a + start.len() <= k < j0 ==> !occurs_at(r, end, k),
    ensures
        span_close(r, start, end, a) == j0,
{
    let j = span_close(r, start, end, a);
    assert(span_at(r, start, end, a, j) && forall|k: int| a + start.len() <= k < j ==> !occurs_at(r, end, k));
    if j < j0 {
        assert(!occurs_at(r, end, j));
    } else if j > j0 {
        assert(!occurs_at(r, end, j0));
    }
}

/// The body of the managed block: the header, then the hosts' block and a
/// newline when there are hosts.
spec fn managed_body(block: Seq<char>) -> Seq<char> {
    if block.len() == 0 { MANAGED_HEADER@ } else { MANAGED_HEADER@ + block + seq!['\n'] }
}

/// The leftmost span of a config that ends with a managed block is that
/// block, when the text before it holds no start marker and the hosts' block
/// no end marker.
#[verifier::rlimit(40)]
proof fn lemma_block_is_first_span(c: Seq<char>, sep: Seq<char>, block: Seq<char>)
    requires
        !contains_text(c, MARK_START@),
        !contains_text(block, MARK_END@),
        sep == Seq::<char>::empty() || sep == seq!['\n', '\n'],
    ensures
        has_span(c + sep + managed_section(block) + seq!['\n'], MARK_START@, MARK_END@),
        first_span_replaced(c + sep + managed_section(block) + seq!['\n'], MARK_START@, MARK_END@, Seq::<char>::empty())
            == c + sep + seq!['\n'],
{
    assert(MARK_START@.len() == 45 && MARK_END@.len() == 45) by {
        lemma_marker_facts();
    }
    let x = c + sep;
    let start = MARK_START@;
    let end = MARK_END@;
    let nl: Seq<char> = seq!['\n'];
    let body = managed_body(block);
    assert(managed_section(block) =~= start + nl + body + end) by {
        reveal_strlit("\n");
        assert("\n"@ =~= nl);
    }
    let r = c + sep + managed_section(block) + nl;
    let rest = start + nl + body + end + nl;
    assert(r =~= c + sep + rest);
    assert(r =~= x + start + nl + body + end + nl);
    let a: int = x.len() as int;
    let j0: int = a + 46 + body.len();

    assert(r.subrange(a, a + 45) =~= start);
    assert(r.subrange(j0, j0 + 45) =~= end);
    assert(span_at(r, start, end, a, j0));
    assert(starts_span(r, start, end, a));

    assert(rest.take(45) =~= start);
    assert forall|k: int| 0 <= k < a implies !starts_span(r, start, end, k) by {
        lemma_no_start_before(c, sep, rest, k);
    }
    lemma_span_start_is(r, start, end, a);
    assert forall|k: int| a + 45 <= k < j0 implies !occurs_at(r, end, k) by {
        lemma_no_end_inside(x, block, body, k);
    }
    lemma_span_close_is(r, start, end, a, j0);
    assert(r.take(a) + Seq::<char>::empty() + r.skip(j0 + 45) =~= x + nl);
}

/// "Manual changes here will be overwritten on the next save": the next merge
/// into a merged config finds, as the hand-written part, exactly what this
/// merge kept of it, followed by a newline; the managed block it wrote is
/// dropped whole. This holds when the kept part holds no start marker and
/// the hosts' block holds no end marker (a marker there would pair with the
/// block's own).
pub proof fn law_next_merge_drops_managed_block(existing: Seq<char>, names: Seq<Seq<char>>, block: Seq<char>)
    requires
        !contains_text(trim_end(stripped_text(manual_part(existing), names)), MARK_START@),
        !contains_text(block, MARK_END@),
    ensures
        ({
            let cleaned = stripped_text(manual_part(existing), names);
            let sep = if trim(cleaned).len() == 0 { ""@ } else { "\n\n"@ };
            manual_part(merged_config(existing, names, block)) == trim_end(cleaned) + sep + "\n"@
        }),
{
    law_merged_config_ends_with_block(existing, names, block);
    reveal_strlit("\n\n");
    reveal_strlit("");
    reveal_strlit("\n");
    let cleaned = stripped_text(manual_part(existing), names);
    let sep = if trim(cleaned).len() == 0 { ""@ } else { "\n\n"@ };
    let c = trim_end(cleaned);
    assert(sep =~= Seq::<char>::empty() || sep =~= seq!['\n', '\n']);
    assert("\n"@ =~= seq!['\n']);
    assert(""@ =~= Seq::<char>::empty());
    lemma_block_is_first_span(c, sep, block);
}


/// The aliases that a config line names as a `Host` line: the words after
/// its keyword when it reads as one, none otherwise.
pub open spec fn host_line_aliases(l: Seq<char>) -> Seq<Seq<char>> {
    if starts_with(lowercase(trim(l)), "host "@) { after_first(words(trim(l))) } else { seq![] }
}

/// A name filed as a jump host or a server is one of the store's host names.
proof fn lemma_filed_is_host_name(store: AppStore, a: Seq<char>)
    ensures
        store@.jump_hosts.dom().contains(a) || store@.servers.dom().contains(a) ==> host_names(store).contains(a),
{
    let je = jump_host_views(store.jump_hosts@);
    let se = server_views(store.servers@);
    let jn = je.map_values(|j: crate::models::JumpHostView| j.name);
    let sn = se.map_values(|x: ServerView| x.alias);
    lemma_keyed_dom(je, by_jump_name(), a);
    lemma_keyed_dom(se, by_alias(), a);
    if store@.jump_hosts.dom().contains(a) {
        let i = choose|i: int| 0 <= i < je.len() && by_jump_name()(#[trigger] je[i]) == a;
        assert(host_names(store)[i] == jn[i]);
    } else if store@.servers.dom().contains(a) {
        let i = choose|i: int| 0 <= i < se.len() && by_alias()(#[trigger] se[i]) == a;
        assert(host_names(store)[jn.len() + i] == sn[i]);
    }
}

/// `t` is a hand-written part followed by the managed block of `store`, and
/// no line of that hand-written part that reads as a `Host` line names, among
/// its aliases, any jump host or server filed in `store`.
pub open spec fn keeps_no_managed_host(t: Seq<char>, store: AppStore) -> bool {
    let tail = managed_section(generated_block(store)) + "\n"@;
    let manual = t.take(t.len() - tail.len());
    let ps = pieces_from(manual, seq![]);
    &&& t.len() >= tail.len()
    &&& t.skip(t.len() - tail.len()) == tail
    &&& forall|i: int, k: int|
        0 <= i < ps.len() && 0 <= k < host_line_aliases(ps[i]).len() ==> {
            let a = #[trigger] host_line_aliases(ps[i])[k];
            !store@.jump_hosts.dom().contains(a) && !store@.servers.dom().contains(a)
        }
}

/// Merging drops every hand-written entry of a host that the store manages:
/// a successful merge is a hand-written part followed by the managed block,
/// and no line of that hand-written part that reads as a `Host` line names,
/// among its aliases, any jump host or server filed in the store.
pub proof fn law_merge_drops_every_managed_host(existing: Seq<char>, store: AppStore, r: Result<String, SSHConfigError>)
    requires
        is_merge_result(r, existing, store),
        r is Ok,
    ensures
        keeps_no_managed_host(r->Ok_0@, store),
{
    assert(first_duplicate(host_names(store)) is None);
    lemma_merged_keeps_no_managed_host(existing, store);
}

/// The text that writing the config accepts drops every hand-written entry
/// of a host that the store manages, as merging does.
pub proof fn law_write_drops_every_managed_host(existing: Seq<char>, store: AppStore, r: Result<String, SSHConfigError>)
    requires
        crate::ssh_config::is_write_result(r, existing, store),
        r is Ok,
    ensures
        keeps_no_managed_host(r->Ok_0@, store),
{
    assert(first_duplicate(host_names(store)) is None);
    lemma_merged_keeps_no_managed_host(existing, store);
}

/// The merged config for all of the store's host names keeps no managed host.
proof fn lemma_merged_keeps_no_managed_host(existing: Seq<char>, store: AppStore)
    ensures
        keeps_no_managed_host(merged_config(existing, host_names(store), generated_block(store)), store),
{
    reveal_strlit("\n\n");
    reveal_strlit("");
    let names = host_names(store);
    let block = generated_block(store);
    let t = merged_config(existing, names, block);
    law_merged_config_ends_with_block(existing, names, block);
    let c = stripped_text(manual_part(existing), names);
    let tt = trim_end(c);
    let sep = if trim(c).len() == 0 { ""@ } else { "\n\n"@ };
    let tail = managed_section(block) + "\n"@;
    assert(t =~= (tt + sep) + tail);
    let manual = t.take(t.len() - tail.len());
    assert(manual =~= tt + sep);
    assert(t.skip(t.len() - tail.len()) =~= tail);
    lemma_trim_empty(c);
    let ps = pieces_from(manual, seq![]);
    let e = Seq::<char>::empty();
    assert(trim_start(e) == e && trim_end(e) == e && trim(e) == e);
    assert(words(e) == Seq::<Seq<char>>::empty());
    assert(host_line_aliases(e).len() == 0);
    if tt.len() == 0 {
        assert(manual =~= e);
        assert(ps == seq![e]);
        assert forall|i: int, k: int| 0 <= i < ps.len() && 0 <= k < host_line_aliases(ps[i]).len() implies {
            let a = #[trigger] host_line_aliases(ps[i])[k];
            !store@.jump_hosts.dom().contains(a) && !store@.servers.dom().contains(a)
        } by {
            assert(ps[i] == e);
        }
    } else {
        lemma_kept_text_stays(manual_part(existing), names);
        let pt = pieces_from(tt, seq![]);
        assert(manual =~= tt + seq!['\n'] + seq!['\n']);
        lemma_pieces_split(tt, seq!['\n'], seq![]);
        assert(seq!['\n'].drop_first() =~= e);
        assert(pieces_from(seq!['\n'], seq![]) == seq![e] + pieces_from(e, seq![]));
        assert(pieces_from(seq!['\n'], seq![]) =~= seq![e, e]);
        assert(ps == pt + seq![e, e]);
        assert forall|i: int, k: int| 0 <= i < ps.len() && 0 <= k < host_line_aliases(ps[i]).len() implies {
            let a = #[trigger] host_line_aliases(ps[i])[k];
            !store@.jump_hosts.dom().contains(a) && !store@.servers.dom().contains(a)
        } by {
            if i < pt.len() {
                let l = pt[i];
                assert(ps[i] == l);
                assert(crate::restrip::stays(l, names));
                lemma_stays_names_unmanaged(l, names);
                let a = host_line_aliases(l)[k];
                assert(!names.contains(a));
                lemma_filed_is_host_name(store, a);
            } else {
                assert(ps[i] == e);
            }
        }
    }
}


/// What a text holds, a text that holds it holds too.
proof fn lemma_contains_trans(a: Seq<char>, b: Seq<char>, c: Seq<char>)
    requires
        contains_text(a, b),
        contains_text(b, c),
    ensures
        contains_text(a, c),
{
    let i = choose|i: int| occurs_at(a, b, i);
    let j = choose|j: int| occurs_at(b, c, j);
    assert(a.subrange(i, i + b.len()) == b);
    assert(a.subrange(i + j, i + j + c.len()) =~= b.subrange(j, j + c.len()));
    assert(occurs_at(a, c, i + j));
}

/// A join holds each of its parts.
proof fn lemma_join_contains(ps: Seq<Seq<char>>, sep: Seq<char>, i: int)
    requires
        0 <= i < ps.len(),
    ensures
        contains_text(join(ps, sep), ps[i]),
    decreases ps.len(),
{
    let j = join(ps, sep);
    if ps.len() == 1 {
        assert(j.subrange(0, ps[0].len() as int) =~= ps[0]);
        assert(occurs_at(j, ps[i], 0));
    } else {
        let init = ps.drop_last();
        let ji = join(init, sep);
        assert(j == ji + sep + ps.last());
        if i == ps.len() - 1 {
            let k: int = (ji.len() + sep.len()) as int;
            assert(j.subrange(k, k + ps.last().len()) =~= ps.last());
            assert(occurs_at(j, ps[i], k));
        } else {
            lemma_join_contains(init, sep, i);
            assert(init[i] == ps[i]);
            let k = choose|k: int| occurs_at(ji, ps[i], k);
            assert(j.subrange(k, k + ps[i].len()) =~= ji.subrange(k, k + ps[i].len()));
            assert(occurs_at(j, ps[i], k));
        }
    }
}

/// Each non-blank line gives its trimmed, indented option line.
proof fn lemma_option_lines_has(ls: Seq<Seq<char>>, i: int)
    requires
        0 <= i < ls.len(),
        trim(ls[i]).len() > 0,
    ensures
        option_lines(ls).contains("    "@ + trim(ls[i])),
    decreases ls.len(),
{
    let init = ls.drop_last();
    let t = trim(ls.last());
    let tail: Seq<Seq<char>> = if t.len() > 0 { seq!["    "@ + t] } else { seq![] };
    assert(option_lines(ls) == option_lines(init) + tail);
    if i == ls.len() - 1 {
        assert(option_lines(ls)[option_lines(init).len() as int] == "    "@ + t);
    } else {
        assert(init[i] == ls[i]);
        lemma_option_lines_has(init, i);
        let k = choose|k: int| 0 <= k < option_lines(init).len() && option_lines(init)[k] == "    "@ + trim(ls[i]);
        assert(option_lines(ls)[k] == option_lines(init)[k]);
    }
}

/// A host's block holds its `Host` line and each of its option lines.
proof fn lemma_block_holds(
    alias: Seq<char>,
    hostname: Seq<char>,
    username: Seq<char>,
    port: u16,
    identity_file: Option<Seq<char>>,
    proxy_jump: Option<Seq<char>>,
    extra_options: Seq<char>,
    i: int,
)
    ensures
        contains_text(crate::ssh_config::host_block(alias, hostname, username, port, identity_file, proxy_jump, extra_options), "Host "@ + alias),
        0 <= i < lines(extra_options).len() && trim(lines(extra_options)[i]).len() > 0 ==> contains_text(
            crate::ssh_config::host_block(alias, hostname, username, port, identity_file, proxy_jump, extra_options),
            "    "@ + trim(lines(extra_options)[i]),
        ),
{
    let hl = host_block_lines(alias, hostname, username, port, identity_file, proxy_jump, extra_options);
    let ol = option_lines(lines(extra_options));
    let pre = hl.subrange(0, hl.len() - ol.len());
    assert(hl =~= pre + ol);
    assert(hl[0] == "Host "@ + alias);
    lemma_join_contains(hl, "\n"@, 0);
    if 0 <= i < lines(extra_options).len() && trim(lines(extra_options)[i]).len() > 0 {
        lemma_option_lines_has(lines(extra_options), i);
        let k = choose|k: int| 0 <= k < ol.len() && ol[k] == "    "@ + trim(lines(extra_options)[i]);
        assert(hl[pre.len() + k] == ol[k]);
        lemma_join_contains(hl, "\n"@, pre.len() + k);
    }
}

/// Every host of the store has its block in the generated block: for each
/// jump host and each server filed in the store, the generated block holds
/// its `Host` line and, trimmed and indented by four spaces, every non-blank
/// line of its own extra options.
pub proof fn law_generated_block_holds_each_host(store: AppStore, n: Seq<char>, i: int)
    requires
        store.wf(),
    ensures
        store@.jump_hosts.dom().contains(n) ==> {
            let opts = lines(store@.jump_hosts[n].extra_options);
            &&& contains_text(generated_block(store), "Host "@ + n)
            &&& (0 <= i < opts.len() && trim(opts[i]).len() > 0 ==> contains_text(generated_block(store), "    "@ + trim(opts[i])))
        },
        store@.servers.dom().contains(n) ==> {
            let opts = lines(store@.servers[n].extra_options);
            &&& contains_text(generated_block(store), "Host "@ + n)
            &&& (0 <= i < opts.len() && trim(opts[i]).len() > 0 ==> contains_text(generated_block(store), "    "@ + trim(opts[i])))
        },
{
    let keys = store@.keys;
    let je = jump_host_views(store.jump_hosts@);
    let se = server_views(store.servers@);
    assert(store.jump_hosts.len() == store.jump_hosts@.len() && store.servers.len() == store.servers@.len());
    let js = stably_sorted(je, by_jump_name());
    let ss = stably_sorted(se, by_alias());
    let hb = host_blocks(js, ss, keys);
    let g = generated_block(store);
    assert(g == join(hb, "\n\n"@));
    lemma_stably_sorted(je, by_jump_name());
    lemma_stably_sorted(se, by_alias());
    if store@.jump_hosts.dom().contains(n) {
        lemma_keyed_dom(je, by_jump_name(), n);
        let x = choose|x: int| 0 <= x < je.len() && by_jump_name()(#[trigger] je[x]) == n;
        lemma_keyed_value(je, by_jump_name(), x);
        let j = je[x];
        assert(store@.jump_hosts[n] == j);
        lemma_rearranged_contains(js, je, stable_order(lower_keys(je, by_jump_name())), j);
        assert(je.contains(j));
        let q = choose|q: int| 0 <= q < js.len() && js[q] == j;
        assert(hb[q] == jump_host_block(j, keys));
        lemma_join_contains(hb, "\n\n"@, q);
        lemma_block_holds(j.name, j.hostname, j.username, j.port, crate::ssh_config::key_path(keys, j.key_name), None, j.extra_options, i);
        lemma_contains_trans(g, hb[q], "Host "@ + n);
        let opts = lines(j.extra_options);
        if 0 <= i < opts.len() && trim(opts[i]).len() > 0 {
            lemma_contains_trans(g, hb[q], "    "@ + trim(opts[i]));
        }
    }
    if store@.servers.dom().contains(n) {
        lemma_keyed_dom(se, by_alias(), n);
        let x = choose|x: int| 0 <= x < se.len() && by_alias()(#[trigger] se[x]) == n;
        lemma_keyed_value(se, by_alias(), x);
        let sv = se[x];
        assert(store@.servers[n] == sv);
        lemma_rearranged_contains(ss, se, stable_order(lower_keys(se, by_alias())), sv);
        assert(se.contains(sv));
        let q = choose|q: int| 0 <= q < ss.len() && ss[q] == sv;
        assert(hb[js.len() + q] == server_block(sv, keys));
        lemma_join_contains(hb, "\n\n"@, js.len() + q);
        lemma_block_holds(sv.alias, sv.hostname, sv.username, sv.port, crate::ssh_config::key_path(keys, sv.key_name), sv.jump_host, sv.extra_options, i);
        lemma_contains_trans(g, hb[js.len() + q], "Host "@ + n);
        let opts = lines(sv.extra_options);
        if 0 <= i < opts.len() && trim(opts[i]).len() > 0 {
            lemma_contains_trans(g, hb[js.len() + q], "    "@ + trim(opts[i]));
        }
    }
}


/// Adding a server succeeds exactly when the server is valid for the store:
/// its alias, hostname and username are not blank, its port is not 0, no
/// server is filed under its alias, and its jump host and its key, each when
/// named, are filed in the store. The server is then filed under its alias.
pub proof fn law_add_server_accepts_exactly_valid(st: StoreView, s: ServerView)
    ensures
        add_server_result(st, s) is Ok <==> {
            &&& trim(s.alias).len() > 0
            &&& trim(s.hostname).len() > 0
            &&& trim(s.username).len() > 0
            &&& s.port != 0
            &&& !st.servers.dom().contains(s.alias)
            &&& (s.jump_host is Some ==> st.jump_hosts.dom().contains(s.jump_host->0))
            &&& (s.key_name is Some ==> st.keys.dom().contains(s.key_name->0))
        },
        add_server_result(st, s) is Ok ==> add_server_result(st, s)->Ok_0.servers == st.servers.insert(s.alias, s),
{
}

/// Replacing the server filed under `original` succeeds exactly when that
/// server exists and the new one is valid for the store: its alias, hostname
/// and username are not blank, its port is not 0, its alias, when changed, is
/// not filed already, and its jump host and its key, each when named, are
/// filed in the store. The new server is then filed under its alias, in place
/// of the original.
pub proof fn law_update_server_accepts_exactly_valid(st: StoreView, original: Seq<char>, s: ServerView)
    ensures
        update_server_result(st, original, s) is Ok <==> {
            &&& st.servers.dom().contains(original)
            &&& trim(s.alias).len() > 0
            &&& trim(s.hostname).len() > 0
            &&& trim(s.username).len() > 0
            &&& s.port != 0
            &&& (s.alias != original ==> !st.servers.dom().contains(s.alias))
            &&& (s.jump_host is Some ==> st.jump_hosts.dom().contains(s.jump_host->0))
            &&& (s.key_name is Some ==> st.keys.dom().contains(s.key_name->0))
        },
        update_server_result(st, original, s) is Ok ==> update_server_result(st, original, s)->Ok_0.servers
            == (if original != s.alias { st.servers.remove(original) } else { st.servers }).insert(s.alias, s),
{
}

/// Aliases that are new and distinct raise no duplicate and are all seen.
proof fn lemma_new_aliases(aliases: Seq<Seq<char>>, seen: Seq<Seq<char>>)
    requires
        forall|i: int, j: int| 0 <= i < j < aliases.len() ==> aliases[i] != aliases[j],
        forall|i: int| 0 <= i < aliases.len() ==> !seen.contains(#[trigger] aliases[i]),
    ensures
        alias_problems(aliases, seen) == (Seq::<Seq<char>>::empty(), seen + aliases),
    decreases aliases.len(),
{
    if aliases.len() > 0 {
        let init = aliases.drop_last();
        lemma_new_aliases(init, seen);
        let a = aliases.last();
        assert(!(seen + init).contains(a)) by {
            if (seen + init).contains(a) {
                let k = choose|k: int| 0 <= k < (seen + init).len() && (seen + init)[k] == a;
                if k < seen.len() {
                    assert(seen[k] == aliases[aliases.len() - 1]);
                } else {
                    assert(init[k - seen.len()] == aliases[k - seen.len()]);
                }
            }
        }
        assert((seen + init).push(a) =~= seen + aliases);
    } else {
        assert(seen + aliases =~= seen);
    }
}

/// Only `Host` lines name aliases. A line whose first word, lower-cased, is
/// not exactly `host` (such as `HostName` or `HostKeyAlgorithms`) adds no
/// alias to those seen and reports no duplicate; unless it reads as a `Port`
/// line it reports nothing. A `Host` line whose aliases are distinct and not
/// seen before reports nothing, unless it reads as a `Port` line, and adds
/// them all to those seen.
pub proof fn law_only_host_lines_name_aliases(line: Seq<char>, seen: Seq<Seq<char>>)
    ensures
        ({
            let stripped = trim(line);
            let parts = words(stripped);
            (parts.len() == 0 || lowercase(parts[0]) != "host"@) ==> {
                &&& line_problems(line, seen).1 == seen
                &&& (!starts_with(lowercase(stripped), "port "@) ==> line_problems(line, seen).0.len() == 0)
            }
        }),
        ({
            let stripped = trim(line);
            let parts = words(stripped);
            let aliases = after_first(parts);
            (stripped.len() > 0 && stripped[0] != '#' && parts.len() > 0 && lowercase(parts[0]) == "host"@
                && (forall|i: int, j: int| 0 <= i < j < aliases.len() ==> aliases[i] != aliases[j])
                && (forall|i: int| 0 <= i < aliases.len() ==> !seen.contains(#[trigger] aliases[i]))
                && !starts_with(lowercase(stripped), "port "@))
                ==> line_problems(line, seen) == (Seq::<Seq<char>>::empty(), seen + aliases)
        }),
{
    let stripped = trim(line);
    let parts = words(stripped);
    let aliases = after_first(parts);
    if stripped.len() > 0 && stripped[0] != '#' && parts.len() > 0 && lowercase(parts[0]) == "host"@
        && (forall|i: int, j: int| 0 <= i < j < aliases.len() ==> aliases[i] != aliases[j])
        && (forall|i: int| 0 <= i < aliases.len() ==> !seen.contains(#[trigger] aliases[i]))
        && !starts_with(lowercase(stripped), "port "@) {
        lemma_new_aliases(aliases, seen);
        assert(Seq::<Seq<char>>::empty() + Seq::<Seq<char>>::empty() =~= Seq::<Seq<char>>::empty());
    }
    if !(stripped.len() == 0 || stripped[0] == '#') && (parts.len() == 0 || lowercase(parts[0]) != "host"@)
        && !starts_with(lowercase(stripped), "port "@) {
        assert(Seq::<Seq<char>>::empty() + Seq::<Seq<char>>::empty() =~= Seq::<Seq<char>>::empty());
    }
}


/// Adding a key succeeds exactly when its name and private key path are not
/// blank and no key is filed under its name; the key is then filed under it.
pub proof fn law_add_key_accepts_exactly_valid(st: StoreView, k: SSHKeyView)
    ensures
        add_key_result(st, k) is Ok <==> {
            &&& trim(k.name).len() > 0
            &&& trim(k.private_key_path).len() > 0
            &&& !st.keys.dom().contains(k.name)
        },
        add_key_result(st, k) is Ok ==> add_key_result(st, k)->Ok_0.keys == st.keys.insert(k.name, k),
{
}

} // verus!
