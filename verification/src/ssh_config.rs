//! The `~/.ssh/config` text: rendering of host blocks, the managed block,
//! merging it into a hand-written config, and checking a config's text.

use vstd::prelude::*;
use crate::keyed::{keyed, lemma_keyed_value, lemma_keyed_dom};
use crate::models::opt_view;
use crate::models::{JumpHostView, ServerView, SSHKeyView};
use crate::order::is_rearrangement;
use crate::store::{
    AppStore, ascending_by_lower, by_alias, by_jump_name, jump_host_views, server_views,
    sorted_by_name, stably_sorted,
};
use crate::order::{lowercase, to_lowercase};
use crate::patterns::{regex_replace_all, newline_runs_replaced, regex_escape, regex_is_match,
    regex_replace, has_span, first_span_replaced, lazy_span_pattern};
use crate::text::{parses_as_u16, parses_as_u16_chars, is_white_space, char_is_whitespace, trim_end_chars, starts_with, starts_with_str, words, words_of, trim_start, leading_white_len,
    lemma_trim_end_len, lemma_words_from_len, sub_chars, trim_end, 
    chars_of, decimal, decimal_chars, join, join_chars, lines, lines_of, push_all, string_of,
    trim, trim_chars,
};

verus! {

/// The line that opens the managed block.
pub const MARK_START: &'static str = "# >>> ssh-bootstrap-manager managed block >>>";

/// The line that closes the managed block.
pub const MARK_END: &'static str = "# <<< ssh-bootstrap-manager managed block <<<";

/// The comment lines at the head of the managed block.
pub const MANAGED_HEADER: &'static str = "# This block is auto-generated by SSH Bootstrap Manager.\n# Do not edit by hand - manage servers and jump hosts from the app;\n# manual changes here will be overwritten on the next save.\n";

/// Why the SSH config could not be written.
#[derive(Debug)]
pub enum SSHConfigError {
    /// Reading or writing a file failed; the message says how.
    Io(String),
    /// The config breaks a rule; the message says which.
    Validation(String),
}

impl SSHConfigError {
    /// The text that the error displays.
    pub fn message(&self) -> (r: String)
        ensures
            r@ == config_error_text(*self),
    {
        let (mut r, detail) = match self {
            SSHConfigError::Io(m) => ("I/O Error: ".to_owned(), m),
            SSHConfigError::Validation(m) => ("Validation Error: ".to_owned(), m),
        };
        r.append(detail.as_str());
        r
    }
}

/// The text that an [`SSHConfigError`] displays.
pub open spec fn config_error_text(e: SSHConfigError) -> Seq<char> {
    match e {
        SSHConfigError::Io(m) => "I/O Error: "@ + m@,
        SSHConfigError::Validation(m) => "Validation Error: "@ + m@,
    }
}

/// The indented option lines that the non-blank lines of `ls` give, trimmed.
pub open spec fn option_lines(ls: Seq<Seq<char>>) -> Seq<Seq<char>>
    decreases ls.len(),
{
    if ls.len() == 0 {
        seq![]
    } else {
        let t = trim(ls.last());
        option_lines(ls.drop_last()) + (if t.len() > 0 { seq!["    "@ + t] } else { seq![] })
    }
}

/// The line `label + value` when there is a value.
pub open spec fn optional_line(label: Seq<char>, value: Option<Seq<char>>) -> Seq<Seq<char>> {
    match value {
        Some(v) => seq![label + v],
        None => seq![],
    }
}

/// The lines of the `Host` block of one host.
pub open spec fn host_block_lines(
    alias: Seq<char>,
    hostname: Seq<char>,
    username: Seq<char>,
    port: u16,
    identity_file: Option<Seq<char>>,
    proxy_jump: Option<Seq<char>>,
    extra_options: Seq<char>,
) -> Seq<Seq<char>> {
    seq!["Host "@ + alias, "    HostName "@ + hostname]
        + (if username.len() > 0 { seq!["    User "@ + username] } else { seq![] })
        + seq!["    Port "@ + decimal(port as nat)]
        + optional_line("    IdentityFile "@, identity_file)
        + optional_line("    ProxyJump "@, proxy_jump)
        + option_lines(lines(extra_options))
}

/// The `Host` block of one host, its lines joined by newlines.
pub open spec fn host_block(
    alias: Seq<char>,
    hostname: Seq<char>,
    username: Seq<char>,
    port: u16,
    identity_file: Option<Seq<char>>,
    proxy_jump: Option<Seq<char>>,
    extra_options: Seq<char>,
) -> Seq<char> {
    join(
        host_block_lines(alias, hostname, username, port, identity_file, proxy_jump, extra_options),
        "\n"@,
    )
}

/// `label + value`, as characters.
fn labelled(label: &str, value: &Vec<char>) -> (r: Vec<char>)
    ensures
        r@ == label@ + value@,
{
    let mut r = chars_of(label);
    push_all(&mut r, value);
    r
}

/// Appends the option lines that the lines `ls` give.
fn push_option_lines(out: &mut Vec<Vec<char>>, ls: &Vec<Vec<char>>)
    ensures
        final(out).deep_view() == old(out).deep_view() + option_lines(ls.deep_view()),
{
    let ghost dv = ls.deep_view();
    let ghost start = out.deep_view();
    let mut i: usize = 0;
    assert(dv.take(0) =~= Seq::<Seq<char>>::empty());
    assert(start + option_lines(dv.take(0)) =~= start);
    while i < ls.len()
        invariant
            i <= ls.len(),
            dv == ls.deep_view(),
            out.deep_view() == start + option_lines(dv.take(i as int)),
        decreases ls.len() - i,
    {
        assert(dv.take(i + 1).drop_last() =~= dv.take(i as int));
        assert(dv.take(i + 1).last() == ls@[i as int]@);
        let t = trim_chars(&ls[i]);
        if t.len() > 0 {
            let line = labelled("    ", &t);
            let ghost before = out.deep_view();
            let ghost l = line@;
            push_line(out, line);
            assert(before.push(l) =~= start + (option_lines(dv.take(i as int)) + seq![line@]));
        } else {
            assert(option_lines(dv.take(i as int)) + Seq::<Seq<char>>::empty()
                =~= option_lines(dv.take(i as int)));
        }
        i = i + 1;
    }
    assert(dv.take(i as int) =~= dv);
}

/// Pushes a line onto a list of lines.
fn push_line(out: &mut Vec<Vec<char>>, line: Vec<char>)
    ensures
        final(out).deep_view() == old(out).deep_view().push(line@),
{
    let ghost before = out.deep_view();
    let ghost l = line@;
    assert(line.deep_view() =~= l);
    out.push(line);
    assert(out.deep_view() =~= before.push(l));
}

/// The `Host` block of one host: its alias, `HostName`, `User` when the
/// user name is not empty, `Port`, `IdentityFile` and `ProxyJump` when given,
/// then each non-blank line of `extra_options`, trimmed and indented.
pub fn render_host_block(
    alias: &str,
    hostname: &str,
    username: &str,
    port: u16,
    identity_file: Option<&str>,
    proxy_jump: Option<&str>,
    extra_options: &str,
) -> (r: String)
    ensures
        r@ == host_block(
            alias@,
            hostname@,
            username@,
            port,
            match identity_file { Some(k) => Some(k@), None => None },
            match proxy_jump { Some(p) => Some(p@), None => None },
            extra_options@,
        ),
{
    let mut out: Vec<Vec<char>> = Vec::new();
    push_line(&mut out, labelled("Host ", &chars_of(alias)));
    push_line(&mut out, labelled("    HostName ", &chars_of(hostname)));
    let user = chars_of(username);
    if user.len() > 0 {
        push_line(&mut out, labelled("    User ", &user));
    }
    push_line(&mut out, labelled("    Port ", &decimal_chars(port as u32)));
    if let Some(key) = identity_file {
        push_line(&mut out, labelled("    IdentityFile ", &chars_of(key)));
    }
    if let Some(pj) = proxy_jump {
        push_line(&mut out, labelled("    ProxyJump ", &chars_of(pj)));
    }
    let extra = lines_of(&chars_of(extra_options));
    push_option_lines(&mut out, &extra);
    let ghost expected = host_block_lines(
        alias@,
        hostname@,
        username@,
        port,
        match identity_file { Some(k) => Some(k@), None => None },
        match proxy_jump { Some(p) => Some(p@), None => None },
        extra_options@,
    );
    assert(out.deep_view() =~= expected);
    string_of(&join_chars(&out, &chars_of("\n")))
}

/// The private key file of the key named `name`, when one is named and filed.
pub open spec fn key_path(keys: Map<Seq<char>, SSHKeyView>, name: Option<Seq<char>>) -> Option<Seq<char>> {
    match name {
        Some(k) => if keys.dom().contains(k) { Some(keys[k].private_key_path) } else { None },
        None => None,
    }
}

/// The `Host` block of a jump host.
pub open spec fn jump_host_block(j: JumpHostView, keys: Map<Seq<char>, SSHKeyView>) -> Seq<char> {
    host_block(j.name, j.hostname, j.username, j.port, key_path(keys, j.key_name), None, j.extra_options)
}

/// The `Host` block of a server.
pub open spec fn server_block(s: ServerView, keys: Map<Seq<char>, SSHKeyView>) -> Seq<char> {
    host_block(s.alias, s.hostname, s.username, s.port, key_path(keys, s.key_name), s.jump_host, s.extra_options)
}

/// The blocks of the jump hosts `js`, then of the servers `ss`.
pub open spec fn host_blocks(
    js: Seq<JumpHostView>,
    ss: Seq<ServerView>,
    keys: Map<Seq<char>, SSHKeyView>,
) -> Seq<Seq<char>> {
    js.map_values(|j: JumpHostView| jump_host_block(j, keys)) + ss.map_values(|s: ServerView| server_block(s, keys))
}

/// What `generate_block` returns for `store`: the blocks of the jump hosts,
/// ascending by lower-cased name, then of the servers, ascending by
/// lower-cased alias, separated by blank lines. Names equal but for case keep
/// the store's order.
pub open spec fn generated_block(store: AppStore) -> Seq<char> {
    join(
        host_blocks(
            stably_sorted(jump_host_views(store.jump_hosts@), by_jump_name()),
            stably_sorted(server_views(store.servers@), by_alias()),
            store@.keys,
        ),
        "\n\n"@,
    )
}

/// The private key file of the key named `name`, when one is named and filed.
fn key_path_of(store: &AppStore, name: &Option<String>) -> (r: Option<String>)
    requires
        store.wf(),
    ensures
        opt_view(r) == key_path(store@.keys, opt_view(*name)),
{
    match name {
        Some(k) => {
            let ghost e = crate::store::key_views(store.keys@);
            proof { lemma_keyed_dom(e, crate::store::by_key_name(), k@); }
            let mut i: usize = 0;
            while i < store.keys.len()
                invariant
                    i <= store.keys.len(),
                    e == crate::store::key_views(store.keys@),
                    store.wf(),
                    opt_view(*name) == Some(k@),
                    forall|j: int| 0 <= j < i ==> #[trigger] store.keys@[j].name@ != k@,
                decreases store.keys.len() - i,
            {
                if store.keys[i].name == *k {
                    proof { lemma_keyed_value(e, crate::store::by_key_name(), i as int); }
                    assert(e[i as int] == store.keys@[i as int]@);
                    assert(crate::store::by_key_name()(e[i as int]) == k@);
                    return Some(store.keys[i].private_key_path.clone());
                }
                i = i + 1;
            }
            assert(!crate::keyed::has_key(e, crate::store::by_key_name(), k@)) by {
                if crate::keyed::has_key(e, crate::store::by_key_name(), k@) {
                    let j = choose|j: int| 0 <= j < e.len() && crate::store::by_key_name()(#[trigger] e[j]) == k@;
                    assert(store.keys@[j].name@ != k@);
                }
            }
            None
        },
        None => None,
    }
}

/// An optional string as an optional `&str`.
fn as_opt_str(o: &Option<String>) -> (r: Option<&str>)
    ensures
        match r { Some(s) => Some(s@), None => None::<Seq<char>> } == opt_view(*o),
{
    match o {
        Some(s) => Some(s.as_str()),
        None => None,
    }
}

/// The `Host` blocks of all jump hosts, ascending by lower-cased name, then
/// of all servers, ascending by lower-cased alias, separated by blank lines.
/// A host's `IdentityFile` is the private key file of its key when that key
/// is filed.
pub fn generate_block(store: &AppStore) -> (r: String)
    requires
        store.wf(),
    ensures
        r@ == generated_block(*store),
{
    let jump_hosts = sorted_by_name(&store.jump_hosts);
    let servers = sorted_by_name(&store.servers);
    let ghost js = jump_host_views(jump_hosts@);
    let ghost ss = server_views(servers@);
    let ghost keys = store@.keys;
    let mut blocks: Vec<Vec<char>> = Vec::new();
    let mut i: usize = 0;
    while i < jump_hosts.len()
        invariant
            i <= jump_hosts.len(),
            store.wf(),
            js == jump_host_views(jump_hosts@),
            keys == store@.keys,
            blocks.deep_view() =~= js.take(i as int).map_values(|j: JumpHostView| jump_host_block(j, keys)),
        decreases jump_hosts.len() - i,
    {
        let jh = &jump_hosts[i];
        let key = key_path_of(store, &jh.key_name);
        let b = render_host_block(
            jh.name.as_str(),
            jh.hostname.as_str(),
            jh.username.as_str(),
            jh.port,
            as_opt_str(&key),
            None,
            jh.extra_options.as_str(),
        );
        push_line(&mut blocks, chars_of(b.as_str()));
        assert(js[i as int] == jh@);
        i = i + 1;
    }
    assert(js.take(i as int) =~= js);
    let ghost jblocks = blocks.deep_view();
    let mut i: usize = 0;
    while i < servers.len()
        invariant
            i <= servers.len(),
            store.wf(),
            ss == server_views(servers@),
            keys == store@.keys,
            blocks.deep_view() =~= jblocks + ss.take(i as int).map_values(|s: ServerView| server_block(s, keys)),
        decreases servers.len() - i,
    {
        let sv = &servers[i];
        let key = key_path_of(store, &sv.key_name);
        let b = render_host_block(
            sv.alias.as_str(),
            sv.hostname.as_str(),
            sv.username.as_str(),
            sv.port,
            as_opt_str(&key),
            as_opt_str(&sv.jump_host),
            sv.extra_options.as_str(),
        );
        push_line(&mut blocks, chars_of(b.as_str()));
        assert(ss[i as int] == sv@);
        i = i + 1;
    }
    assert(ss.take(i as int) =~= ss);
    assert(blocks.deep_view() =~= host_blocks(js, ss, keys));
    string_of(&join_chars(&blocks, &chars_of("\n\n")))
}

/// The names under which the config files hosts: the jump hosts' names,
/// then the servers' aliases, in the store's order.
pub open spec fn host_names(store: AppStore) -> Seq<Seq<char>> {
    jump_host_views(store.jump_hosts@).map_values(|j: JumpHostView| j.name)
        + server_views(store.servers@).map_values(|s: ServerView| s.alias)
}

/// The first name of `names` that repeats an earlier one, if any.
pub open spec fn first_duplicate(names: Seq<Seq<char>>) -> Option<Seq<char>>
    decreases names.len(),
{
    if names.len() == 0 {
        None
    } else {
        match first_duplicate(names.drop_last()) {
            Some(d) => Some(d),
            None => if names.drop_last().contains(names.last()) { Some(names.last()) } else { None },
        }
    }
}

/// The characters of a list of strings.
pub open spec fn string_views(v: Seq<String>) -> Seq<Seq<char>> {
    v.map_values(|x: String| x@)
}

/// Whether `s` is one of `v`.
pub fn contains_string(v: &Vec<String>, s: &String) -> (r: bool)
    ensures
        r == string_views(v@).contains(s@),
{
    let mut i: usize = 0;
    while i < v.len()
        invariant
            i <= v.len(),
            forall|j: int| 0 <= j < i ==> #[trigger] v@[j]@ != s@,
        decreases v.len() - i,
    {
        if v[i] == *s {
            assert(string_views(v@)[i as int] == s@);
            return true;
        }
        i = i + 1;
    }
    assert(!string_views(v@).contains(s@)) by {
        if string_views(v@).contains(s@) {
            let j = choose|j: int| 0 <= j < string_views(v@).len() && string_views(v@)[j] == s@;
            assert(v@[j]@ != s@);
        }
    }
    false
}

/// Checks one more name against those already seen; records it.
fn note_name(seen: &mut Vec<String>, name: &String, Ghost(names): Ghost<Seq<Seq<char>>>) -> (dup: bool)
    requires
        string_views(old(seen)@) == names,
        first_duplicate(names) is None,
    ensures
        string_views(final(seen)@) == names.push(name@),
        dup == (first_duplicate(names.push(name@)) is Some),
        dup ==> first_duplicate(names.push(name@)) == Some(name@),
{
    let found = contains_string(seen, name);
    let ghost before = string_views(seen@);
    seen.push(name.clone());
    assert(string_views(seen@) =~= before.push(name@));
    assert(names.push(name@).drop_last() == names);
    found
}

/// Fails when two hosts, jump hosts and servers together, share a name,
/// naming the first name that repeats an earlier one.
pub fn check_duplicate_aliases(store: &AppStore) -> (r: Result<(), SSHConfigError>)
    ensures
        match first_duplicate(host_names(*store)) {
            None => r is Ok,
            Some(d) => r matches Err(SSHConfigError::Validation(m))
                && m@ == "Duplicate Host alias detected: '"@ + d + "'"@,
        },
{
    let ghost names = host_names(*store);
    let ghost jn = jump_host_views(store.jump_hosts@).map_values(|j: JumpHostView| j.name);
    let ghost sn = server_views(store.servers@).map_values(|s: ServerView| s.alias);
    let mut seen: Vec<String> = Vec::new();
    assert(string_views(seen@) =~= jn.take(0));
    assert(names =~= jn + sn);
    let mut i: usize = 0;
    while i < store.jump_hosts.len()
        invariant
            i <= store.jump_hosts.len(),
            jn == jump_host_views(store.jump_hosts@).map_values(|j: JumpHostView| j.name),
            sn == server_views(store.servers@).map_values(|s: ServerView| s.alias),
            names == jn + sn,
            string_views(seen@) == jn.take(i as int),
            first_duplicate(jn.take(i as int)) is None,
        decreases store.jump_hosts.len() - i,
    {
        let name = &store.jump_hosts[i].name;
        assert(jn.take(i + 1) =~= jn.take(i as int).push(name@));
        if note_name(&mut seen, name, Ghost(jn.take(i as int))) {
            assert(names.take(i + 1) =~= jn.take(i + 1));
            proof { lemma_first_duplicate_prefix(names, i + 1); }
            return Err(SSHConfigError::Validation(crate::store::framed("Duplicate Host alias detected: '", name.as_str(), "'")));
        }
        i = i + 1;
    }
    assert(jn.take(i as int) =~= jn);
    let mut i: usize = 0;
    while i < store.servers.len()
        invariant
            i <= store.servers.len(),
            jn == jump_host_views(store.jump_hosts@).map_values(|j: JumpHostView| j.name),
            sn == server_views(store.servers@).map_values(|s: ServerView| s.alias),
            names == jn + sn,
            string_views(seen@) == jn + sn.take(i as int),
            first_duplicate(jn + sn.take(i as int)) is None,
        decreases store.servers.len() - i,
    {
        let name = &store.servers[i].alias;
        assert(jn + sn.take(i + 1) =~= (jn + sn.take(i as int)).push(name@));
        if note_name(&mut seen, name, Ghost(jn + sn.take(i as int))) {
            assert(names.take(jn.len() + i + 1) =~= jn + sn.take(i + 1));
            proof { lemma_first_duplicate_prefix(names, jn.len() + i + 1); }
            return Err(SSHConfigError::Validation(crate::store::framed("Duplicate Host alias detected: '", name.as_str(), "'")));
        }
        i = i + 1;
    }
    assert(jn + sn.take(i as int) =~= names);
    Ok(())
}

/// A duplicate found in a prefix is the first duplicate of the whole.
proof fn lemma_first_duplicate_prefix(names: Seq<Seq<char>>, k: int)
    requires
        0 <= k <= names.len(),
        first_duplicate(names.take(k)) is Some,
    ensures
        first_duplicate(names) == first_duplicate(names.take(k)),
    decreases names.len() - k,
{
    if k < names.len() {
        assert(names.take(k + 1).drop_last() =~= names.take(k));
        lemma_first_duplicate_prefix(names, k + 1);
    } else {
        assert(names.take(k) =~= names);
    }
}


/// `s` without its first entry; empty when `s` is.
pub open spec fn after_first<T>(s: Seq<T>) -> Seq<T> {
    if s.len() > 0 { s.skip(1) } else { s }
}

/// The aliases of `aliases` that are not among `names`, in order.
pub open spec fn unmanaged(aliases: Seq<Seq<char>>, names: Seq<Seq<char>>) -> Seq<Seq<char>>
    decreases aliases.len(),
{
    if aliases.len() == 0 {
        seq![]
    } else {
        unmanaged(aliases.drop_last(), names) + (if names.contains(aliases.last()) {
            seq![]
        } else {
            seq![aliases.last()]
        })
    }
}

/// One line of a hand-written config, with the hosts named in `names`
/// taken out: what the line becomes, if it stays, and whether the lines that
/// follow belong to a dropped `Host` block. `skip` says whether this line
/// follows one.
///
/// A `Match` line ends any dropped block and stays. A `Host` line keeps its
/// leading whitespace and keyword followed by its unmanaged aliases, or, when
/// all of its aliases are managed, is dropped with the block it opens. Other
/// lines stay unless they are in a dropped block.
pub open spec fn strip_line(line: Seq<char>, skip: bool, names: Seq<Seq<char>>) -> (Option<Seq<char>>, bool) {
    let stripped = trim(line);
    let lower = lowercase(stripped);
    if starts_with(lower, "match "@) {
        (Some(line), false)
    } else if starts_with(lower, "host "@) {
        let parts = words(stripped);
        let keep = unmanaged(after_first(parts), names);
        if keep.len() == 0 {
            (None, true)
        } else {
            let prefix = line.take(line.len() - trim_start(line).len() + parts[0].len());
            (Some(prefix + " "@ + join(keep, " "@)), false)
        }
    } else {
        (if skip { None } else { Some(line) }, skip)
    }
}

/// The lines that stay of `ls`, and whether the last of them ends in a
/// dropped block.
pub open spec fn strip_lines(ls: Seq<Seq<char>>, names: Seq<Seq<char>>) -> (Seq<Seq<char>>, bool)
    decreases ls.len(),
{
    if ls.len() == 0 {
        (seq![], false)
    } else {
        let (kept, skip) = strip_lines(ls.drop_last(), names);
        let (line, skip2) = strip_line(ls.last(), skip, names);
        (kept + match line { Some(l) => seq![l], None => seq![] }, skip2)
    }
}

/// `text` without the hosts named in `names`: the lines that stay, joined
/// by newlines, with every run of three or more newlines cut to two.
pub open spec fn stripped_text(text: Seq<char>, names: Seq<Seq<char>>) -> Seq<char> {
    newline_runs_replaced(join(strip_lines(lines(text), names).0, "\n"@), "\n\n"@)
}

/// The names of all hosts of the store, as strings.
fn host_name_strings(store: &AppStore) -> (r: Vec<String>)
    ensures
        string_views(r@) == host_names(*store),
{
    let mut r: Vec<String> = Vec::new();
    let ghost jn = jump_host_views(store.jump_hosts@).map_values(|j: JumpHostView| j.name);
    let ghost sn = server_views(store.servers@).map_values(|s: ServerView| s.alias);
    let mut i: usize = 0;
    while i < store.jump_hosts.len()
        invariant
            i <= store.jump_hosts.len(),
            jn == jump_host_views(store.jump_hosts@).map_values(|j: JumpHostView| j.name),
            string_views(r@) =~= jn.take(i as int),
        decreases store.jump_hosts.len() - i,
    {
        let ghost before = r@;
        r.push(store.jump_hosts[i].name.clone());
        assert(string_views(r@) =~= string_views(before).push(jn[i as int]));
        assert(jn.take(i + 1) =~= jn.take(i as int).push(jn[i as int]));
        i = i + 1;
    }
    let mut i: usize = 0;
    while i < store.servers.len()
        invariant
            i <= store.servers.len(),
            jn == jump_host_views(store.jump_hosts@).map_values(|j: JumpHostView| j.name),
            sn == server_views(store.servers@).map_values(|s: ServerView| s.alias),
            string_views(r@) =~= jn + sn.take(i as int),
        decreases store.servers.len() - i,
    {
        let ghost before = r@;
        r.push(store.servers[i].alias.clone());
        assert(string_views(r@) =~= string_views(before).push(sn[i as int]));
        assert(jn + sn.take(i + 1) =~= (jn + sn.take(i as int)).push(sn[i as int]));
        i = i + 1;
    }
    assert(jn + sn.take(i as int) =~= host_names(*store));
    r
}

/// The aliases of `parts[1..]` that are not among `names`.
fn unmanaged_aliases(parts: &Vec<Vec<char>>, names: &Vec<String>) -> (r: Vec<Vec<char>>)
    ensures
        r.deep_view() == unmanaged(after_first(parts.deep_view()), string_views(names@)),
{
    let ghost a = after_first(parts.deep_view());
    let mut r: Vec<Vec<char>> = Vec::new();
    assert(a.take(0) =~= Seq::<Seq<char>>::empty());
    if parts.len() == 0 {
        assert(a =~= Seq::<Seq<char>>::empty());
        return r;
    }
    let mut i: usize = 1;
    while i < parts.len()
        invariant
            1 <= i <= parts.len(),
            a == after_first(parts.deep_view()),
            r.deep_view() == unmanaged(a.take(i - 1), string_views(names@)),
        decreases parts.len() - i,
    {
        assert(a.take(i as int).drop_last() =~= a.take(i - 1));
        assert(a.take(i as int).last() == parts@[i as int]@);
        let s = string_of(&parts[i]);
        if !contains_string(names, &s) {
            let ghost before = r.deep_view();
            push_line(&mut r, sub_chars(&parts[i], 0, parts[i].len()));
            assert(parts@[i as int]@.subrange(0, parts@[i as int]@.len() as int) =~= parts@[i as int]@);
        } else {
            assert(r.deep_view() + Seq::<Seq<char>>::empty() =~= r.deep_view());
        }
        i = i + 1;
    }
    assert(a.take(i - 1) =~= a);
    r
}

/// One line of a hand-written config with the hosts named in `names` taken
/// out (see [`strip_line`]).
fn strip_one_line(line: &Vec<char>, skip: bool, names: &Vec<String>) -> (r: (Option<Vec<char>>, bool))
    ensures
        (match r.0 { Some(l) => Some(l@), None => None::<Seq<char>> }, r.1)
            == strip_line(line@, skip, string_views(names@)),
{
    let stripped = trim_chars(line);
    let lower = chars_of(to_lowercase(string_of(&stripped).as_str()).as_str());
    if starts_with_str(&lower, "match ") {
        return (Some(sub_chars(line, 0, line.len())), false);
    }
    if starts_with_str(&lower, "host ") {
        let parts = words_of(&stripped);
        let keep = unmanaged_aliases(&parts, names);
        if keep.len() == 0 {
            return (None, true);
        }
        assert(parts.len() >= 2) by {
            if parts.len() < 2 {
                assert(after_first(parts.deep_view()).len() == 0);
            }
        }
        let lead = leading_white_len(line);
        proof {
            lemma_words_from_len(stripped@, seq![]);
            assert(parts.deep_view()[0] == parts@[0]@);
            lemma_trim_end_len(trim_start(line@));
        }
        let end = lead + parts[0].len();
        let mut out = sub_chars(line, 0, end);
        push_all(&mut out, &chars_of(" "));
        push_all(&mut out, &join_chars(&keep, &chars_of(" ")));
        return (Some(out), false);
    }
    if skip {
        (None, skip)
    } else {
        (Some(sub_chars(line, 0, line.len())), skip)
    }
}

/// `text` without the `Host` entries of the hosts that the store manages:
/// a `Host` line keeps only its unmanaged aliases, and one left with none is
/// dropped with the lines of its block, up to the next `Host` or `Match`
/// line. Runs of three or more newlines are then cut to two.
pub fn strip_managed_hosts(text: &str, store: &AppStore) -> (r: String)
    ensures
        r@ == stripped_text(text@, host_names(*store)),
{
    let names = host_name_strings(store);
    let ls = lines_of(&chars_of(text));
    let ghost dv = ls.deep_view();
    let ghost nv = string_views(names@);
    let mut out: Vec<Vec<char>> = Vec::new();
    let mut skip = false;
    let mut i: usize = 0;
    assert(dv.take(0) =~= Seq::<Seq<char>>::empty());
    while i < ls.len()
        invariant
            i <= ls.len(),
            dv == ls.deep_view(),
            nv == string_views(names@),
            strip_lines(dv.take(i as int), nv) == (out.deep_view(), skip),
        decreases ls.len() - i,
    {
        assert(dv.take(i + 1).drop_last() =~= dv.take(i as int));
        assert(dv.take(i + 1).last() == ls@[i as int]@);
        let (line, next) = strip_one_line(&ls[i], skip, &names);
        match line {
            Some(l) => {
                push_line(&mut out, l);
            },
            None => {
                assert(out.deep_view() + Seq::<Seq<char>>::empty() =~= out.deep_view());
            },
        }
        skip = next;
        i = i + 1;
    }
    assert(dv.take(i as int) =~= dv);
    let cleaned = string_of(&join_chars(&out, &chars_of("\n")));
    proof {
        reveal_strlit("\\n{3,}");
        reveal_strlit("\n\n");
        assert("\\n{3,}"@ =~= crate::patterns::newline_runs_pattern());
    }
    regex_replace_all("\\n{3,}", cleaned.as_str(), "\n\n")
}

/// The managed block around the generated host blocks `block`.
pub open spec fn managed_section(block: Seq<char>) -> Seq<char> {
    let body = if block.len() == 0 { MANAGED_HEADER@ } else { MANAGED_HEADER@ + block + "\n"@ };
    MARK_START@ + "\n"@ + body + MARK_END@
}

/// `existing` without its first managed block, from a start marker to the
/// nearest end marker after it; `existing` itself when it holds none.
pub open spec fn manual_part(existing: Seq<char>) -> Seq<char> {
    if has_span(existing, MARK_START@, MARK_END@) {
        first_span_replaced(existing, MARK_START@, MARK_END@, ""@)
    } else {
        existing
    }
}

/// The new config: the hand-written part of `existing` without the hosts
/// named in `names` and without trailing whitespace, a blank line when that
/// part is not blank, then the managed block around `block`, then a newline.
pub open spec fn merged_config(existing: Seq<char>, names: Seq<Seq<char>>, block: Seq<char>) -> Seq<char> {
    let cleaned = stripped_text(manual_part(existing), names);
    let sep = if trim(cleaned).len() == 0 { ""@ } else { "\n\n"@ };
    let t = trim_end(cleaned) + sep + managed_section(block);
    if t.len() > 0 && t.last() == '\n' { t } else { t.push('\n') }
}

/// `r` is what merging into `existing` gives for `store`: the duplicate-name
/// error, or the merged config around the block that `generate_block`
/// returns for `store`.
pub open spec fn is_merge_result(r: Result<String, SSHConfigError>, existing: Seq<char>, store: AppStore) -> bool {
    match first_duplicate(host_names(store)) {
        Some(d) => r matches Err(SSHConfigError::Validation(m))
            && m@ == "Duplicate Host alias detected: '"@ + d + "'"@,
        None => r matches Ok(t) && t@ == merged_config(existing, host_names(store), generated_block(store)),
    }
}

/// The pattern that matches the first managed block.
pub fn managed_block_pattern() -> (r: String)
    ensures
        r@ == lazy_span_pattern(MARK_START@, MARK_END@),
{
    let mut p = "(?s)".to_owned();
    p.append(regex_escape(MARK_START).as_str());
    p.append(".*?");
    p.append(regex_escape(MARK_END).as_str());
    proof {
        reveal_strlit("(?s)");
        reveal_strlit(".*?");
        assert("(?s)"@ =~= seq!['(', '?', 's', ')']);
        assert(".*?"@ =~= seq!['.', '*', '?']);
    }
    p
}

/// The managed block around `block`.
fn managed_section_text(block: &String) -> (r: String)
    ensures
        r@ == managed_section(block@),
{
    let mut body = MANAGED_HEADER.to_owned();
    if block.as_str().unicode_len() > 0 {
        body.append(block.as_str());
        body.append("\n");
    }
    let mut managed = MARK_START.to_owned();
    managed.append("\n");
    managed.append(body.as_str());
    managed.append(MARK_END);
    managed
}

/// `existing` without its first managed block.
fn manual_text_of(existing: &str) -> (r: String)
    ensures
        r@ == manual_part(existing@),
{
    let pattern = managed_block_pattern();
    proof {
        reveal_strlit("");
    }
    if regex_is_match(pattern.as_str(), existing) {
        regex_replace(pattern.as_str(), existing, "")
    } else {
        existing.to_owned()
    }
}

/// `cleaned` without trailing whitespace, a blank line unless `cleaned` is
/// blank, `managed`, and a final newline unless the text already ends in one.
fn assemble(cleaned: &String, managed: &String) -> (r: String)
    ensures
        ({
            let sep = if trim(cleaned@).len() == 0 { ""@ } else { "\n\n"@ };
            let t = trim_end(cleaned@) + sep + managed@;
            r@ == if t.len() > 0 && t.last() == '\n' { t } else { t.push('\n') }
        }),
{
    let cleaned_chars = chars_of(cleaned.as_str());
    let mut new_text = trim_end_chars(&cleaned_chars);
    let blank = trim_chars(&cleaned_chars).len() == 0;
    if !blank {
        push_all(&mut new_text, &chars_of("\n\n"));
    } else {
        proof { reveal_strlit(""); }
        assert(new_text@ + ""@ =~= new_text@);
    }
    push_all(&mut new_text, &chars_of(managed.as_str()));
    if !(new_text.len() > 0 && new_text[new_text.len() - 1] == '\n') {
        new_text.push('\n');
    }
    string_of(&new_text)
}

/// The config text with the store's hosts written into the managed block:
/// fails when two hosts share a name; otherwise drops the first managed block
/// of `existing_text` and the `Host` entries of managed hosts from the rest,
/// trims its end, and appends the new managed block after a blank line
/// (none when the rest is blank), ending the text with a newline.
pub fn merge_into_full_config(existing_text: &str, store: &AppStore) -> (r: Result<String, SSHConfigError>)
    requires
        store.wf(),
    ensures
        is_merge_result(r, existing_text@, *store),
{
    let dup = check_duplicate_aliases(store);
    if let Err(e) = dup {
        return Err(e);
    }
    let block = generate_block(store);
    let managed = managed_section_text(&block);
    let manual_text = manual_text_of(existing_text);
    let cleaned_manual = strip_managed_hosts(manual_text.as_str(), store);
    let r = assemble(&cleaned_manual, &managed);
    assert(r@ == merged_config(existing_text@, host_names(*store), block@));
    Ok(r)
}

/// The position of the first whitespace character of `s`, if any.
pub open spec fn first_white(s: Seq<char>) -> Option<int>
    decreases s.len(),
{
    if s.len() == 0 {
        None
    } else if is_white_space(s[0]) {
        Some(0)
    } else {
        match first_white(s.drop_first()) {
            Some(k) => Some(k + 1),
            None => None,
        }
    }
}

/// The value of a `Port` line: what follows its first whitespace character,
/// trimmed.
pub open spec fn port_value(stripped: Seq<char>) -> Option<Seq<char>> {
    match first_white(stripped) {
        Some(k) => Some(trim(stripped.skip(k + 1))),
        None => None,
    }
}

/// The problem reported for an alias seen twice.
pub open spec fn duplicate_entry(alias: Seq<char>) -> Seq<char> {
    "Duplicate Host entry: '"@ + alias + "'"@
}

/// The problem reported for a bad port value.
pub open spec fn invalid_port(value: Seq<char>) -> Seq<char> {
    "Invalid Port value: '"@ + value + "'"@
}

/// The aliases of one `Host` line checked against those `seen` before: the
/// problems found, and the aliases seen afterwards.
pub open spec fn alias_problems(aliases: Seq<Seq<char>>, seen: Seq<Seq<char>>) -> (Seq<Seq<char>>, Seq<Seq<char>>)
    decreases aliases.len(),
{
    if aliases.len() == 0 {
        (seq![], seen)
    } else {
        let (p, s1) = alias_problems(aliases.drop_last(), seen);
        let a = aliases.last();
        if s1.contains(a) { (p.push(duplicate_entry(a)), s1) } else { (p, s1.push(a)) }
    }
}

/// The problems of one line, given the aliases `seen` on earlier `Host`
/// lines, and the aliases seen afterwards. Blank lines and comments have
/// none; a `Host` line may repeat an alias; a `Port` line may carry a value
/// that is not a port number from 1 to 65535 as `u16::from_str` reads it.
pub open spec fn line_problems(line: Seq<char>, seen: Seq<Seq<char>>) -> (Seq<Seq<char>>, Seq<Seq<char>>) {
    let stripped = trim(line);
    if stripped.len() == 0 || stripped[0] == '#' {
        (seq![], seen)
    } else {
        let parts = words(stripped);
        let (p1, s1) = if parts.len() > 0 && lowercase(parts[0]) == "host"@ {
            alias_problems(after_first(parts), seen)
        } else {
            (seq![], seen)
        };
        let p2 = if starts_with(lowercase(stripped), "port "@) {
            match port_value(stripped) {
                Some(v) => if !parses_as_u16(v) || v == "0"@ { seq![invalid_port(v)] } else { seq![] },
                None => seq![],
            }
        } else {
            seq![]
        };
        (p1 + p2, s1)
    }
}

/// The problems of the lines `ls`, and the aliases seen on their `Host` lines.
pub open spec fn lines_problems(ls: Seq<Seq<char>>) -> (Seq<Seq<char>>, Seq<Seq<char>>)
    decreases ls.len(),
{
    if ls.len() == 0 {
        (seq![], seq![])
    } else {
        let (p, seen) = lines_problems(ls.drop_last());
        let (p2, seen2) = line_problems(ls.last(), seen);
        (p + p2, seen2)
    }
}

/// The problems of a config's text, in the order of its lines.
pub open spec fn config_problems(text: Seq<char>) -> Seq<Seq<char>> {
    lines_problems(lines(text)).0
}

/// The position of the first whitespace character of `v`, if any.
fn first_white_of(v: &Vec<char>) -> (r: Option<usize>)
    ensures
        match r {
            Some(k) => k < v.len() && first_white(v@) == Some(k as int),
            None => first_white(v@) is None,
        },
{
    let mut i: usize = 0;
    assert(v@.skip(0) =~= v@);
    while i < v.len()
        invariant
            i <= v.len(),
            first_white(v@) == match first_white(v@.skip(i as int)) {
                Some(k) => Some(k + i),
                None => None,
            },
        decreases v.len() - i,
    {
        assert(v@.skip(i as int)[0] == v@[i as int]);
        assert(v@.skip(i as int).drop_first() =~= v@.skip(i + 1));
        if char_is_whitespace(v[i]) {
            return Some(i);
        }
        i = i + 1;
    }
    None
}

/// The text of a list of character lists.
fn strings_of(v: &Vec<Vec<char>>) -> (r: Vec<String>)
    ensures
        string_views(r@) == v.deep_view(),
{
    let mut r: Vec<String> = Vec::new();
    let mut i: usize = 0;
    while i < v.len()
        invariant
            i <= v.len(),
            string_views(r@) =~= v.deep_view().take(i as int),
        decreases v.len() - i,
    {
        let ghost before = r@;
        r.push(string_of(&v[i]));
        assert(string_views(r@) =~= string_views(before).push(v@[i as int]@));
        assert(v.deep_view()[i as int] =~= v@[i as int]@);
        assert(v.deep_view().take(i + 1) =~= v.deep_view().take(i as int).push(v@[i as int]@));
        i = i + 1;
    }
    assert(v.deep_view().take(i as int) =~= v.deep_view());
    r
}

/// Checks the aliases of one `Host` line against those seen before.
fn note_aliases(parts: &Vec<Vec<char>>, seen: &mut Vec<Vec<char>>, problems: &mut Vec<Vec<char>>)
    ensures
        ({
            let (p, s1) = alias_problems(after_first(parts.deep_view()), old(seen).deep_view());
            &&& final(problems).deep_view() == old(problems).deep_view() + p
            &&& final(seen).deep_view() == s1
        }),
{
    let ghost a = after_first(parts.deep_view());
    let ghost p0 = problems.deep_view();
    let ghost s0 = seen.deep_view();
    if parts.len() == 0 {
        assert(a.len() == 0);
        assert(p0 + Seq::<Seq<char>>::empty() =~= p0);
        return;
    }
    let mut i: usize = 1;
    assert(a.take(0) =~= Seq::<Seq<char>>::empty());
    assert(p0 + Seq::<Seq<char>>::empty() =~= p0);
    while i < parts.len()
        invariant
            1 <= i <= parts.len(),
            a == after_first(parts.deep_view()),
            ({
                let (p, s1) = alias_problems(a.take(i - 1), s0);
                &&& problems.deep_view() == p0 + p
                &&& seen.deep_view() == s1
            }),
        decreases parts.len() - i,
    {
        assert(a.take(i as int).drop_last() =~= a.take(i - 1));
        assert(a.take(i as int).last() == parts@[i as int]@);
        let alias = &parts[i];
        if contains_chars(seen, alias) {
            let ghost before = problems.deep_view();
            let mut m = chars_of("Duplicate Host entry: '");
            push_all(&mut m, alias);
            push_all(&mut m, &chars_of("'"));
            push_line(problems, m);
            assert(before.push(duplicate_entry(alias@)) =~= problems.deep_view());
        } else {
            push_line(seen, sub_chars(alias, 0, alias.len()));
            assert(alias@.subrange(0, alias@.len() as int) =~= alias@);
        }
        i = i + 1;
    }
    assert(a.take(i - 1) =~= a);
}

/// Whether `w` is one of `v`.
fn contains_chars(v: &Vec<Vec<char>>, w: &Vec<char>) -> (r: bool)
    ensures
        r == v.deep_view().contains(w@),
{
    let mut i: usize = 0;
    while i < v.len()
        invariant
            i <= v.len(),
            forall|j: int| 0 <= j < i ==> #[trigger] v@[j]@ != w@,
        decreases v.len() - i,
    {
        if same_chars(&v[i], w) {
            assert(v.deep_view()[i as int] == w@);
            return true;
        }
        i = i + 1;
    }
    assert(!v.deep_view().contains(w@)) by {
        if v.deep_view().contains(w@) {
            let j = choose|j: int| 0 <= j < v.deep_view().len() && v.deep_view()[j] == w@;
            assert(v.deep_view()[j] =~= v@[j]@);
            assert(v@[j]@ != w@);
        }
    }
    false
}

/// Whether `a` and `b` hold the same characters.
fn same_chars(a: &Vec<char>, b: &Vec<char>) -> (r: bool)
    ensures
        r == (a@ == b@),
{
    if a.len() != b.len() {
        return false;
    }
    let mut i: usize = 0;
    while i < a.len()
        invariant
            i <= a.len(),
            a.len() == b.len(),
            forall|k: int| 0 <= k < i ==> a@[k] == b@[k],
        decreases a.len() - i,
    {
        if a[i] != b[i] {
            return false;
        }
        i = i + 1;
    }
    assert(a@ =~= b@);
    true
}

/// The lower-case form of `v`, as characters.
fn lower_chars(v: &Vec<char>) -> (r: Vec<char>)
    ensures
        r@ == lowercase(v@),
{
    chars_of(to_lowercase(string_of(v).as_str()).as_str())
}

/// Checks one line; see [`line_problems`].
#[verifier::spinoff_prover]
fn check_line(line: &Vec<char>, seen: &mut Vec<Vec<char>>, problems: &mut Vec<Vec<char>>)
    ensures
        ({
            let (p, s1) = line_problems(line@, old(seen).deep_view());
            &&& final(problems).deep_view() == old(problems).deep_view() + p
            &&& final(seen).deep_view() == s1
        }),
{
    let ghost p0 = problems.deep_view();
    let stripped = trim_chars(line);
    if stripped.len() == 0 || stripped[0] == '#' {
        assert(p0 + Seq::<Seq<char>>::empty() =~= p0);
        return;
    }
    let parts = words_of(&stripped);
    if parts.len() > 0 && same_chars(&lower_chars(&parts[0]), &chars_of("host")) {
        assert(parts.deep_view()[0] == parts@[0]@);
        note_aliases(&parts, seen, problems);
    } else {
        assert(p0 + Seq::<Seq<char>>::empty() =~= p0);
    }
    let ghost p1 = problems.deep_view();
    if starts_with_str(&lower_chars(&stripped), "port ") {
        if let Some(k) = first_white_of(&stripped) {
            let value = trim_chars(&sub_chars(&stripped, k + 1, stripped.len()));
            assert(stripped@.subrange(k + 1, stripped@.len() as int) =~= stripped@.skip(k + 1));
            if !parses_as_u16_chars(&value) || same_chars(&value, &chars_of("0")) {
                let mut m = chars_of("Invalid Port value: '");
                push_all(&mut m, &value);
                push_all(&mut m, &chars_of("'"));
                push_line(problems, m);
                assert(p1.push(invalid_port(value@)) =~= p1 + seq![invalid_port(value@)]);
                return;
            }
        }
    }
    assert(p1 + Seq::<Seq<char>>::empty() =~= p1);
}

/// The problems of a config's text, in the order of its lines: each alias
/// repeated on a `Host` line (anywhere in the text), and each `Port` value
/// that is not a port number from 1 to 65535.
pub fn validate(text: &str) -> (r: Vec<String>)
    ensures
        string_views(r@) == config_problems(text@),
{
    let ls = lines_of(&chars_of(text));
    let ghost dv = ls.deep_view();
    let mut seen: Vec<Vec<char>> = Vec::new();
    let mut problems: Vec<Vec<char>> = Vec::new();
    let mut i: usize = 0;
    assert(dv.take(0) =~= Seq::<Seq<char>>::empty());
    while i < ls.len()
        invariant
            i <= ls.len(),
            dv == ls.deep_view(),
            lines_problems(dv.take(i as int)) == (problems.deep_view(), seen.deep_view()),
        decreases ls.len() - i,
    {
        assert(dv.take(i + 1).drop_last() =~= dv.take(i as int));
        assert(dv.take(i + 1).last() == ls@[i as int]@);
        check_line(&ls[i], &mut seen, &mut problems);
        i = i + 1;
    }
    assert(dv.take(i as int) =~= dv);
    strings_of(&problems)
}

/// `v` joined with `sep` between consecutive strings.
pub fn join_strings(v: &Vec<String>, sep: &str) -> (r: String)
    ensures
        r@ == join(string_views(v@), sep@),
{
    let mut parts: Vec<Vec<char>> = Vec::new();
    let mut i: usize = 0;
    while i < v.len()
        invariant
            i <= v.len(),
            parts.deep_view() =~= string_views(v@).take(i as int),
        decreases v.len() - i,
    {
        let ghost before = parts.deep_view();
        push_line(&mut parts, chars_of(v[i].as_str()));
        assert(string_views(v@).take(i + 1) =~= string_views(v@).take(i as int).push(v@[i as int]@));
        i = i + 1;
    }
    assert(string_views(v@).take(i as int) =~= string_views(v@));
    string_of(&join_chars(&parts, &chars_of(sep)))
}

/// `r` is what preparing the config for writing gives: the merge's error, the
/// problems of the merged config joined by `; `, or the merged config.
pub open spec fn is_write_result(r: Result<String, SSHConfigError>, existing: Seq<char>, store: AppStore) -> bool {
    match first_duplicate(host_names(store)) {
        Some(d) => r matches Err(SSHConfigError::Validation(m))
            && m@ == "Duplicate Host alias detected: '"@ + d + "'"@,
        None => {
            let t = merged_config(existing, host_names(store), generated_block(store));
            if config_problems(t).len() > 0 {
                r matches Err(SSHConfigError::Validation(m)) && m@ == join(config_problems(t), "; "@)
            } else {
                r matches Ok(x) && x@ == t
            }
        },
    }
}

/// The text that writing the config puts in the file whose current text is
/// `existing`: the merged config, refused when it has problems.
pub fn config_for_write(existing: &str, store: &AppStore) -> (r: Result<String, SSHConfigError>)
    requires
        store.wf(),
    ensures
        is_write_result(r, existing@, *store),
{
    let merged = merge_into_full_config(existing, store);
    let new_text = match merged {
        Ok(t) => t,
        Err(e) => return Err(e),
    };
    let problems = validate(new_text.as_str());
    if problems.len() > 0 {
        return Err(SSHConfigError::Validation(join_strings(&problems, "; ")));
    }
    Ok(new_text)
}

} // verus!
