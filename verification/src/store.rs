//! The store of servers, jump hosts and SSH keys, each table indexed by its
//! name, with the validation rules that guard every change.

use vstd::prelude::*;
use crate::keyed::{keyed, keys_distinct, has_key, lemma_keyed_dom, lemma_keyed_push, lemma_keyed_update, lemma_keyed_remove};
use crate::text::{trim, chars_of, trim_chars};
use crate::order::{lowercase, lex_le, lowercase_keys, sort_order, arranged_by, is_rearrangement, stable_order};
use crate::models::{Filed, SSHKey, SSHKeyView, JumpHost, JumpHostView, Server, ServerView, Settings, SettingsView};

verus! {

/// Why a store operation failed.
#[derive(Debug)]
pub enum StoreError {
    /// Reading or writing the store's file failed; the message says how.
    Io(String),
    /// The store's file could not be parsed or written as JSON.
    Serde(String),
    /// The change breaks one of the store's rules.
    Validation(String),
}

impl StoreError {
    /// The text that the error displays.
    pub fn message(&self) -> (r: String)
        ensures
            r@ == store_error_text(*self),
    {
        let (mut r, detail) = match self {
            StoreError::Io(m) => ("I/O Error: ".to_owned(), m),
            StoreError::Serde(m) => ("Serialization Error: ".to_owned(), m),
            StoreError::Validation(m) => ("Validation Error: ".to_owned(), m),
        };
        r.append(detail.as_str());
        r
    }
}

/// The text that a [`StoreError`] displays.
pub open spec fn store_error_text(e: StoreError) -> Seq<char> {
    match e {
        StoreError::Io(m) => "I/O Error: "@ + m@,
        StoreError::Serde(m) => "Serialization Error: "@ + m@,
        StoreError::Validation(m) => "Validation Error: "@ + m@,
    }
}

/// The key under which the store files records of type `T`.
pub open spec fn filed_key<T: Filed>() -> spec_fn(T::V) -> Seq<char> {
    |v: T::V| T::name_of(v)
}

/// The key under which the store files a server: its alias.
pub open spec fn by_alias() -> spec_fn(ServerView) -> Seq<char> {
    filed_key::<Server>()
}

/// The key under which the store files a jump host: its name.
pub open spec fn by_jump_name() -> spec_fn(JumpHostView) -> Seq<char> {
    filed_key::<JumpHost>()
}

/// The key under which the store files an SSH key: its name.
pub open spec fn by_key_name() -> spec_fn(SSHKeyView) -> Seq<char> {
    filed_key::<SSHKey>()
}

/// The contents of the store: each table as a map from name to record.
pub struct StoreView {
    pub path: Seq<char>,
    pub servers: Map<Seq<char>, ServerView>,
    pub jump_hosts: Map<Seq<char>, JumpHostView>,
    pub keys: Map<Seq<char>, SSHKeyView>,
    pub settings: SettingsView,
}

/// The contents of each entry of `s`.
pub open spec fn views<T: View>(s: Seq<T>) -> Seq<T::V> {
    s.map_values(|x: T| x@)
}

/// The records of a server list.
pub open spec fn server_views(s: Seq<Server>) -> Seq<ServerView> {
    views(s)
}

/// The records of a jump host list.
pub open spec fn jump_host_views(s: Seq<JumpHost>) -> Seq<JumpHostView> {
    views(s)
}

/// The records of a key list.
pub open spec fn key_views(s: Seq<SSHKey>) -> Seq<SSHKeyView> {
    views(s)
}

/// The application's data: servers, jump hosts and keys, each filed under its
/// name, and the settings. Each table holds every name at most once.
pub struct AppStore {
    pub path: String,
    pub servers: Vec<Server>,
    pub jump_hosts: Vec<JumpHost>,
    pub keys: Vec<SSHKey>,
    pub settings: Settings,
}

impl View for AppStore {
    type V = StoreView;

    open spec fn view(&self) -> StoreView {
        StoreView {
            path: self.path@,
            servers: keyed(server_views(self.servers@), by_alias()),
            jump_hosts: keyed(jump_host_views(self.jump_hosts@), by_jump_name()),
            keys: keyed(key_views(self.keys@), by_key_name()),
            settings: self.settings@,
        }
    }
}

impl AppStore {
    /// Each table files every name at most once.
    pub open spec fn wf(&self) -> bool {
        &&& keys_distinct(server_views(self.servers@), by_alias())
        &&& keys_distinct(jump_host_views(self.jump_hosts@), by_jump_name())
        &&& keys_distinct(key_views(self.keys@), by_key_name())
    }

    /// An empty store whose file is `path`.
    pub fn new(path: String) -> (r: AppStore)
        ensures
            r.wf(),
            r@.path == path@,
            r@.servers == Map::<Seq<char>, ServerView>::empty(),
            r@.jump_hosts == Map::<Seq<char>, JumpHostView>::empty(),
            r@.keys == Map::<Seq<char>, SSHKeyView>::empty(),
            r.settings@ == Settings::default_view(),
    {
        let r = AppStore {
            path,
            servers: Vec::new(),
            jump_hosts: Vec::new(),
            keys: Vec::new(),
            settings: Settings::default(),
        };
        assert(server_views(r.servers@) =~= Seq::<ServerView>::empty());
        assert(jump_host_views(r.jump_hosts@) =~= Seq::<JumpHostView>::empty());
        assert(key_views(r.keys@) =~= Seq::<SSHKeyView>::empty());
        r
    }
}

/// The position in `v` of the record filed under `name`, if any.
fn index_of<T: Filed>(v: &Vec<T>, name: &String) -> (r: Option<usize>)
    ensures
        match r {
            Some(i) => i < v.len() && T::name_of(v@[i as int]@) == name@,
            None => !has_key(views(v@), filed_key::<T>(), name@),
        },
{
    let mut i: usize = 0;
    while i < v.len()
        invariant
            i <= v.len(),
            forall|k: int| 0 <= k < i ==> T::name_of(#[trigger] v@[k]@) != name@,
        decreases v.len() - i,
    {
        if *v[i].filed_name() == *name {
            return Some(i);
        }
        i = i + 1;
    }
    proof {
        if has_key(views(v@), filed_key::<T>(), name@) {
            let k = choose|k: int| 0 <= k < views(v@).len()
                && filed_key::<T>()(#[trigger] views(v@)[k]) == name@;
            assert(T::name_of(v@[k]@) != name@);
        }
    }
    None
}

/// Whether `s` is empty once trimmed.
pub fn is_blank(s: &String) -> (r: bool)
    ensures
        r == (trim(s@).len() == 0),
{
    let v = chars_of(s.as_str());
    trim_chars(&v).len() == 0
}

/// `before + middle + after`, as a new string.
pub fn framed(before: &str, middle: &str, after: &str) -> (r: String)
    ensures
        r@ == before@ + middle@ + after@,
{
    let mut r = before.to_owned();
    r.append(middle);
    r.append(after);
    r
}

/// Why `s` cannot be filed in `st`, if it cannot: as an addition when
/// `original` is `None`, as the new state of the server filed under
/// `original` otherwise. The checks run in this order.
pub open spec fn server_problem(st: StoreView, s: ServerView, original: Option<Seq<char>>) -> Option<Seq<char>> {
    if trim(s.alias).len() == 0 {
        Some("Host Alias is required."@)
    } else if trim(s.hostname).len() == 0 {
        Some("Hostname/IP Address is required."@)
    } else if trim(s.username).len() == 0 {
        Some("Username is required."@)
    } else if s.port == 0 {
        Some("Port must be valid."@)
    } else if original != Some(s.alias) && st.servers.dom().contains(s.alias) {
        Some("A server with alias '"@ + s.alias + "' already exists."@)
    } else if s.jump_host is Some && !st.jump_hosts.dom().contains(s.jump_host->0) {
        Some("Jump Host '"@ + s.jump_host->0 + "' does not exist."@)
    } else if s.key_name is Some && !st.keys.dom().contains(s.key_name->0) {
        Some("SSH Key '"@ + s.key_name->0 + "' does not exist."@)
    } else {
        None
    }
}

/// Why `k` cannot be filed in `st`, if it cannot.
pub open spec fn key_problem(st: StoreView, k: SSHKeyView, original: Option<Seq<char>>) -> Option<Seq<char>> {
    if trim(k.name).len() == 0 {
        Some("Key Name is required."@)
    } else if trim(k.private_key_path).len() == 0 {
        Some("Private Key Path is required."@)
    } else if original != Some(k.name) && st.keys.dom().contains(k.name) {
        Some("A key with name '"@ + k.name + "' already exists."@)
    } else {
        None
    }
}

/// `r` reports the problem `p`, or success when there is none.
pub open spec fn reports(r: Result<(), StoreError>, p: Option<Seq<char>>) -> bool {
    match p {
        None => r is Ok,
        Some(m) => r matches Err(StoreError::Validation(e)) && e@ == m,
    }
}

/// The store `st` with its server table replaced by `servers`.
pub open spec fn with_servers(st: StoreView, servers: Map<Seq<char>, ServerView>) -> StoreView {
    StoreView { path: st.path, servers, jump_hosts: st.jump_hosts, keys: st.keys, settings: st.settings }
}

/// The store `st` with its key table replaced by `keys`.
pub open spec fn with_keys(st: StoreView, keys: Map<Seq<char>, SSHKeyView>) -> StoreView {
    StoreView { path: st.path, servers: st.servers, jump_hosts: st.jump_hosts, keys, settings: st.settings }
}

/// What adding `s` to `st` gives: the new store, or the validation message.
pub open spec fn add_server_result(st: StoreView, s: ServerView) -> Result<StoreView, Seq<char>> {
    match server_problem(st, s, None) {
        Some(m) => Err(m),
        None => Ok(with_servers(st, st.servers.insert(s.alias, s))),
    }
}

/// What replacing the server filed under `original` by `s` gives.
pub open spec fn update_server_result(st: StoreView, original: Seq<char>, s: ServerView) -> Result<StoreView, Seq<char>> {
    if !st.servers.dom().contains(original) {
        Err("Server '"@ + original + "' does not exist."@)
    } else {
        match server_problem(st, s, Some(original)) {
            Some(m) => Err(m),
            None => Ok(with_servers(
                st,
                (if original != s.alias { st.servers.remove(original) } else { st.servers }).insert(s.alias, s),
            )),
        }
    }
}

/// What deleting the server filed under `alias` gives.
pub open spec fn delete_server_result(st: StoreView, alias: Seq<char>) -> Result<StoreView, Seq<char>> {
    if !st.servers.dom().contains(alias) {
        Err("Server '"@ + alias + "' does not exist."@)
    } else {
        Ok(with_servers(st, st.servers.remove(alias)))
    }
}

/// What adding `k` to `st` gives.
pub open spec fn add_key_result(st: StoreView, k: SSHKeyView) -> Result<StoreView, Seq<char>> {
    match key_problem(st, k, None) {
        Some(m) => Err(m),
        None => Ok(with_keys(st, st.keys.insert(k.name, k))),
    }
}

/// What deleting the key filed under `name` gives.
pub open spec fn delete_key_result(st: StoreView, name: Seq<char>) -> Result<StoreView, Seq<char>> {
    if !st.keys.dom().contains(name) {
        Err("Key '"@ + name + "' does not exist."@)
    } else {
        Ok(with_keys(st, st.keys.remove(name)))
    }
}

/// A change of the store ended as `expected` says: `r` is `Ok` and the store
/// is the new one, or `r` carries the validation message and the store is
/// as it was.
pub open spec fn changed_as(
    r: Result<(), StoreError>,
    before: AppStore,
    after: AppStore,
    expected: Result<StoreView, Seq<char>>,
) -> bool {
    &&& after.wf()
    &&& match expected {
        Ok(st) => r is Ok && after@ == st,
        Err(m) => r matches Err(StoreError::Validation(e)) && e@ == m && after == before,
    }
}

impl AppStore {
    /// Files `s` under its alias, replacing any server filed there.
    fn put_server(&mut self, s: Server)
        requires
            old(self).wf(),
        ensures
            final(self).wf(),
            final(self)@ == with_servers(old(self)@, old(self)@.servers.insert(s@.alias, s@)),
            final(self).jump_hosts == old(self).jump_hosts,
            final(self).keys == old(self).keys,
    {
        let ghost sv = s@;
        let ghost e = server_views(self.servers@);
        match index_of(&self.servers, &s.alias) {
            Some(i) => {
                proof { lemma_keyed_update(e, by_alias(), i as int, sv); }
                self.servers.set(i, s);
                assert(server_views(self.servers@) =~= e.update(i as int, sv));
            },
            None => {
                proof { lemma_keyed_push(e, by_alias(), sv); }
                self.servers.push(s);
                assert(server_views(self.servers@) =~= e.push(sv));
            },
        }
    }

    /// Removes the server at position `i`.
    fn drop_server(&mut self, i: usize)
        requires
            old(self).wf(),
            i < old(self).servers.len(),
        ensures
            final(self).wf(),
            final(self)@ == with_servers(old(self)@, old(self)@.servers.remove(old(self).servers@[i as int].alias@)),
            final(self).jump_hosts == old(self).jump_hosts,
            final(self).keys == old(self).keys,
    {
        let ghost e = server_views(self.servers@);
        proof { lemma_keyed_remove(e, by_alias(), i as int); }
        self.servers.remove(i);
        assert(server_views(self.servers@) =~= e.remove(i as int));
    }

    /// Files `k` under its name, replacing any key filed there.
    fn put_key(&mut self, k: SSHKey)
        requires
            old(self).wf(),
        ensures
            final(self).wf(),
            final(self)@ == with_keys(old(self)@, old(self)@.keys.insert(k@.name, k@)),
            final(self).jump_hosts == old(self).jump_hosts,
            final(self).servers == old(self).servers,
    {
        let ghost kv = k@;
        let ghost e = key_views(self.keys@);
        match index_of(&self.keys, &k.name) {
            Some(i) => {
                proof { lemma_keyed_update(e, by_key_name(), i as int, kv); }
                self.keys.set(i, k);
                assert(key_views(self.keys@) =~= e.update(i as int, kv));
            },
            None => {
                proof { lemma_keyed_push(e, by_key_name(), kv); }
                self.keys.push(k);
                assert(key_views(self.keys@) =~= e.push(kv));
            },
        }
    }

    /// Removes the key at position `i`.
    fn drop_key(&mut self, i: usize)
        requires
            old(self).wf(),
            i < old(self).keys.len(),
        ensures
            final(self).wf(),
            final(self)@ == with_keys(old(self)@, old(self)@.keys.remove(old(self).keys@[i as int].name@)),
            final(self).jump_hosts == old(self).jump_hosts,
            final(self).servers == old(self).servers,
    {
        let ghost e = key_views(self.keys@);
        proof { lemma_keyed_remove(e, by_key_name(), i as int); }
        self.keys.remove(i);
        assert(key_views(self.keys@) =~= e.remove(i as int));
    }
}

impl AppStore {
    /// Whether a server is filed under `alias`.
    pub fn has_server(&self, alias: &String) -> (r: bool)
        ensures
            r == self@.servers.dom().contains(alias@),
    {
        let ghost e = server_views(self.servers@);
        proof { lemma_keyed_dom(e, by_alias(), alias@); }
        match index_of(&self.servers, alias) {
            Some(i) => {
                assert(by_alias()(e[i as int]) == alias@);
                true
            },
            None => false,
        }
    }

    /// Whether a jump host is filed under `name`.
    pub fn has_jump_host(&self, name: &String) -> (r: bool)
        ensures
            r == self@.jump_hosts.dom().contains(name@),
    {
        let ghost e = jump_host_views(self.jump_hosts@);
        proof { lemma_keyed_dom(e, by_jump_name(), name@); }
        match index_of(&self.jump_hosts, name) {
            Some(i) => {
                assert(by_jump_name()(e[i as int]) == name@);
                true
            },
            None => false,
        }
    }

    /// Whether a key is filed under `name`.
    pub fn has_key(&self, name: &String) -> (r: bool)
        ensures
            r == self@.keys.dom().contains(name@),
    {
        let ghost e = key_views(self.keys@);
        proof { lemma_keyed_dom(e, by_key_name(), name@); }
        match index_of(&self.keys, name) {
            Some(i) => {
                assert(by_key_name()(e[i as int]) == name@);
                true
            },
            None => false,
        }
    }

    /// Checks `server` against the store's rules, as an addition when
    /// `original_alias` is `None` and as the new state of the server filed
    /// under it otherwise.
    pub fn validate_server(&self, server: &Server, original_alias: Option<&str>) -> (r: Result<(), StoreError>)
        ensures
            reports(r, server_problem(self@, server@, match original_alias { Some(a) => Some(a@), None => None })),
    {
        if is_blank(&server.alias) {
            return Err(StoreError::Validation("Host Alias is required.".to_owned()));
        }
        if is_blank(&server.hostname) {
            return Err(StoreError::Validation("Hostname/IP Address is required.".to_owned()));
        }
        if is_blank(&server.username) {
            return Err(StoreError::Validation("Username is required.".to_owned()));
        }
        if server.port == 0 {
            return Err(StoreError::Validation("Port must be valid.".to_owned()));
        }
        let is_new = match original_alias {
            Some(a) => a.to_owned() != server.alias,
            None => true,
        };
        if is_new && self.has_server(&server.alias) {
            return Err(StoreError::Validation(framed("A server with alias '", server.alias.as_str(), "' already exists.")));
        }
        if let Some(jh) = &server.jump_host {
            if !self.has_jump_host(jh) {
                return Err(StoreError::Validation(framed("Jump Host '", jh.as_str(), "' does not exist.")));
            }
        }
        if let Some(k) = &server.key_name {
            if !self.has_key(k) {
                return Err(StoreError::Validation(framed("SSH Key '", k.as_str(), "' does not exist.")));
            }
        }
        Ok(())
    }

    /// Checks `key` against the store's rules.
    pub fn validate_key(&self, key: &SSHKey, original_name: Option<&str>) -> (r: Result<(), StoreError>)
        ensures
            reports(r, key_problem(self@, key@, match original_name { Some(a) => Some(a@), None => None })),
    {
        if is_blank(&key.name) {
            return Err(StoreError::Validation("Key Name is required.".to_owned()));
        }
        if is_blank(&key.private_key_path) {
            return Err(StoreError::Validation("Private Key Path is required.".to_owned()));
        }
        let is_new = match original_name {
            Some(a) => a.to_owned() != key.name,
            None => true,
        };
        if is_new && self.has_key(&key.name) {
            return Err(StoreError::Validation(framed("A key with name '", key.name.as_str(), "' already exists.")));
        }
        Ok(())
    }

    /// Adds `key` to the store. The caller persists the store afterwards.
    pub fn add_key(&mut self, key: SSHKey) -> (r: Result<(), StoreError>)
        requires
            old(self).wf(),
        ensures
            changed_as(r, *old(self), *final(self), add_key_result(old(self)@, key@)),
    {
        let v = self.validate_key(&key, None);
        if v.is_err() {
            return v;
        }
        self.put_key(key);
        Ok(())
    }

    /// Deletes the key filed under `name`. The caller persists the store afterwards.
    pub fn delete_key(&mut self, name: &str) -> (r: Result<(), StoreError>)
        requires
            old(self).wf(),
        ensures
            changed_as(r, *old(self), *final(self), delete_key_result(old(self)@, name@)),
    {
        let n = name.to_owned();
        let ghost e = key_views(self.keys@);
        proof { lemma_keyed_dom(e, by_key_name(), name@); }
        match index_of(&self.keys, &n) {
            Some(i) => {
                assert(by_key_name()(e[i as int]) == name@);
                self.drop_key(i);
                Ok(())
            },
            None => Err(StoreError::Validation(framed("Key '", name, "' does not exist."))),
        }
    }

    /// Adds `server` to the store. The caller persists the store afterwards.
    pub fn add_server(&mut self, server: Server) -> (r: Result<(), StoreError>)
        requires
            old(self).wf(),
        ensures
            changed_as(r, *old(self), *final(self), add_server_result(old(self)@, server@)),
    {
        let v = self.validate_server(&server, None);
        if v.is_err() {
            return v;
        }
        self.put_server(server);
        Ok(())
    }

    /// Replaces the server filed under `original_alias` by `server`, which may
    /// carry another alias. The caller persists the store afterwards.
    pub fn update_server(&mut self, original_alias: &str, server: Server) -> (r: Result<(), StoreError>)
        requires
            old(self).wf(),
        ensures
            changed_as(r, *old(self), *final(self), update_server_result(old(self)@, original_alias@, server@)),
    {
        let orig = original_alias.to_owned();
        let ghost e = server_views(self.servers@);
        proof { lemma_keyed_dom(e, by_alias(), original_alias@); }
        let idx = match index_of(&self.servers, &orig) {
            Some(i) => i,
            None => {
                return Err(StoreError::Validation(framed("Server '", original_alias, "' does not exist.")));
            },
        };
        assert(by_alias()(e[idx as int]) == original_alias@);
        let v = self.validate_server(&server, Some(original_alias));
        if v.is_err() {
            return v;
        }
        if orig != server.alias {
            self.drop_server(idx);
        }
        self.put_server(server);
        Ok(())
    }

    /// Deletes the server filed under `alias`. The caller persists the store afterwards.
    pub fn delete_server(&mut self, alias: &str) -> (r: Result<(), StoreError>)
        requires
            old(self).wf(),
        ensures
            changed_as(r, *old(self), *final(self), delete_server_result(old(self)@, alias@)),
    {
        let a = alias.to_owned();
        let ghost e = server_views(self.servers@);
        proof { lemma_keyed_dom(e, by_alias(), alias@); }
        match index_of(&self.servers, &a) {
            Some(i) => {
                assert(by_alias()(e[i as int]) == alias@);
                self.drop_server(i);
                Ok(())
            },
            None => Err(StoreError::Validation(framed("Server '", alias, "' does not exist."))),
        }
    }
}

/// The lower-cased `key` of each entry of `s`.
pub open spec fn lower_keys<V>(s: Seq<V>, key: spec_fn(V) -> Seq<char>) -> Seq<Seq<char>> {
    s.map_values(|x: V| lowercase(key(x)))
}

/// `s` sorted stably by the lower-cased `key` of its entries: ascending, and
/// entries whose lower-cased keys are equal in their order in `s`.
pub open spec fn stably_sorted<V>(s: Seq<V>, key: spec_fn(V) -> Seq<char>) -> Seq<V> {
    stable_order(lower_keys(s, key)).map_values(|i: usize| s[i as int])
}

/// `s` is ascending by the lower-case form of each entry's `key`.
pub open spec fn ascending_by_lower<V>(s: Seq<V>, key: spec_fn(V) -> Seq<char>) -> bool {
    forall|x: int, y: int|
        0 <= x < y < s.len() ==> lex_le(lowercase(key(#[trigger] s[x])), lowercase(key(#[trigger] s[y])))
}

/// A copy of `v` ascending by the lower-case form of the name under which each
/// record is filed.
pub fn sorted_by_name<T: Filed>(v: &Vec<T>) -> (r: Vec<T>)
    ensures
        views(r@) == stably_sorted(views(v@), filed_key::<T>()),
        is_rearrangement(views(r@), views(v@)),
        ascending_by_lower(views(r@), filed_key::<T>()),
{
    let mut names: Vec<&str> = Vec::new();
    let mut i: usize = 0;
    while i < v.len()
        invariant
            i <= v.len(),
            names.len() == i,
            forall|k: int| 0 <= k < i ==> #[trigger] names@[k]@ == T::name_of(v@[k]@),
        decreases v.len() - i,
    {
        names.push(v[i].filed_name().as_str());
        i = i + 1;
    }
    let keys = lowercase_keys(&names);
    let order = sort_order(&keys);
    let mut r: Vec<T> = Vec::new();
    let mut k: usize = 0;
    while k < order.len()
        invariant
            k <= order.len(),
            order.len() == v.len(),
            keys.len() == v.len(),
            forall|j: int| 0 <= j < order.len() ==> #[trigger] order@[j] < v.len(),
            r.len() == k,
            forall|j: int| 0 <= j < k ==> #[trigger] r@[j]@ == v@[order@[j] as int]@,
        decreases order.len() - k,
    {
        r.push(v[order[k]].copied());
        k = k + 1;
    }
    assert(arranged_by(views(r@), views(v@), order@));
    assert(keys.deep_view() =~= lower_keys(views(v@), filed_key::<T>())) by {
        assert forall|j: int| 0 <= j < keys.len() implies #[trigger] keys.deep_view()[j] == lower_keys(views(v@), filed_key::<T>())[j] by {
            assert(keys.deep_view()[j] =~= keys@[j]@);
        }
    }
    assert(views(r@) =~= stably_sorted(views(v@), filed_key::<T>()));
    assert forall|x: int, y: int| 0 <= x < y < r.len() implies lex_le(
        lowercase(filed_key::<T>()(#[trigger] views(r@)[x])),
        lowercase(filed_key::<T>()(#[trigger] views(r@)[y])),
    ) by {
        assert(lex_le(keys@[order@[x] as int]@, keys@[order@[y] as int]@));
    }
    r
}

/// A copy of each record of `v`, in the same order.
pub fn copied_all<T: Filed>(v: &Vec<T>) -> (r: Vec<T>)
    ensures
        views(r@) == views(v@),
{
    let mut r: Vec<T> = Vec::new();
    let mut i: usize = 0;
    while i < v.len()
        invariant
            i <= v.len(),
            r.len() == i,
            forall|k: int| 0 <= k < i ==> #[trigger] r@[k]@ == v@[k]@,
        decreases v.len() - i,
    {
        r.push(v[i].copied());
        i = i + 1;
    }
    assert(views(r@) =~= views(v@));
    r
}

/// The record that the store's file holds: each table as a list, and the settings.
pub struct StoreData {
    pub servers: Vec<Server>,
    pub jump_hosts: Vec<JumpHost>,
    pub keys: Vec<SSHKey>,
    pub settings: Settings,
}

impl AppStore {
    /// All servers, ascending by lower-cased alias.
    pub fn list_servers(&self) -> (r: Vec<Server>)
        ensures
            server_views(r@) == stably_sorted(server_views(self.servers@), by_alias()),
            is_rearrangement(server_views(r@), server_views(self.servers@)),
            ascending_by_lower(server_views(r@), by_alias()),
    {
        sorted_by_name(&self.servers)
    }

    /// All keys, ascending by lower-cased name.
    pub fn list_keys(&self) -> (r: Vec<SSHKey>)
        ensures
            key_views(r@) == stably_sorted(key_views(self.keys@), by_key_name()),
            is_rearrangement(key_views(r@), key_views(self.keys@)),
            ascending_by_lower(key_views(r@), by_key_name()),
    {
        sorted_by_name(&self.keys)
    }

    /// Replaces the tables and settings by those that `data` holds; a later
    /// entry replaces an earlier one with the same name. The path stays.
    pub fn load(&mut self, data: StoreData)
        ensures
            final(self).wf(),
            final(self)@ == (StoreView {
                path: old(self)@.path,
                servers: keyed(server_views(data.servers@), by_alias()),
                jump_hosts: keyed(jump_host_views(data.jump_hosts@), by_jump_name()),
                keys: keyed(key_views(data.keys@), by_key_name()),
                settings: data.settings@,
            }),
    {
        self.servers = Vec::new();
        self.jump_hosts = Vec::new();
        self.keys = Vec::new();
        assert(server_views(self.servers@) =~= Seq::<ServerView>::empty());
        assert(jump_host_views(self.jump_hosts@) =~= Seq::<JumpHostView>::empty());
        assert(key_views(self.keys@) =~= Seq::<SSHKeyView>::empty());
        let ghost sv = server_views(data.servers@);
        let ghost jv = jump_host_views(data.jump_hosts@);
        let ghost kv = key_views(data.keys@);
        assert(sv.take(0) =~= Seq::<ServerView>::empty());
        assert(jv.take(0) =~= Seq::<JumpHostView>::empty());
        assert(kv.take(0) =~= Seq::<SSHKeyView>::empty());
        let mut i: usize = 0;
        while i < data.servers.len()
            invariant
                i <= data.servers.len(),
                sv == server_views(data.servers@),
                self.wf(),
                self@.servers == keyed(sv.take(i as int), by_alias()),
                self.jump_hosts@.len() == 0,
                self.keys@.len() == 0,
                self@.path == old(self)@.path,
            decreases data.servers.len() - i,
        {
            let s = data.servers[i].clone();
            self.put_server(s);
            assert(sv.take(i + 1).drop_last() =~= sv.take(i as int));
            i = i + 1;
        }
        assert(sv.take(i as int) =~= sv);
        let mut i: usize = 0;
        while i < data.jump_hosts.len()
            invariant
                i <= data.jump_hosts.len(),
                sv == server_views(data.servers@),
                jv == jump_host_views(data.jump_hosts@),
                self.wf(),
                self@.servers == keyed(sv, by_alias()),
                self@.jump_hosts == keyed(jv.take(i as int), by_jump_name()),
                self.keys@.len() == 0,
                self@.path == old(self)@.path,
            decreases data.jump_hosts.len() - i,
        {
            let j = data.jump_hosts[i].clone();
            self.put_jump_host(j);
            assert(jv.take(i + 1).drop_last() =~= jv.take(i as int));
            i = i + 1;
        }
        assert(jv.take(i as int) =~= jv);
        let mut i: usize = 0;
        while i < data.keys.len()
            invariant
                i <= data.keys.len(),
                sv == server_views(data.servers@),
                jv == jump_host_views(data.jump_hosts@),
                kv == key_views(data.keys@),
                self.wf(),
                self@.servers == keyed(sv, by_alias()),
                self@.jump_hosts == keyed(jv, by_jump_name()),
                self@.keys == keyed(kv.take(i as int), by_key_name()),
                self@.path == old(self)@.path,
            decreases data.keys.len() - i,
        {
            let k = data.keys[i].clone();
            self.put_key(k);
            assert(kv.take(i + 1).drop_last() =~= kv.take(i as int));
            i = i + 1;
        }
        assert(kv.take(i as int) =~= kv);
        self.settings = data.settings;
    }

    /// The record that saving the store writes: each table ascending by
    /// lower-cased name, and the settings.
    pub fn save(&self) -> (r: StoreData)
        ensures
            server_views(r.servers@) == stably_sorted(server_views(self.servers@), by_alias()),
            jump_host_views(r.jump_hosts@) == stably_sorted(jump_host_views(self.jump_hosts@), by_jump_name()),
            key_views(r.keys@) == stably_sorted(key_views(self.keys@), by_key_name()),
            is_rearrangement(server_views(r.servers@), server_views(self.servers@)),
            ascending_by_lower(server_views(r.servers@), by_alias()),
            is_rearrangement(jump_host_views(r.jump_hosts@), jump_host_views(self.jump_hosts@)),
            ascending_by_lower(jump_host_views(r.jump_hosts@), by_jump_name()),
            is_rearrangement(key_views(r.keys@), key_views(self.keys@)),
            ascending_by_lower(key_views(r.keys@), by_key_name()),
            r.settings@ == self.settings@,
    {
        StoreData {
            servers: sorted_by_name(&self.servers),
            jump_hosts: sorted_by_name(&self.jump_hosts),
            keys: sorted_by_name(&self.keys),
            settings: self.settings.clone(),
        }
    }

    /// Files `j` under its name, replacing any jump host filed there.
    fn put_jump_host(&mut self, j: JumpHost)
        requires
            old(self).wf(),
        ensures
            final(self).wf(),
            final(self)@.jump_hosts == old(self)@.jump_hosts.insert(j@.name, j@),
            final(self).servers == old(self).servers,
            final(self).keys == old(self).keys,
            final(self).path == old(self).path,
            final(self).settings == old(self).settings,
    {
        let ghost jv = j@;
        let ghost e = jump_host_views(self.jump_hosts@);
        match index_of(&self.jump_hosts, &j.name) {
            Some(i) => {
                proof { lemma_keyed_update(e, by_jump_name(), i as int, jv); }
                self.jump_hosts.set(i, j);
                assert(jump_host_views(self.jump_hosts@) =~= e.update(i as int, jv));
            },
            None => {
                proof { lemma_keyed_push(e, by_jump_name(), jv); }
                self.jump_hosts.push(j);
                assert(jump_host_views(self.jump_hosts@) =~= e.push(jv));
            },
        }
    }
}

/// `std::sync::Mutex`, carried as an opaque value.
#[verifier::external_type_specification]
#[verifier::external_body]
#[verifier::reject_recursive_types(T)]
pub struct ExMutex<T: ?Sized>(std::sync::Mutex<T>);

/// The store as the application shares it between its commands.
pub struct AppState(pub std::sync::Mutex<AppStore>);

impl Settings {
    /// The settings that `Settings::default` gives.
    pub open spec fn default_view() -> SettingsView {
        SettingsView { theme: "dark"@, git_repo_url: None, auto_sync: false, last_sync_timestamp: None }
    }
}

} // verus!
