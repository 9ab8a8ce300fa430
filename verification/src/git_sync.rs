//! What synchronising the store through a git repository changes in the
//! store; the repository and credential work itself is I/O around it.

use vstd::prelude::*;
use crate::models::SettingsView;
use crate::store::{AppStore, StoreView, copied_all};

verus! {

/// The credential service under which the access token is kept.
pub const SERVICE_NAME: &'static str = "ssh-bootstrap-manager";

/// The credential entry that holds the access token.
pub const TOKEN_KEY: &'static str = "github-pat";

/// The file, inside the repository, that holds the store.
pub const REPO_CONFIG_FILENAME: &'static str = "data.json";

/// The settings `s` with the repository and last sync replaced.
pub open spec fn with_sync(s: SettingsView, url: Option<Seq<char>>, last: Option<Seq<char>>) -> SettingsView {
    SettingsView { theme: s.theme, git_repo_url: url, auto_sync: s.auto_sync, last_sync_timestamp: last }
}

/// The store `st` with its settings replaced by `settings`.
pub open spec fn with_settings(st: StoreView, settings: SettingsView) -> StoreView {
    StoreView { path: st.path, servers: st.servers, jump_hosts: st.jump_hosts, keys: st.keys, settings }
}

/// Whether the store is connected to a repository: one is recorded in the
/// settings and its local clone exists (`git_dir_exists`).
pub fn is_connected(store: &AppStore, git_dir_exists: bool) -> (r: bool)
    ensures
        r == (store.settings.git_repo_url is Some && git_dir_exists),
{
    store.settings.git_repo_url.is_some() && git_dir_exists
}

/// Records that the store now synchronises with the repository at `url`.
pub fn record_connected(store: &mut AppStore, url: &str)
    ensures
        final(store)@ == with_settings(
            old(store)@,
            with_sync(old(store)@.settings, Some(url@), old(store)@.settings.last_sync_timestamp),
        ),
        final(store).servers == old(store).servers,
        final(store).jump_hosts == old(store).jump_hosts,
        final(store).keys == old(store).keys,
{
    store.settings.git_repo_url = Some(url.to_owned());
}

/// Records that the store no longer synchronises: no repository, no last sync.
pub fn record_disconnected(store: &mut AppStore)
    ensures
        final(store)@ == with_settings(old(store)@, with_sync(old(store)@.settings, None, None)),
        final(store).servers == old(store).servers,
        final(store).jump_hosts == old(store).jump_hosts,
        final(store).keys == old(store).keys,
{
    store.settings.git_repo_url = None;
    store.settings.last_sync_timestamp = None;
}

/// Records a successful push at `timestamp`.
pub fn record_pushed(store: &mut AppStore, timestamp: String)
    ensures
        final(store)@ == with_settings(
            old(store)@,
            with_sync(old(store)@.settings, old(store)@.settings.git_repo_url, Some(timestamp@)),
        ),
        final(store).servers == old(store).servers,
        final(store).jump_hosts == old(store).jump_hosts,
        final(store).keys == old(store).keys,
{
    store.settings.last_sync_timestamp = Some(timestamp);
}

/// The refspec that a push uses: the branch `head_name` onto the remote
/// branch of the same name, as a plain update, so that the remote refuses a
/// push that would drop commits it already has.
pub fn push_refspec(head_name: &str) -> (r: String)
    ensures
        r@ == head_name@ + ":"@ + head_name@,
{
    crate::store::framed(head_name, ":", head_name)
}

/// A copy of the store's tables and settings that saves to `path`: the
/// store that a push writes into the repository.
pub fn repo_copy(store: &AppStore, path: String) -> (r: AppStore)
    ensures
        r@ == (StoreView { path: path@, ..store@ }),
        crate::store::server_views(r.servers@) == crate::store::server_views(store.servers@),
        crate::store::jump_host_views(r.jump_hosts@) == crate::store::jump_host_views(store.jump_hosts@),
        crate::store::key_views(r.keys@) == crate::store::key_views(store.keys@),
        r.settings@ == store.settings@,
        store.wf() ==> r.wf(),
{
    let r = AppStore {
        path,
        servers: copied_all(&store.servers),
        jump_hosts: copied_all(&store.jump_hosts),
        keys: copied_all(&store.keys),
        settings: store.settings.clone(),
    };
    r
}

} // verus!
