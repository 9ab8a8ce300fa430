//! The records that the manager keeps: SSH keys, jump hosts, servers and
//! application settings, each with its view over `Seq<char>`.

use vstd::prelude::*;

verus! {

/// An SSH key pair known to the manager.
#[derive(Debug, PartialEq, Eq)]
pub struct SSHKey {
    pub name: String,
    pub private_key_path: String,
    pub public_key_path: String,
    pub key_type: String,
}

/// The contents of an [`SSHKey`].
pub struct SSHKeyView {
    pub name: Seq<char>,
    pub private_key_path: Seq<char>,
    pub public_key_path: Seq<char>,
    pub key_type: Seq<char>,
}

impl View for SSHKey {
    type V = SSHKeyView;

    open spec fn view(&self) -> SSHKeyView {
        SSHKeyView {
            name: self.name@,
            private_key_path: self.private_key_path@,
            public_key_path: self.public_key_path@,
            key_type: self.key_type@,
        }
    }
}

impl Clone for SSHKey {
    fn clone(&self) -> (r: SSHKey)
        ensures
            r@ == self@,
    {
        SSHKey {
            name: self.name.clone(),
            private_key_path: self.private_key_path.clone(),
            public_key_path: self.public_key_path.clone(),
            key_type: self.key_type.clone(),
        }
    }
}

/// A bastion host through which servers can be reached.
#[derive(Debug, PartialEq, Eq)]
pub struct JumpHost {
    pub name: String,
    pub hostname: String,
    pub username: String,
    pub port: u16,
    pub key_name: Option<String>,
    pub extra_options: String,
}

/// The contents of a [`JumpHost`].
pub struct JumpHostView {
    pub name: Seq<char>,
    pub hostname: Seq<char>,
    pub username: Seq<char>,
    pub port: u16,
    pub key_name: Option<Seq<char>>,
    pub extra_options: Seq<char>,
}

impl View for JumpHost {
    type V = JumpHostView;

    open spec fn view(&self) -> JumpHostView {
        JumpHostView {
            name: self.name@,
            hostname: self.hostname@,
            username: self.username@,
            port: self.port,
            key_name: opt_view(self.key_name),
            extra_options: self.extra_options@,
        }
    }
}

/// The characters of an optional string.
pub open spec fn opt_view(o: Option<String>) -> Option<Seq<char>> {
    match o {
        Some(s) => Some(s@),
        None => None,
    }
}

/// A copy of an optional string.
pub fn clone_opt(o: &Option<String>) -> (r: Option<String>)
    ensures
        opt_view(r) == opt_view(*o),
{
    match o {
        Some(s) => Some(s.clone()),
        None => None,
    }
}

impl Clone for JumpHost {
    fn clone(&self) -> (r: JumpHost)
        ensures
            r@ == self@,
    {
        JumpHost {
            name: self.name.clone(),
            hostname: self.hostname.clone(),
            username: self.username.clone(),
            port: self.port,
            key_name: clone_opt(&self.key_name),
            extra_options: self.extra_options.clone(),
        }
    }
}

/// A server entry, reachable under its `Host` alias.
#[derive(Debug, PartialEq, Eq)]
pub struct Server {
    pub alias: String,
    pub hostname: String,
    pub username: String,
    pub port: u16,
    pub key_name: Option<String>,
    pub jump_host: Option<String>,
    pub extra_options: String,
}

/// The contents of a [`Server`].
pub struct ServerView {
    pub alias: Seq<char>,
    pub hostname: Seq<char>,
    pub username: Seq<char>,
    pub port: u16,
    pub key_name: Option<Seq<char>>,
    pub jump_host: Option<Seq<char>>,
    pub extra_options: Seq<char>,
}

impl View for Server {
    type V = ServerView;

    open spec fn view(&self) -> ServerView {
        ServerView {
            alias: self.alias@,
            hostname: self.hostname@,
            username: self.username@,
            port: self.port,
            key_name: opt_view(self.key_name),
            jump_host: opt_view(self.jump_host),
            extra_options: self.extra_options@,
        }
    }
}

impl Clone for Server {
    fn clone(&self) -> (r: Server)
        ensures
            r@ == self@,
    {
        Server {
            alias: self.alias.clone(),
            hostname: self.hostname.clone(),
            username: self.username.clone(),
            port: self.port,
            key_name: clone_opt(&self.key_name),
            jump_host: clone_opt(&self.jump_host),
            extra_options: self.extra_options.clone(),
        }
    }
}

/// Application settings.
#[derive(Debug)]
pub struct Settings {
    pub theme: String,
    pub git_repo_url: Option<String>,
    pub auto_sync: bool,
    pub last_sync_timestamp: Option<String>,
}

/// The contents of [`Settings`].
pub struct SettingsView {
    pub theme: Seq<char>,
    pub git_repo_url: Option<Seq<char>>,
    pub auto_sync: bool,
    pub last_sync_timestamp: Option<Seq<char>>,
}

impl View for Settings {
    type V = SettingsView;

    open spec fn view(&self) -> SettingsView {
        SettingsView {
            theme: self.theme@,
            git_repo_url: opt_view(self.git_repo_url),
            auto_sync: self.auto_sync,
            last_sync_timestamp: opt_view(self.last_sync_timestamp),
        }
    }
}

impl Clone for Settings {
    fn clone(&self) -> (r: Settings)
        ensures
            r@ == self@,
    {
        Settings {
            theme: self.theme.clone(),
            git_repo_url: clone_opt(&self.git_repo_url),
            auto_sync: self.auto_sync,
            last_sync_timestamp: clone_opt(&self.last_sync_timestamp),
        }
    }
}

impl Default for Settings {
    fn default() -> (r: Settings)
        ensures
            r@ == (SettingsView {
                theme: "dark"@,
                git_repo_url: None,
                auto_sync: false,
                last_sync_timestamp: None,
            }),
    {
        Settings {
            theme: "dark".to_owned(),
            git_repo_url: None,
            auto_sync: false,
            last_sync_timestamp: None,
        }
    }
}

/// The key type assumed when a stored key names none.
pub fn default_key_type() -> (r: String)
    ensures
        r@ == "rsa"@,
{
    "rsa".to_owned()
}

/// The SSH port assumed when a stored host names none.
pub fn default_port() -> (r: u16)
    ensures
        r == 22,
{
    22
}

/// The theme assumed when the stored settings name none.
pub fn default_theme() -> (r: String)
    ensures
        r@ == "dark"@,
{
    "dark".to_owned()
}

/// A record that the store files under a name: a server under its alias, a
/// jump host or a key under its name.
pub trait Filed: View + Sized {
    /// The name under which a record with contents `v` is filed.
    spec fn name_of(v: Self::V) -> Seq<char>;

    /// The name under which this record is filed.
    fn filed_name(&self) -> (r: &String)
        ensures
            r@ == Self::name_of(self@),
    ;

    /// A copy of this record.
    fn copied(&self) -> (r: Self)
        ensures
            r@ == self@,
    ;
}

impl Filed for SSHKey {
    open spec fn name_of(v: SSHKeyView) -> Seq<char> {
        v.name
    }

    fn filed_name(&self) -> (r: &String) {
        &self.name
    }

    fn copied(&self) -> (r: SSHKey) {
        self.clone()
    }
}

impl Filed for JumpHost {
    open spec fn name_of(v: JumpHostView) -> Seq<char> {
        v.name
    }

    fn filed_name(&self) -> (r: &String) {
        &self.name
    }

    fn copied(&self) -> (r: JumpHost) {
        self.clone()
    }
}

impl Filed for Server {
    open spec fn name_of(v: ServerView) -> Seq<char> {
        v.alias
    }

    fn filed_name(&self) -> (r: &String) {
        &self.alias
    }

    fn copied(&self) -> (r: Server) {
        self.clone()
    }
}

} // verus!
