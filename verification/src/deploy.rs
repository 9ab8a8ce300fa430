//! Deploying a public key to a server and probing passwordless login: the
//! commands and arguments sent, and how their outcome is read. The network
//! session and the process run are I/O around these.

use vstd::prelude::*;
use crate::text::{chars_of, decimal, decimal_chars, string_of, trim, trim_chars};
use crate::store::framed;
use crate::ssh_config::string_views;
use crate::patterns::{occurs_at, contains_text};

verus! {

/// Why deploying a key failed.
#[derive(Debug)]
pub enum DeployError {
    /// Reading the public key or the command's output failed.
    Io(String),
    /// The SSH session failed.
    Ssh(String),
    /// The server did not accept the password.
    AuthFailed,
    /// No connection could be made.
    ConnectionFailed(String),
    /// A command wrote to its error stream; this is what it wrote.
    CommandFailed(String),
}

/// The text that a [`DeployError`] displays.
pub open spec fn deploy_error_text(e: DeployError) -> Seq<char> {
    match e {
        DeployError::Io(m) => "I/O Error: "@ + m@,
        DeployError::Ssh(m) => "SSH Error: "@ + m@,
        DeployError::AuthFailed => "Authentication failed."@,
        DeployError::ConnectionFailed(m) => "Connection failed: "@ + m@,
        DeployError::CommandFailed(m) => "Command execution failed: "@ + m@,
    }
}

impl DeployError {
    /// The text that the error displays.
    pub fn message(&self) -> (r: String)
        ensures
            r@ == deploy_error_text(*self),
    {
        let (mut r, detail) = match self {
            DeployError::Io(m) => ("I/O Error: ".to_owned(), m.as_str()),
            DeployError::Ssh(m) => ("SSH Error: ".to_owned(), m.as_str()),
            DeployError::AuthFailed => return "Authentication failed.".to_owned(),
            DeployError::ConnectionFailed(m) => ("Connection failed: ".to_owned(), m.as_str()),
            DeployError::CommandFailed(m) => ("Command execution failed: ".to_owned(), m.as_str()),
        };
        r.append(detail);
        r
    }
}

/// The address `hostname:port` that the deployment connects to.
pub fn connect_address(hostname: &str, port: u16) -> (r: String)
    ensures
        r@ == hostname@ + ":"@ + decimal(port as nat),
{
    let p = string_of(&decimal_chars(port as u32));
    framed(hostname, ":", p.as_str())
}

/// The commands that install a public key, in order: create `~/.ssh`, append
/// the key (its text trimmed) to `authorized_keys`, restrict that file.
pub fn authorized_key_commands(public_key_text: &str) -> (r: Vec<String>)
    ensures
        string_views(r@) == seq![
            "mkdir -p ~/.ssh && chmod 700 ~/.ssh"@,
            "echo '"@ + trim(public_key_text@) + "' >> ~/.ssh/authorized_keys"@,
            "chmod 600 ~/.ssh/authorized_keys"@,
        ],
{
    let key = string_of(&trim_chars(&chars_of(public_key_text)));
    let mut r: Vec<String> = Vec::new();
    r.push("mkdir -p ~/.ssh && chmod 700 ~/.ssh".to_owned());
    r.push(framed("echo '", key.as_str(), "' >> ~/.ssh/authorized_keys"));
    r.push("chmod 600 ~/.ssh/authorized_keys".to_owned());
    assert(string_views(r@) =~= seq![
        "mkdir -p ~/.ssh && chmod 700 ~/.ssh"@,
        "echo '"@ + trim(public_key_text@) + "' >> ~/.ssh/authorized_keys"@,
        "chmod 600 ~/.ssh/authorized_keys"@,
    ]);
    r
}

/// How a deployment command ended, from what it wrote to its error stream:
/// any output there is a failure that carries it.
pub fn command_outcome(stderr: String) -> (r: Result<(), DeployError>)
    ensures
        stderr@.len() == 0 ==> r is Ok,
        stderr@.len() > 0 ==> (r matches Err(DeployError::CommandFailed(m)) && m@ == stderr@),
{
    if stderr.as_str().unicode_len() == 0 {
        Ok(())
    } else {
        Err(DeployError::CommandFailed(stderr))
    }
}

/// The arguments of the `ssh` run that probes passwordless login: no host
/// key prompt, batch mode, a five-second connect timeout, the port, the
/// identity file when given, then `user@host` and the command `echo ok`.
pub fn passwordless_args(hostname: &str, username: &str, port: u16, identity_file: Option<&str>) -> (r: Vec<String>)
    ensures
        string_views(r@) == seq![
            "-o"@, "StrictHostKeyChecking=no"@, "-o"@, "BatchMode=yes"@, "-o"@, "ConnectTimeout=5"@,
            "-p"@, decimal(port as nat),
        ] + (match identity_file { Some(f) => seq!["-i"@, f@], None => seq![] })
            + seq![username@ + "@"@ + hostname@, "echo ok"@],
{
    let mut r: Vec<String> = Vec::new();
    r.push("-o".to_owned());
    r.push("StrictHostKeyChecking=no".to_owned());
    r.push("-o".to_owned());
    r.push("BatchMode=yes".to_owned());
    r.push("-o".to_owned());
    r.push("ConnectTimeout=5".to_owned());
    r.push("-p".to_owned());
    r.push(string_of(&decimal_chars(port as u32)));
    let ghost head = string_views(r@);
    if let Some(f) = identity_file {
        r.push("-i".to_owned());
        r.push(f.to_owned());
    }
    let ghost mid = string_views(r@);
    r.push(framed(username, "@", hostname));
    r.push("echo ok".to_owned());
    assert(string_views(r@) =~= mid + seq![username@ + "@"@ + hostname@, "echo ok"@]);
    assert(mid =~= head + (match identity_file { Some(f) => seq!["-i"@, f@], None => seq![] }));
    r
}

/// The `ssh` programs tried, in order.
pub fn ssh_client_candidates(on_windows: bool) -> (r: Vec<String>)
    ensures
        on_windows ==> string_views(r@) == seq!["C:\\Windows\\System32\\OpenSSH\\ssh.exe"@, "ssh"@],
        !on_windows ==> string_views(r@) == seq!["ssh"@],
{
    let mut r: Vec<String> = Vec::new();
    if on_windows {
        r.push("C:\\Windows\\System32\\OpenSSH\\ssh.exe".to_owned());
    }
    r.push("ssh".to_owned());
    if on_windows {
        assert(string_views(r@) =~= seq!["C:\\Windows\\System32\\OpenSSH\\ssh.exe"@, "ssh"@]);
    } else {
        assert(string_views(r@) =~= seq!["ssh"@]);
    }
    r
}

/// Whether `p` occurs in `t`.
fn contains_chars_at_some(t: &Vec<char>, p: &Vec<char>) -> (r: bool)
    ensures
        r == contains_text(t@, p@),
{
    if p.len() > t.len() {
        assert forall|i: int| !occurs_at(t@, p@, i) by {}
        return false;
    }
    let mut i: usize = 0;
    while i <= t.len() - p.len()
        invariant
            p.len() <= t.len(),
            i <= t.len() - p.len() + 1,
            forall|k: int| 0 <= k < i ==> !occurs_at(t@, p@, k),
        decreases t.len() - p.len() + 1 - i,
    {
        let mut j: usize = 0;
        let mut same = true;
        while j < p.len()
            invariant
                i + p.len() <= t.len(),
                j <= p.len(),
                same == (forall|k: int| 0 <= k < j ==> t@[i + k] == p@[k]),
            decreases p.len() - j,
        {
            if t[i + j] != p[j] {
                same = false;
            }
            j = j + 1;
        }
        if same {
            assert(t@.subrange(i as int, i + p.len()) =~= p@);
            assert(occurs_at(t@, p@, i as int));
            return true;
        }
        assert(!occurs_at(t@, p@, i as int)) by {
            let k = choose|k: int| 0 <= k < p.len() && t@[i + k] != p@[k];
            assert(t@.subrange(i as int, i + p.len())[k] == t@[i + k]);
        }
        i = i + 1;
    }
    false
}

/// Whether a candidate program is an `ssh` client, from its run with `-V`:
/// it exited successfully, or its error output mentions `OpenSSH`.
pub fn is_ssh_client(success: bool, stderr: &str) -> (r: bool)
    ensures
        r == (success || contains_text(stderr@, "OpenSSH"@)),
{
    if success {
        return true;
    }
    contains_chars_at_some(&chars_of(stderr), &chars_of("OpenSSH"))
}

} // verus!
