use ssh_manager::deploy::{
    authorized_key_commands, command_outcome, connect_address, is_ssh_client, passwordless_args,
    ssh_client_candidates, DeployError,
};

#[test]
fn address_joins_host_and_port() {
    assert_eq!(connect_address("example.com", 2222), "example.com:2222");
    assert_eq!(connect_address("h", 0), "h:0");
}

#[test]
fn key_commands_trim_the_key() {
    assert_eq!(
        authorized_key_commands("  ssh-ed25519 AAAA me@host \n"),
        vec![
            "mkdir -p ~/.ssh && chmod 700 ~/.ssh".to_string(),
            "echo 'ssh-ed25519 AAAA me@host' >> ~/.ssh/authorized_keys".to_string(),
            "chmod 600 ~/.ssh/authorized_keys".to_string(),
        ]
    );
}

#[test]
fn stderr_output_fails_a_command() {
    assert!(command_outcome(String::new()).is_ok());
    match command_outcome("denied".to_string()) {
        Err(DeployError::CommandFailed(m)) => assert_eq!(m, "denied"),
        other => panic!("unexpected {:?}", other),
    }
}

#[test]
fn passwordless_arguments() {
    assert_eq!(
        passwordless_args("h", "u", 22, Some("/k")),
        vec!["-o", "StrictHostKeyChecking=no", "-o", "BatchMode=yes", "-o", "ConnectTimeout=5", "-p", "22", "-i", "/k", "u@h", "echo ok"]
    );
    assert_eq!(
        passwordless_args("h", "u", 2200, None),
        vec!["-o", "StrictHostKeyChecking=no", "-o", "BatchMode=yes", "-o", "ConnectTimeout=5", "-p", "2200", "u@h", "echo ok"]
    );
}

#[test]
fn client_candidates_and_detection() {
    assert_eq!(ssh_client_candidates(false), vec!["ssh"]);
    assert_eq!(ssh_client_candidates(true), vec!["C:\\Windows\\System32\\OpenSSH\\ssh.exe", "ssh"]);
    assert!(is_ssh_client(true, ""));
    assert!(is_ssh_client(false, "OpenSSH_9.6p1, OpenSSL 3.0"));
    assert!(!is_ssh_client(false, "command not found"));
    assert!(!is_ssh_client(false, "OpenSS"));
}

#[test]
fn deploy_error_messages() {
    assert_eq!(DeployError::AuthFailed.message(), "Authentication failed.");
    assert_eq!(DeployError::Io("x".to_string()).message(), "I/O Error: x");
    assert_eq!(DeployError::Ssh("x".to_string()).message(), "SSH Error: x");
    assert_eq!(DeployError::ConnectionFailed("x".to_string()).message(), "Connection failed: x");
    assert_eq!(DeployError::CommandFailed("x".to_string()).message(), "Command execution failed: x");
}

#[test]
fn whitespace_matches_std_for_every_char() {
    for n in 0u32..=0x10FFFF {
        if let Some(c) = char::from_u32(n) {
            assert_eq!(ssh_manager::text::char_is_whitespace(c), c.is_whitespace(), "U+{:04X}", n);
        }
    }
}

#[test]
fn regex_escape_matches_the_crate() {
    for s in ["", "plain", "# >>> a-b >>>", "\\.+*?()|[]{}^$#&-~", "é ü 中", "a\nb"] {
        assert_eq!(ssh_manager::patterns::regex_escape(s), regex::escape(s));
    }
}

#[test]
fn push_refspec_updates_same_branch_without_force() {
    let r = ssh_manager::git_sync::push_refspec("refs/heads/main");
    assert_eq!(r, "refs/heads/main:refs/heads/main");
    assert!(!r.starts_with('+'));
}
