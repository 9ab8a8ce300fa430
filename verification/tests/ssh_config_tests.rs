use ssh_manager::models::{JumpHost, SSHKey, Server, Settings};
use ssh_manager::ssh_config::{
    check_duplicate_aliases, config_for_write, managed_block_pattern, generate_block, merge_into_full_config,
    render_host_block, strip_managed_hosts, validate, SSHConfigError, MARK_END, MARK_START,
    MANAGED_HEADER,
};
use ssh_manager::store::{AppStore, StoreData};

fn server(alias: &str) -> Server {
    Server {
        alias: alias.to_string(),
        hostname: format!("{}.example.com", alias),
        username: "deploy".to_string(),
        port: 22,
        key_name: None,
        jump_host: None,
        extra_options: String::new(),
    }
}

fn jump(name: &str) -> JumpHost {
    JumpHost {
        name: name.to_string(),
        hostname: format!("{}.example.com", name),
        username: "ops".to_string(),
        port: 2222,
        key_name: None,
        extra_options: String::new(),
    }
}

fn store(servers: Vec<Server>, jumps: Vec<JumpHost>, keys: Vec<SSHKey>) -> AppStore {
    let mut s = AppStore::new(String::new());
    s.load(StoreData { servers, jump_hosts: jumps, keys, settings: Settings::default() });
    s
}

#[test]
fn render_full_block() {
    let b = render_host_block(
        "web",
        "10.0.0.1",
        "root",
        22,
        Some("~/.ssh/id"),
        Some("bastion"),
        "  ForwardAgent yes \n\n\tServerAliveInterval 30\r\n",
    );
    assert_eq!(
        b,
        "Host web\n    HostName 10.0.0.1\n    User root\n    Port 22\n    IdentityFile ~/.ssh/id\n    ProxyJump bastion\n    ForwardAgent yes\n    ServerAliveInterval 30"
    );
}

#[test]
fn render_minimal_block() {
    let b = render_host_block("db", "db.local", "", 65535, None, None, "");
    assert_eq!(b, "Host db\n    HostName db.local\n    Port 65535");
    let c = render_host_block("x", "y", "", 0, None, None, " \n\t\n");
    assert_eq!(c, "Host x\n    HostName y\n    Port 0");
}

#[test]
fn generate_block_orders_and_links_keys() {
    let key = SSHKey {
        name: "k".to_string(),
        private_key_path: "/keys/id".to_string(),
        public_key_path: "/keys/id.pub".to_string(),
        key_type: "rsa".to_string(),
    };
    let mut j = jump("bastion");
    j.key_name = Some("k".to_string());
    let mut w = server("web");
    w.jump_host = Some("bastion".to_string());
    let mut a = server("Api");
    a.key_name = Some("unknown".to_string());
    let s = store(vec![w, a], vec![j], vec![key]);
    assert_eq!(
        generate_block(&s),
        "Host bastion\n    HostName bastion.example.com\n    User ops\n    Port 2222\n    IdentityFile /keys/id\n\nHost Api\n    HostName Api.example.com\n    User deploy\n    Port 22\n\nHost web\n    HostName web.example.com\n    User deploy\n    Port 22\n    ProxyJump bastion"
    );
}

#[test]
fn generate_block_of_empty_store_is_empty() {
    assert_eq!(generate_block(&AppStore::new(String::new())), "");
}

#[test]
fn duplicate_alias_between_jump_host_and_server() {
    let s = store(vec![server("x")], vec![jump("x")], vec![]);
    match check_duplicate_aliases(&s) {
        Err(SSHConfigError::Validation(m)) => assert_eq!(m, "Duplicate Host alias detected: 'x'"),
        other => panic!("unexpected {:?}", other),
    }
    let t = store(vec![server("x")], vec![jump("y")], vec![]);
    assert!(check_duplicate_aliases(&t).is_ok());
    match merge_into_full_config("", &s) {
        Err(SSHConfigError::Validation(m)) => assert_eq!(m, "Duplicate Host alias detected: 'x'"),
        other => panic!("unexpected {:?}", other),
    }
}

#[test]
fn strip_removes_managed_hosts() {
    let s = store(vec![server("web")], vec![], vec![]);
    let text = "Host web other\n  User x\nHost web\n  Port 1\nMatch host foo\n  User y\nHost keep\n  User z\n";
    assert_eq!(
        strip_managed_hosts(text, &s),
        "Host other\n  User x\nMatch host foo\n  User y\nHost keep\n  User z"
    );
    assert_eq!(strip_managed_hosts("   HOST  web  a\tb\n", &s), "   HOST a b");
}

#[test]
fn strip_cuts_blank_runs() {
    let s = AppStore::new(String::new());
    assert_eq!(strip_managed_hosts("a\n\n\n\nb\n\n\nc\n\nd", &s), "a\n\nb\n\nc\n\nd");
    assert_eq!(strip_managed_hosts("x\r\ny", &s), "x\ny");
}

#[test]
fn merge_replaces_old_block_and_managed_hosts() {
    let s = store(vec![server("web")], vec![], vec![]);
    let existing = format!(
        "Host web\n  User old\n\n{}\nold stuff\n{}\nHost other\n  User me\n",
        MARK_START, MARK_END
    );
    let merged = merge_into_full_config(&existing, &s).unwrap();
    let expected = format!(
        "Host other\n  User me\n\n{}\n{}Host web\n    HostName web.example.com\n    User deploy\n    Port 22\n{}\n",
        MARK_START, MANAGED_HEADER, MARK_END
    );
    assert_eq!(merged, expected);
}

#[test]
fn merge_into_empty_text_with_empty_store() {
    let merged = merge_into_full_config("", &AppStore::new(String::new())).unwrap();
    assert_eq!(merged, format!("{}\n{}{}\n", MARK_START, MANAGED_HEADER, MARK_END));
    assert_eq!(
        MANAGED_HEADER,
        "# This block is auto-generated by SSH Bootstrap Manager.\n# Do not edit by hand - manage servers and jump hosts from the app;\n# manual changes here will be overwritten on the next save.\n"
    );
}

#[test]
fn merging_twice_gives_the_same_text() {
    let s = store(vec![server("web"), server("db")], vec![jump("gw")], vec![]);
    let first = merge_into_full_config("Host mine\n  User me\n\n\n", &s).unwrap();
    let second = merge_into_full_config(&first, &s).unwrap();
    assert_eq!(first, second);
}

#[test]
fn validate_reports_problems_in_order() {
    let text = "Host a b\nHost b\nPort 0\n  port   +22  \nPort abc\n# Port 0\nPort 70000\nHOST a\nPort 00\nPort";
    assert_eq!(
        validate(text),
        vec![
            "Duplicate Host entry: 'b'",
            "Invalid Port value: '0'",
            "Invalid Port value: 'abc'",
            "Invalid Port value: '70000'",
            "Duplicate Host entry: 'a'",
        ]
    );
    assert!(validate("").is_empty());
    assert!(validate("Port 65535\nPort 1").is_empty());
}

#[test]
fn config_for_write_refuses_bad_ports() {
    let mut w = server("web");
    w.extra_options = "Port 0\nCompression yes".to_string();
    let s = store(vec![w], vec![], vec![]);
    match config_for_write("", &s) {
        Err(SSHConfigError::Validation(m)) => assert_eq!(m, "Invalid Port value: '0'"),
        other => panic!("unexpected {:?}", other),
    }
    let t = store(vec![server("ok")], vec![], vec![]);
    let text = config_for_write("Host a\nHost a\nPort x\n", &t);
    match text {
        Err(SSHConfigError::Validation(m)) => {
            assert_eq!(m, "Duplicate Host entry: 'a'; Invalid Port value: 'x'")
        }
        other => panic!("unexpected {:?}", other),
    }
    let good = config_for_write("", &t).unwrap();
    assert_eq!(good, merge_into_full_config("", &t).unwrap());
}

#[test]
fn config_error_messages() {
    assert_eq!(SSHConfigError::Validation("v".to_string()).message(), "Validation Error: v");
    assert_eq!(SSHConfigError::Io("e".to_string()).message(), "I/O Error: e");
}

#[test]
fn managed_block_pattern_escapes_markers() {
    assert_eq!(
        managed_block_pattern(),
        "(?s)\\# >>> ssh\\-bootstrap\\-manager managed block >>>.*?\\# <<< ssh\\-bootstrap\\-manager managed block <<<"
    );
}

#[test]
fn merge_removes_only_the_first_block() {
    let s = AppStore::new(String::new());
    let existing = format!("a\n{}\nx\n{}\nb\n{}\ny\n{}\nc", MARK_START, MARK_END, MARK_START, MARK_END);
    let merged = merge_into_full_config(&existing, &s).unwrap();
    let expected = format!(
        "a\n\nb\n{}\ny\n{}\nc\n\n{}\n{}{}\n",
        MARK_START, MARK_END, MARK_START, MANAGED_HEADER, MARK_END
    );
    assert_eq!(merged, expected);
}

#[test]
fn block_does_not_depend_on_store_order() {
    let a = store(vec![server("web"), server("api"), server("Db")], vec![jump("gw"), jump("Bastion")], vec![]);
    let b = store(vec![server("Db"), server("web"), server("api")], vec![jump("Bastion"), jump("gw")], vec![]);
    assert_eq!(generate_block(&a), generate_block(&b));
    assert_eq!(merge_into_full_config("x\n", &a).unwrap(), merge_into_full_config("x\n", &b).unwrap());
}

#[test]
fn block_does_not_depend_on_key_order_or_case() {
    let key = |name: &str, path: &str| SSHKey {
        name: name.to_string(),
        private_key_path: path.to_string(),
        public_key_path: format!("{}.pub", path),
        key_type: "ed25519".to_string(),
    };
    let mut web = server("web");
    web.key_name = Some("Main".to_string());
    let a = store(vec![web.clone()], vec![], vec![key("main", "/k/lower"), key("Main", "/k/upper")]);
    let b = store(vec![web], vec![], vec![key("Main", "/k/upper"), key("main", "/k/lower")]);
    assert_eq!(generate_block(&a), generate_block(&b));
    assert!(generate_block(&a).contains("IdentityFile /k/upper"));
}

#[test]
fn names_equal_but_for_case_keep_store_order() {
    let s = store(vec![server("web"), server("WEB")], vec![], vec![]);
    let block = generate_block(&s);
    assert!(block.find("Host web").unwrap() < block.find("Host WEB").unwrap());
    let t = store(vec![server("WEB"), server("web")], vec![], vec![]);
    let block2 = generate_block(&t);
    assert!(block2.find("Host WEB").unwrap() < block2.find("Host web").unwrap());
}

#[test]
fn write_text_is_the_merge_text() {
    let s = store(vec![server("web"), server("WEB")], vec![jump("gw")], vec![]);
    let merged = merge_into_full_config("Host mine\n", &s).unwrap();
    assert_eq!(config_for_write("Host mine\n", &s).unwrap(), merged);
    let expected = format!("Host mine\n\n{}\n{}{}\n{}\n", MARK_START, MANAGED_HEADER, generate_block(&s), MARK_END);
    assert_eq!(merged, expected);
}

#[test]
fn stripping_without_hosts_keeps_lines() {
    let s = AppStore::new(String::new());
    let text = "Host a b\n  User x\r\n\n\n\nMatch all\n  Port 2\n";
    assert_eq!(strip_managed_hosts(text, &s), "Host a b\n  User x\n\nMatch all\n  Port 2");
}

#[test]
fn merging_a_merged_config_again_changes_nothing() {
    let s = store(vec![server("web"), server("api")], vec![jump("gw")], vec![]);
    let existing = "Host   mine   web  other\n  User me\n\n\n\nHost api\n  Port 1\nMatch all\n   \n";
    let once = merge_into_full_config(existing, &s).unwrap();
    let twice = merge_into_full_config(&once, &s).unwrap();
    assert_eq!(twice, once);
    let empty_once = merge_into_full_config("", &s).unwrap();
    assert_eq!(merge_into_full_config(&empty_once, &s).unwrap(), empty_once);
}

#[test]
fn stripping_twice_keeps_what_the_first_pass_kept() {
    let s = store(vec![server("web")], vec![], vec![]);
    let once = strip_managed_hosts("  Host web   a\tb\n  User x\nHost web\n  User y\n", &s);
    assert_eq!(once, "  Host a b\n  User x");
    assert_eq!(strip_managed_hosts(&once, &s), once);
}
