use ssh_manager::models::{default_key_type, default_port, default_theme, JumpHost, SSHKey, Server, Settings};
use ssh_manager::store::{copied_all, sorted_by_name, AppStore, StoreData, StoreError};
use ssh_manager::git_sync::{is_connected, record_connected, record_disconnected, record_pushed, repo_copy};

fn key(name: &str, path: &str) -> SSHKey {
    SSHKey {
        name: name.to_string(),
        private_key_path: path.to_string(),
        public_key_path: format!("{}.pub", path),
        key_type: "ed25519".to_string(),
    }
}

fn server(alias: &str) -> Server {
    Server {
        alias: alias.to_string(),
        hostname: format!("{}.example.com", alias),
        username: "deploy".to_string(),
        port: 22,
        key_name: None,
        jump_host: None,
        extra_options: String::new(),
    }
}

fn jump(name: &str) -> JumpHost {
    JumpHost {
        name: name.to_string(),
        hostname: format!("{}.example.com", name),
        username: "ops".to_string(),
        port: 2222,
        key_name: None,
        extra_options: String::new(),
    }
}

fn validation(r: Result<(), StoreError>) -> String {
    match r {
        Err(StoreError::Validation(m)) => m,
        other => panic!("expected a validation error, got {:?}", other),
    }
}

fn store_with(jumps: Vec<JumpHost>, keys: Vec<SSHKey>) -> AppStore {
    let mut s = AppStore::new("/tmp/data.json".to_string());
    s.load(StoreData { servers: vec![], jump_hosts: jumps, keys, settings: Settings::default() });
    s
}

#[test]
fn defaults_are_the_documented_ones() {
    assert_eq!(default_key_type(), "rsa");
    assert_eq!(default_port(), 22);
    assert_eq!(default_theme(), "dark");
    let s = Settings::default();
    assert_eq!(s.theme, "dark");
    assert_eq!(s.git_repo_url, None);
    assert!(!s.auto_sync);
    assert_eq!(s.last_sync_timestamp, None);
}

#[test]
fn new_store_is_empty() {
    let s = AppStore::new("/x/data.json".to_string());
    assert_eq!(s.path, "/x/data.json");
    assert!(s.list_servers().is_empty());
    assert!(s.list_keys().is_empty());
}

#[test]
fn add_server_then_list() {
    let mut s = AppStore::new(String::new());
    assert!(s.add_server(server("web")).is_ok());
    let list = s.list_servers();
    assert_eq!(list, vec![server("web")]);
}

#[test]
fn add_server_rejects_blank_fields_in_order() {
    let mut s = AppStore::new(String::new());
    let mut a = server("  ");
    a.hostname = String::new();
    assert_eq!(validation(s.add_server(a)), "Host Alias is required.");
    let mut b = server("b");
    b.hostname = " \t".to_string();
    assert_eq!(validation(s.add_server(b)), "Hostname/IP Address is required.");
    let mut c = server("c");
    c.username = "\n".to_string();
    assert_eq!(validation(s.add_server(c)), "Username is required.");
    let mut d = server("d");
    d.port = 0;
    assert_eq!(validation(s.add_server(d)), "Port must be valid.");
    assert!(s.list_servers().is_empty());
}

#[test]
fn add_server_rejects_existing_alias() {
    let mut s = AppStore::new(String::new());
    s.add_server(server("web")).unwrap();
    let mut again = server("web");
    again.hostname = "other".to_string();
    assert_eq!(validation(s.add_server(again)), "A server with alias 'web' already exists.");
    assert_eq!(s.list_servers(), vec![server("web")]);
}

#[test]
fn add_server_checks_references() {
    let mut s = store_with(vec![jump("bastion")], vec![key("main", "/k/main")]);
    let mut a = server("a");
    a.jump_host = Some("nope".to_string());
    assert_eq!(validation(s.add_server(a)), "Jump Host 'nope' does not exist.");
    let mut b = server("b");
    b.key_name = Some("missing".to_string());
    assert_eq!(validation(s.add_server(b)), "SSH Key 'missing' does not exist.");
    let mut c = server("c");
    c.jump_host = Some("bastion".to_string());
    c.key_name = Some("main".to_string());
    assert!(s.add_server(c).is_ok());
}

#[test]
fn update_server_renames() {
    let mut s = AppStore::new(String::new());
    s.add_server(server("old")).unwrap();
    s.add_server(server("other")).unwrap();
    s.update_server("old", server("new")).unwrap();
    let aliases: Vec<String> = s.list_servers().into_iter().map(|x| x.alias).collect();
    assert_eq!(aliases, vec!["new", "other"]);
}

#[test]
fn update_server_keeps_alias_and_replaces_record() {
    let mut s = AppStore::new(String::new());
    s.add_server(server("web")).unwrap();
    let mut w = server("web");
    w.port = 2200;
    s.update_server("web", w.clone()).unwrap();
    assert_eq!(s.list_servers(), vec![w]);
}

#[test]
fn update_server_errors() {
    let mut s = AppStore::new(String::new());
    s.add_server(server("a")).unwrap();
    s.add_server(server("b")).unwrap();
    assert_eq!(validation(s.update_server("zzz", server("c"))), "Server 'zzz' does not exist.");
    assert_eq!(validation(s.update_server("a", server("b"))), "A server with alias 'b' already exists.");
}

#[test]
fn delete_server_and_missing() {
    let mut s = AppStore::new(String::new());
    s.add_server(server("a")).unwrap();
    assert_eq!(validation(s.delete_server("b")), "Server 'b' does not exist.");
    s.delete_server("a").unwrap();
    assert!(s.list_servers().is_empty());
}

#[test]
fn key_operations() {
    let mut s = AppStore::new(String::new());
    assert_eq!(validation(s.add_key(key(" ", "/p"))), "Key Name is required.");
    assert_eq!(validation(s.add_key(key("k", "  "))), "Private Key Path is required.");
    s.add_key(key("k", "/p")).unwrap();
    assert_eq!(validation(s.add_key(key("k", "/q"))), "A key with name 'k' already exists.");
    assert_eq!(validation(s.delete_key("x")), "Key 'x' does not exist.");
    s.delete_key("k").unwrap();
    assert!(s.list_keys().is_empty());
}

#[test]
fn validate_with_original_allows_same_name() {
    let mut s = AppStore::new(String::new());
    s.add_key(key("k", "/p")).unwrap();
    assert!(s.validate_key(&key("k", "/q"), Some("k")).is_ok());
    assert!(s.validate_key(&key("k", "/q"), None).is_err());
    s.add_server(server("web")).unwrap();
    assert!(s.validate_server(&server("web"), Some("web")).is_ok());
}

#[test]
fn lists_sort_case_insensitively() {
    let mut s = AppStore::new(String::new());
    for a in ["delta", "Bravo", "alpha", "Charlie"] {
        s.add_server(server(a)).unwrap();
    }
    let aliases: Vec<String> = s.list_servers().into_iter().map(|x| x.alias).collect();
    assert_eq!(aliases, vec!["alpha", "Bravo", "Charlie", "delta"]);
    for k in ["zed", "Able", "mid"] {
        s.add_key(key(k, "/p")).unwrap();
    }
    let names: Vec<String> = s.list_keys().into_iter().map(|x| x.name).collect();
    assert_eq!(names, vec!["Able", "mid", "zed"]);
}

#[test]
fn load_keeps_last_duplicate() {
    let mut s = AppStore::new("p".to_string());
    let mut second = server("web");
    second.port = 99;
    s.load(StoreData {
        servers: vec![server("web"), second.clone()],
        jump_hosts: vec![jump("j")],
        keys: vec![],
        settings: Settings::default(),
    });
    assert_eq!(s.list_servers(), vec![second]);
    assert_eq!(s.path, "p");
}

#[test]
fn save_then_load_round_trip() {
    let mut s = store_with(vec![jump("Zeta"), jump("alpha")], vec![key("k2", "/b"), key("K1", "/a")]);
    s.add_server(server("web")).unwrap();
    s.add_server(server("Api")).unwrap();
    s.settings.theme = "light".to_string();
    let data = s.save();
    let names: Vec<String> = data.jump_hosts.iter().map(|j| j.name.clone()).collect();
    assert_eq!(names, vec!["alpha", "Zeta"]);
    let aliases: Vec<String> = data.servers.iter().map(|x| x.alias.clone()).collect();
    assert_eq!(aliases, vec!["Api", "web"]);
    let keys: Vec<String> = data.keys.iter().map(|k| k.name.clone()).collect();
    assert_eq!(keys, vec!["K1", "k2"]);
    let mut t = AppStore::new(String::new());
    t.load(data);
    assert_eq!(t.list_servers(), s.list_servers());
    assert_eq!(t.list_keys(), s.list_keys());
    assert_eq!(t.save().jump_hosts, s.save().jump_hosts);
    assert_eq!(t.settings.theme, "light");
}

#[test]
fn delete_undoes_add() {
    let mut s = AppStore::new(String::new());
    s.add_server(server("a")).unwrap();
    let before = s.list_servers();
    s.add_server(server("b")).unwrap();
    s.delete_server("b").unwrap();
    assert_eq!(s.list_servers(), before);
    s.add_key(key("k", "/p")).unwrap();
    s.delete_key("k").unwrap();
    assert!(s.list_keys().is_empty());
}

#[test]
fn error_messages() {
    assert_eq!(StoreError::Validation("x".to_string()).message(), "Validation Error: x");
    assert_eq!(StoreError::Io("disk".to_string()).message(), "I/O Error: disk");
    assert_eq!(StoreError::Serde("bad".to_string()).message(), "Serialization Error: bad");
}

#[test]
fn git_settings_changes() {
    let mut s = AppStore::new(String::new());
    assert!(!is_connected(&s, true));
    record_connected(&mut s, "https://example.com/repo.git");
    assert_eq!(s.settings.git_repo_url.as_deref(), Some("https://example.com/repo.git"));
    assert!(is_connected(&s, true));
    assert!(!is_connected(&s, false));
    record_pushed(&mut s, "2024-01-01T00:00:00+00:00".to_string());
    assert_eq!(s.settings.last_sync_timestamp.as_deref(), Some("2024-01-01T00:00:00+00:00"));
    record_disconnected(&mut s);
    assert_eq!(s.settings.git_repo_url, None);
    assert_eq!(s.settings.last_sync_timestamp, None);
}

#[test]
fn repo_copy_keeps_records() {
    let mut s = AppStore::new("orig".to_string());
    s.add_server(server("web")).unwrap();
    let c = repo_copy(&s, "repo/data.json".to_string());
    assert_eq!(c.path, "repo/data.json");
    assert_eq!(c.list_servers(), s.list_servers());
}

#[test]
fn sorted_by_name_orders_by_lower_case_and_keeps_ties() {
    let v = vec![server("beta"), server("Alpha"), server("BETA"), server("alpha2")];
    let r = sorted_by_name(&v);
    let aliases: Vec<&str> = r.iter().map(|s| s.alias.as_str()).collect();
    assert_eq!(aliases, vec!["Alpha", "alpha2", "beta", "BETA"]);
    let k = sorted_by_name(&vec![key("zeta", "/k/z"), key("Eta", "/k/e")]);
    assert_eq!(k[0].name, "Eta");
    assert_eq!(k[1].name, "zeta");
}

#[test]
fn copied_all_keeps_records_in_order() {
    let v = vec![jump("b"), jump("a")];
    let r = copied_all(&v);
    assert_eq!(r, v);
}
