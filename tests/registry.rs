use lodestone::discovery::ServiceRegistry;
use lodestone::log_store::Snapshot;
use lodestone::store::{key_before, starts_with, Store};
use lodestone::types::{Command, Error, LogEntry, Service};

fn record(id: &str, name: &str) -> Service {
    Service {
        id: id.to_string(),
        name: name.to_string(),
        address: "10.0.0.1".to_string(),
        port: 8080,
        health_check_url: "http://10.0.0.1:8080/health".to_string(),
        tags: vec!["blue".to_string()],
        metadata: vec![("zone".to_string(), "a".to_string())],
    }
}

fn entry(index: u64, command: Command) -> LogEntry {
    LogEntry { index, term: 1, command }
}

#[test]
fn store_set_get_delete() {
    let mut s = Store::new();
    s.set("a", record("a", "web"));
    s.set("b", record("b", "db"));
    assert_eq!(s.len(), 2);
    assert_eq!(s.get("a").unwrap().name, "web");
    s.set("a", record("a", "api"));
    assert_eq!(s.len(), 2);
    assert_eq!(s.list()[0].name, "api");
    s.delete("a");
    assert!(s.get("a").is_none());
    s.delete("missing");
    assert_eq!(s.len(), 1);
}

#[test]
fn store_scan_prefix_keeps_order() {
    let mut s = Store::new();
    s.set("service:web:1", record("1", "web"));
    s.set("other", record("2", "x"));
    s.set("service:web:2", record("3", "web"));
    let found = s.scan_prefix("service:web");
    assert_eq!(found.len(), 2);
    assert_eq!(found[0].id, "1");
    assert_eq!(found[1].id, "3");
    assert_eq!(s.scan_prefix("").len(), 3);
    assert_eq!(s.scan_prefix("zzz").len(), 0);
}

#[test]
fn prefix_test_on_text() {
    assert!(starts_with("service", "serv"));
    assert!(starts_with("service", ""));
    assert!(!starts_with("se", "serv"));
    assert!(!starts_with("servant", "servi"));
}

#[test]
fn registry_lookup_by_name_prefix() {
    let mut r = ServiceRegistry::new();
    r.apply(&entry(1, Command::Register(record("1", "web-frontend")))).unwrap();
    r.apply(&entry(2, Command::Register(record("2", "db")))).unwrap();
    r.apply(&entry(3, Command::Register(record("3", "web-backend")))).unwrap();
    let web = r.get_services_by_name("web");
    assert_eq!(web.len(), 2);
    assert_eq!(web[0].id, "1");
    assert_eq!(web[1].id, "3");
    assert_eq!(r.list_services().len(), 3);
    assert_eq!(r.health_check_ids(), vec!["1".to_string(), "2".to_string(), "3".to_string()]);
}

#[test]
fn store_lists_in_key_order() {
    let mut s = Store::new();
    s.set("b", record("b", "x"));
    s.set("a", record("a", "x"));
    s.set("ab", record("ab", "x"));
    s.set("B", record("B", "x"));
    let keys: Vec<String> = s.list().iter().map(|r| r.id.clone()).collect();
    assert_eq!(keys, vec!["B".to_string(), "a".to_string(), "ab".to_string(), "b".to_string()]);
    let all: Vec<String> = s.scan_prefix("").iter().map(|r| r.id.clone()).collect();
    assert_eq!(all, keys);
    let with_a: Vec<String> = s.scan_prefix("a").iter().map(|r| r.id.clone()).collect();
    assert_eq!(with_a, vec!["a".to_string(), "ab".to_string()]);
    s.set("é", record("é", "x"));
    assert_eq!(s.list().last().unwrap().id, "é");
}

#[test]
fn key_order_compares_like_bytes() {
    assert!(key_before("a", "b"));
    assert!(key_before("a", "ab"));
    assert!(!key_before("ab", "a"));
    assert!(!key_before("a", "a"));
    assert!(key_before("Z", "a"));
    assert!(key_before("z", "é"));
    assert!(key_before("", "a"));
}

#[test]
fn deregister_missing_id_changes_nothing() {
    let mut r = ServiceRegistry::new();
    assert_eq!(r.apply(&entry(1, Command::Register(record("a", "web")))), Ok(true));
    let before: Vec<String> = r.list_services().iter().map(|s| s.id.clone()).collect();
    assert_eq!(r.apply(&entry(2, Command::Deregister("missing-id".to_string()))), Ok(true));
    let after: Vec<String> = r.list_services().iter().map(|s| s.id.clone()).collect();
    assert_eq!(before, after);
    assert_eq!(r.last_applied(), 2);
}

#[test]
fn apply_in_order_skips_replays_and_refuses_gaps() {
    let mut r = ServiceRegistry::new();
    assert_eq!(r.apply(&entry(1, Command::Register(record("a", "web")))), Ok(true));
    assert_eq!(r.apply(&entry(3, Command::Register(record("c", "web")))), Err(Error::OutOfRange));
    assert_eq!(r.apply(&entry(2, Command::Noop)), Ok(true));
    assert_eq!(r.apply(&entry(1, Command::Deregister("a".to_string()))), Ok(false));
    assert!(r.get_service("a").is_some());
    assert!(r.get_service("c").is_none());
    assert_eq!(r.last_applied(), 2);
}

#[test]
fn replay_after_crash_is_idempotent() {
    let mut r = ServiceRegistry::new();
    let log = vec![
        entry(1, Command::Register(record("a", "web"))),
        entry(2, Command::Register(record("b", "db"))),
        entry(3, Command::Deregister("a".to_string())),
    ];
    r.apply_all(&log);
    let ids: Vec<String> = r.list_services().iter().map(|s| s.id.clone()).collect();
    assert_eq!(ids, vec!["b".to_string()]);
    r.apply_all(&log);
    let again: Vec<String> = r.list_services().iter().map(|s| s.id.clone()).collect();
    assert_eq!(ids, again);
    assert_eq!(r.last_applied(), 3);
}

#[test]
fn register_overwrites_same_id() {
    let mut r = ServiceRegistry::new();
    r.apply(&entry(1, Command::Register(record("a", "web")))).unwrap();
    r.apply(&entry(2, Command::Register(record("a", "api")))).unwrap();
    assert_eq!(r.list_services().len(), 1);
    assert_eq!(r.get_service("a").unwrap().name, "api");
}

#[test]
fn snapshot_installs_only_when_newer() {
    let mut r = ServiceRegistry::new();
    r.apply(&entry(1, Command::Register(record("a", "web")))).unwrap();
    let snap = Snapshot { last_included_index: 5, last_included_term: 2, state: vec![record("x", "db"), record("y", "web")] };
    assert!(r.install_snapshot(&snap));
    assert_eq!(r.last_applied(), 5);
    assert!(r.get_service("a").is_none());
    assert_eq!(r.get_service("y").unwrap().name, "web");
    let old = Snapshot { last_included_index: 4, last_included_term: 2, state: vec![] };
    assert!(!r.install_snapshot(&old));
    assert_eq!(r.list_services().len(), 2);
}

#[test]
fn snapshot_of_listing_restores_same_records() {
    let mut r = ServiceRegistry::new();
    r.apply(&entry(1, Command::Register(record("a", "web")))).unwrap();
    r.apply(&entry(2, Command::Register(record("b", "db")))).unwrap();
    let snap = Snapshot { last_included_index: 2, last_included_term: 1, state: r.list_services() };
    let mut other = ServiceRegistry::new();
    assert!(other.install_snapshot(&snap));
    let a: Vec<String> = r.list_services().iter().map(|s| s.id.clone()).collect();
    let b: Vec<String> = other.list_services().iter().map(|s| s.id.clone()).collect();
    assert_eq!(a, b);
    assert_eq!(other.last_applied(), 2);
}
