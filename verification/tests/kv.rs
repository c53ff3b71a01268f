use systems_lab::kv::{Command, KvStore};

#[test]
fn set_get_and_remove() {
    let mut store = KvStore::new();
    assert_eq!(store.get("user:1"), None);
    store.set("user:1".to_string(), "alice".to_string());
    assert_eq!(store.get("user:1"), Some("alice".to_string()));
    store.set("user:1".to_string(), "bob".to_string());
    assert_eq!(store.get("user:1"), Some("bob".to_string()));
    assert!(store.remove("user:1"));
    assert_eq!(store.get("user:1"), None);
    assert!(!store.remove("user:1"));
}

#[test]
fn remove_is_logged_only_for_present_keys() {
    let mut store = KvStore::new();
    assert_eq!(store.remove_command("missing".to_string()), None);
    store.set("k".to_string(), "v".to_string());
    assert_eq!(store.remove_command("k".to_string()), Some(Command::Remove("k".to_string())));
    assert_eq!(store.get("k"), Some("v".to_string()));
}

#[test]
fn open_replays_the_log_in_order() {
    let log = vec![
        Command::Put("a".to_string(), "1".to_string()),
        Command::Put("b".to_string(), "2".to_string()),
        Command::Remove("a".to_string()),
        Command::Put("b".to_string(), "3".to_string()),
        Command::Put("c".to_string(), "4".to_string()),
    ];
    let store = KvStore::open(log.clone());
    assert_eq!(store.get("a"), None);
    assert_eq!(store.get("b"), Some("3".to_string()));
    assert_eq!(store.get("c"), Some("4".to_string()));

    let mut live = KvStore::new();
    for command in log {
        live.apply(command);
    }
    for key in ["a", "b", "c", "d"] {
        assert_eq!(live.get(key), store.get(key));
    }
}

#[test]
fn reads_give_back_the_last_write() {
    let mut store = KvStore::new();
    store.set("x".to_string(), "1".to_string());
    store.set("y".to_string(), "2".to_string());
    store.apply(Command::Put("x".to_string(), "9".to_string()));
    assert_eq!(store.get("x"), Some("9".to_string()));
    assert_eq!(store.get("y"), Some("2".to_string()));
    store.apply(Command::Remove("x".to_string()));
    assert_eq!(store.get("x"), None);
    assert_eq!(store.get("y"), Some("2".to_string()));
}
