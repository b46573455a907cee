use resp_store::store::Database;

fn sorted(mut keys: Vec<String>) -> Vec<String> {
    keys.sort();
    keys
}

fn texts(items: &[&str]) -> Vec<String> {
    items.iter().map(|item| item.to_string()).collect()
}

#[test]
fn set_then_get_returns_the_value() {
    let mut db = Database::new();
    db.set("foo", "bar");
    assert_eq!(db.get("foo"), Some("bar".to_string()));
    assert_eq!(db.get("foo"), Some("bar".to_string()));
    assert_eq!(db.get_at("foo", 0), Some("bar".to_string()));
    assert_eq!(db.get_at("foo", u64::MAX), Some("bar".to_string()));
}

#[test]
fn set_then_get_of_printable_texts() {
    let pairs = [
        ("", ""),
        ("k", ""),
        ("", "v"),
        ("a key", "a value with spaces"),
        ("k\u{e9}y", "v\u{4e16}lue"),
        ("*", "star"),
        ("tab\tkey", "line\r\nend"),
    ];
    for (key, value) in pairs.iter() {
        let mut db = Database::new();
        db.set(key, value);
        assert_eq!(db.get(key), Some(value.to_string()));
    }
}

#[test]
fn zero_ttl_is_expired_at_the_next_read() {
    let mut db = Database::new();
    db.set_with_expire("k", "v", 0);
    assert_eq!(db.get("k"), None);
    assert_eq!(db.get("k"), None);
}

#[test]
fn zero_ttl_is_expired_at_any_later_time() {
    for later in [1000u64, 1001, 5000, u64::MAX] {
        let mut db = Database::new();
        db.set_with_expire_at("k", "v", 0, 1000);
        assert_eq!(db.get_at("k", later), None);
    }
}

#[test]
fn large_ttl_is_live_at_once() {
    let mut db = Database::new();
    db.set_with_expire("k", "v", 3_600_000);
    assert_eq!(db.get("k"), Some("v".to_string()));
    db.set_with_expire("m", "w", u64::MAX);
    assert_eq!(db.get("m"), Some("w".to_string()));
}

#[test]
fn entry_expires_when_its_ttl_has_passed() {
    let mut db = Database::new();
    db.set_with_expire_at("k", "v", 100, 1000);
    assert_eq!(db.get_at("k", 1000), Some("v".to_string()));
    assert_eq!(db.get_at("k", 1099), Some("v".to_string()));
    assert_eq!(db.get_at("k", 1100), None);
}

#[test]
fn expired_entry_is_removed_by_the_read() {
    let mut db = Database::new();
    db.set_with_expire_at("k", "v", 100, 1000);
    assert_eq!(db.get_at("k", 1100), None);
    assert_eq!(db.get_at("k", 1050), None);
    assert_eq!(db.keys_at("*", 0), texts(&[]));
}

#[test]
fn deadline_does_not_wrap() {
    let mut db = Database::new();
    db.set_with_expire_at("k", "v", u64::MAX, u64::MAX);
    assert_eq!(db.get_at("k", u64::MAX), Some("v".to_string()));
    db.set_with_expire_at("m", "w", 1, u64::MAX);
    assert_eq!(db.get_at("m", u64::MAX), Some("w".to_string()));
    db.set_with_expire_at("n", "x", u64::MAX, 5);
    assert_eq!(db.get_at("n", 4), Some("x".to_string()));
    assert_eq!(db.get_at("n", u64::MAX), Some("x".to_string()));
}

#[test]
fn second_set_overwrites_the_first() {
    let mut db = Database::new();
    db.set("k", "v1");
    db.set("k", "v2");
    assert_eq!(db.get("k"), Some("v2".to_string()));
    assert_eq!(db.keys("*"), texts(&["k"]));
}

#[test]
fn set_overwrites_an_expiring_entry() {
    let mut db = Database::new();
    db.set_with_expire_at("k", "v1", 10, 1000);
    db.set("k", "v2");
    assert_eq!(db.get_at("k", 2000), Some("v2".to_string()));
    db.set_with_expire_at("k", "v3", 10, 3000);
    assert_eq!(db.get_at("k", 3005), Some("v3".to_string()));
    assert_eq!(db.get_at("k", 3010), None);
}

#[test]
fn get_of_a_key_never_set_is_a_stable_miss() {
    let mut db = Database::new();
    assert_eq!(db.get("nope"), None);
    assert_eq!(db.get("nope"), None);
    db.set("other", "v");
    assert_eq!(db.get("nope"), None);
    assert_eq!(db.get_at("nope", 0), None);
    assert_eq!(db.get("other"), Some("v".to_string()));
}

#[test]
fn keys_lists_live_keys_only() {
    let mut db = Database::new();
    db.set("a", "1");
    db.set("b", "2");
    db.set_with_expire_at("c", "3", 0, 1000);
    assert_eq!(sorted(db.keys_at("*", 1001)), texts(&["a", "b"]));
    assert_eq!(db.get_at("c", 0), None);
}

#[test]
fn keys_with_the_clock_leaves_out_expired_keys() {
    let mut db = Database::new();
    db.set("a", "1");
    db.set("b", "2");
    db.set_with_expire("c", "3", 0);
    assert_eq!(sorted(db.keys("*")), texts(&["a", "b"]));
}

#[test]
fn keys_filters_by_pattern() {
    let mut db = Database::new();
    db.set("apple", "1");
    db.set("apricot", "2");
    db.set("banana", "3");
    db.set_with_expire_at("avocado", "4", 50, 0);
    assert_eq!(sorted(db.keys_at("a*", 10)), texts(&["apple", "apricot", "avocado"]));
    assert_eq!(sorted(db.keys_at("a*", 50)), texts(&["apple", "apricot"]));
    assert_eq!(sorted(db.keys_at("*an*", 50)), texts(&["banana"]));
    assert_eq!(sorted(db.keys_at("banana", 50)), texts(&["banana"]));
    assert_eq!(sorted(db.keys_at("cherry", 50)), texts(&[]));
    assert_eq!(sorted(db.keys_at("", 50)), texts(&[]));
}

#[test]
fn keys_of_an_empty_store() {
    let mut db = Database::new();
    assert_eq!(db.keys("*"), texts(&[]));
}

#[test]
fn keys_lists_each_key_once() {
    let mut db = Database::new();
    db.set("a", "1");
    db.set("a", "2");
    db.set_with_expire_at("a", "3", 100, 0);
    db.set("b", "1");
    assert_eq!(sorted(db.keys_at("*", 1)), texts(&["a", "b"]));
    assert_eq!(sorted(db.keys_at("*", 100)), texts(&["b"]));
    db.set("a", "4");
    assert_eq!(sorted(db.keys_at("*", 100)), texts(&["a", "b"]));
}

#[test]
fn many_keys() {
    let mut db = Database::new();
    for i in 0..200 {
        let key = format!("key{}", i);
        if i % 2 == 0 {
            db.set(&key, "even");
        } else {
            db.set_with_expire_at(&key, "odd", 10, 0);
        }
    }
    assert_eq!(db.keys_at("*", 5).len(), 200);
    assert_eq!(db.get_at("key7", 10), None);
    assert_eq!(db.keys_at("*", 5).len(), 199);
    assert_eq!(db.keys_at("*", 10).len(), 100);
    assert_eq!(db.get_at("key8", 10), Some("even".to_string()));
    assert_eq!(db.get_at("key9", 0), None);
}

#[test]
fn config_get_reads_the_settings() {
    let db = Database::with_config(vec![
        ("dir".to_string(), "/tmp/data".to_string()),
        ("dbfilename".to_string(), "dump.rdb".to_string()),
    ]);
    assert_eq!(db.config_get("dir"), Some("/tmp/data".to_string()));
    assert_eq!(db.config_get("dbfilename"), Some("dump.rdb".to_string()));
    assert_eq!(db.config_get("host"), None);
    assert_eq!(db.config_get("DIR"), None);
    assert_eq!(db.config_get(""), None);
}

#[test]
fn config_get_takes_the_first_setting_of_a_name() {
    let db = Database::with_config(vec![
        ("dir".to_string(), "first".to_string()),
        ("dir".to_string(), "second".to_string()),
    ]);
    assert_eq!(db.config_get("dir"), Some("first".to_string()));
}

#[test]
fn config_of_a_new_store_is_empty() {
    let db = Database::new();
    assert_eq!(db.config_get("dir"), None);
}

#[test]
fn config_is_apart_from_the_entries() {
    let mut db = Database::with_config(vec![("dir".to_string(), "/tmp".to_string())]);
    assert_eq!(db.get("dir"), None);
    db.set("dir", "entry");
    assert_eq!(db.config_get("dir"), Some("/tmp".to_string()));
    assert_eq!(db.get("dir"), Some("entry".to_string()));
    assert_eq!(db.keys("*"), texts(&["dir"]));
}
