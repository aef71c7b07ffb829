use docspan::annotate::cache_key;
use docspan::annotate::content_hash;
use docspan::config::Config;
use docspan::store::Store;
use docspan::textops::process_items;

#[test]
fn config_defaults_and_builders() {
    let cfg = Config::new("rust");
    assert_eq!(cfg.name(), "rust");
    assert_eq!(cfg.address(), "0.0.0.0:3000");
    let cfg = cfg.with_port(9090).with_debug(true);
    assert_eq!(cfg.name(), "rust");
    assert_eq!(cfg.address(), "0.0.0.0:9090");
    assert!(cfg.debug);
    let cfg = cfg.with_port(0);
    assert_eq!(cfg.address(), "0.0.0.0:0");
}

#[test]
fn store_holds_what_was_set() {
    let mut store: Store<Vec<i32>> = Store::new();
    let key = content_hash(b"let x = 1;");
    assert!(!store.contains(&key));
    assert!(store.get(&key).is_none());
    store.set(key, vec![100, 95, 87]);
    assert!(store.contains(&key));
    assert_eq!(store.get(&key), Some(&vec![100, 95, 87]));
    store.set(key, vec![1]);
    assert_eq!(store.get(&key), Some(&vec![1]));
}

#[test]
fn content_hash_is_stable_and_content_keyed() {
    assert_eq!(content_hash(b""), 0xcbf29ce484222325);
    assert_eq!(content_hash(b"a"), 0xaf63dc4c8601ec8c);
    let one = content_hash(b"let total = 1;");
    let two = content_hash(b"let total = 1;");
    assert_eq!(one, two);
    assert_ne!(one, content_hash(b"let total = 2;"));
}

#[test]
fn cache_key_depends_on_engine_version() {
    let a = cache_key(b"engine-1", b"let x = 1;");
    let b = cache_key(b"engine-2", b"let x = 1;");
    assert_ne!(a, b);
    assert_eq!(a, cache_key(b"engine-1", b"let x = 1;"));
    assert_eq!(cache_key(b"", b"a"), content_hash(b"a"));
}

#[test]
fn process_items_filters_and_uppercases() {
    let words = vec!["hello", "world", "rust", "is", "great"];
    let result = process_items(&words, 3);
    assert_eq!(result, vec!["HELLO", "WORLD", "RUST", "GREAT"]);
    assert_eq!(process_items(&words, 6).len(), 0);
    let empty: Vec<&str> = Vec::new();
    assert_eq!(process_items(&empty, 1).len(), 0);
}
