use redis_lite::store::{place, Place, Store};
use redis_lite::types::RedisType;

fn text(s: &str) -> RedisType {
    RedisType::String(s.to_string())
}

#[test]
fn new_store_is_empty() {
    let store = Store::new();
    assert_eq!(store.len(), 0);
    assert!(store.keys().is_empty());
    assert_eq!(store.get("k"), None);
}

#[test]
fn insert_maps_a_key() {
    let mut store = Store::new();
    assert_eq!(store.insert("k".to_string(), text("v")), None);
    assert_eq!(store.get("k"), Some(&text("v")));
    assert_eq!(store.get("K"), None);
    assert_eq!(store.get(""), None);
    assert_eq!(store.len(), 1);
}

#[test]
fn insert_gives_back_the_value_of_before() {
    let mut store = Store::new();
    store.insert("k".to_string(), text("one"));
    assert_eq!(store.insert("k".to_string(), text("two")), Some(text("one")));
    assert_eq!(store.get("k"), Some(&text("two")));
    assert_eq!(store.len(), 1);
}

#[test]
fn remove_unmaps_a_key() {
    let mut store = Store::new();
    store.insert("a".to_string(), text("1"));
    store.insert("b".to_string(), text("2"));
    assert_eq!(store.remove("a"), Some(text("1")));
    assert_eq!(store.remove("a"), None);
    assert_eq!(store.get("a"), None);
    assert_eq!(store.get("b"), Some(&text("2")));
    assert_eq!(store.len(), 1);
}

#[test]
fn keys_come_in_their_order_whatever_the_order_of_entry() {
    let entered = [
        "pear", "apple", "", "fig", "Apple", "apples", "\u{e9}clair", "zebra", "a", "b", "ab",
        "\u{1f600}", "~",
    ];
    let mut store = Store::new();
    for (i, key) in entered.iter().enumerate() {
        store.insert(key.to_string(), RedisType::Integer(i as i64));
    }
    let mut sorted: Vec<String> = entered.iter().map(|k| k.to_string()).collect();
    sorted.sort();
    assert_eq!(store.keys(), sorted);
    for (i, key) in entered.iter().enumerate() {
        assert_eq!(store.get(key), Some(&RedisType::Integer(i as i64)));
    }
    store.remove("fig");
    store.remove("");
    sorted.retain(|k| k != "fig" && !k.is_empty());
    assert_eq!(store.keys(), sorted);
    assert_eq!(store.len(), sorted.len());
}

#[test]
fn store_holds_many_keys() {
    let mut store = Store::new();
    for i in 0..200 {
        let key = format!("key{}", (i * 37) % 200);
        assert_eq!(store.insert(key, RedisType::Integer(i)), None);
    }
    assert_eq!(store.len(), 200);
    for i in 0..200 {
        let key = format!("key{}", (i * 37) % 200);
        assert_eq!(store.get(&key), Some(&RedisType::Integer(i)));
    }
    for i in 0..200 {
        if i % 2 == 0 {
            assert!(store.remove(&format!("key{}", i)).is_some());
        }
    }
    assert_eq!(store.len(), 100);
    for i in 0..200 {
        assert_eq!(store.get(&format!("key{}", i)).is_some(), i % 2 == 1);
    }
}

#[test]
fn place_is_the_order_of_strings() {
    let texts = ["", "a", "A", "ab", "b", "abc", "\u{e9}", "\u{1f600}", "z", "\u{7f}", "\u{80}"];
    for a in texts {
        for b in texts {
            let want = match a.cmp(b) {
                std::cmp::Ordering::Less => Place::Before,
                std::cmp::Ordering::Equal => Place::Same,
                std::cmp::Ordering::Greater => Place::After,
            };
            assert_eq!(place(a, b), want);
        }
    }
}
