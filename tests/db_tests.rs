use rust_redis::db::Db;

fn b(s: &str) -> Vec<u8> {
    s.as_bytes().to_vec()
}

#[test]
fn test_string_operations() {
    let mut db = Db::new();

    db.write_string("key1".to_string(), b("value1"), None);
    assert_eq!(db.read_string("key1", 0).unwrap(), b("value1"));

    assert!(db.read_string("nonexistent", 0).is_none());
}

#[test]
fn test_list_operations() {
    let mut db = Db::new();

    // LPUSH a b pushes a, then b, onto the head: the list is [b, a]
    let len = db.lpush("mylist".to_string(), vec![b("a"), b("b")], 0);
    assert_eq!(len, 2);

    let len = db.rpush("mylist".to_string(), vec![b("c")], 0);
    assert_eq!(len, 3);

    let range = db.lrange("mylist", 0, -1, 0).unwrap();
    assert_eq!(range.len(), 3);
    assert_eq!(range[0], b("b"));
    assert_eq!(range[1], b("a"));
    assert_eq!(range[2], b("c"));

    let value = db.lpop("mylist", 0).unwrap();
    assert_eq!(value, b("b"));

    assert_eq!(db.llen("mylist", 0).unwrap(), 2);
}

#[test]
fn test_set_operations() {
    let mut db = Db::new();

    let added = db.sadd(
        "myset".to_string(),
        vec!["a".to_string(), "b".to_string(), "c".to_string()],
        0,
    );
    assert_eq!(added, 3);

    assert!(db.sismember("myset", "a", 0));
    assert!(!db.sismember("myset", "d", 0));

    assert_eq!(db.scard("myset", 0), 3);

    let removed = db.srem("myset", vec!["b".to_string()], 0);
    assert_eq!(removed, 1);
    assert_eq!(db.scard("myset", 0), 2);
}

#[test]
fn test_hash_operations() {
    let mut db = Db::new();

    let is_new = db.hset("user:1".to_string(), "name".to_string(), b("Alice"), 0);
    assert!(is_new);

    let value = db.hget("user:1", "name", 0).unwrap();
    assert_eq!(value, b("Alice"));

    assert!(db.hexists("user:1", "name", 0));
    assert!(!db.hexists("user:1", "age", 0));

    db.hset("user:1".to_string(), "age".to_string(), b("30"), 0);
    assert_eq!(db.hlen("user:1", 0), 2);

    let deleted = db.hdel("user:1", vec!["age".to_string()], 0);
    assert_eq!(deleted, 1);
    assert_eq!(db.hlen("user:1", 0), 1);
}

#[test]
fn test_utility_operations() {
    let mut db = Db::new();

    db.write_string("key1".to_string(), b("val1"), None);
    db.write_string("key2".to_string(), b("val2"), None);
    db.lpush("list1".to_string(), vec![b("item")], 0);

    assert_eq!(db.dbsize(), 3);

    assert!(db.key_exists("key1", 0));
    assert!(!db.key_exists("nonexistent", 0));

    assert_eq!(db.get_type("key1", 0), Some("string"));
    assert_eq!(db.get_type("list1", 0), Some("list"));
    assert_eq!(db.get_type("nonexistent", 0), None);

    assert!(db.delete("key1", 0));
    assert!(!db.delete("nonexistent", 0));
    assert_eq!(db.dbsize(), 2);

    db.flushdb();
    assert_eq!(db.dbsize(), 0);
}

#[test]
fn test_keys_pattern_matching() {
    let mut db = Db::new();

    db.write_string("user:1".to_string(), b("a"), None);
    db.write_string("user:2".to_string(), b("b"), None);
    db.write_string("session:1".to_string(), b("c"), None);
    db.write_string("data".to_string(), b("d"), None);

    let keys = db.keys("user:*");
    assert_eq!(keys.len(), 2);

    let all_keys = db.keys("*");
    assert_eq!(all_keys.len(), 4);

    let keys = db.keys("user:?");
    assert_eq!(keys.len(), 2);
}

#[test]
fn test_expiration() {
    let mut db = Db::new();

    // a deadline 100 ms after time 0
    db.write_string("temp".to_string(), b("value"), Some(100));

    assert!(db.read_string("temp", 0).is_some());

    // 150 ms later the key is gone
    assert!(db.read_string("temp", 150).is_none());
}

#[test]
fn test_type_safety() {
    let mut db = Db::new();

    db.lpush("mylist".to_string(), vec![b("item")], 0);

    assert!(db.read_string("mylist", 0).is_none());

    assert_eq!(db.get_type("mylist", 0), Some("list"));
}

#[test]
fn expired_key_stays_absent_until_set() {
    let mut db = Db::new();
    db.write_string("k".to_string(), b("v"), Some(10));
    assert!(db.read_string("k", 10).is_none());
    assert!(!db.key_exists("k", 20));
    assert_eq!(db.get_type("k", 30), None);
    assert_eq!(db.dbsize(), 0);
    db.write_string("k".to_string(), b("w"), None);
    assert_eq!(db.read_string("k", 40).unwrap(), b("w"));
}

#[test]
fn expired_entry_counts_as_absent_for_delete_and_push() {
    let mut db = Db::new();
    db.rpush("l".to_string(), vec![b("x")], 0);
    db.write_string("s".to_string(), b("v"), Some(5));
    assert!(!db.delete("s", 5));
    assert_eq!(db.dbsize(), 1);
    db.write_string("t".to_string(), b("v"), Some(5));
    // the expired string is replaced by a new list
    assert_eq!(db.lpush("t".to_string(), vec![b("a")], 6), 1);
    assert_eq!(db.get_type("t", 6), Some("list"));
}

#[test]
fn emptied_containers_leave_the_keyspace() {
    let mut db = Db::new();
    db.rpush("l".to_string(), vec![b("x")], 0);
    assert_eq!(db.rpop("l", 0).unwrap(), b("x"));
    assert!(!db.key_exists("l", 0));
    assert_eq!(db.get_type("l", 0), None);

    db.sadd("s".to_string(), vec!["a".to_string()], 0);
    assert_eq!(db.srem("s", vec!["a".to_string(), "z".to_string()], 0), 1);
    assert!(!db.key_exists("s", 0));

    db.hset("h".to_string(), "f".to_string(), b("v"), 0);
    assert_eq!(db.hdel("h", vec!["f".to_string()], 0), 1);
    assert_eq!(db.get_type("h", 0), None);
}

#[test]
fn empty_pushes_create_nothing() {
    let mut db = Db::new();
    assert_eq!(db.lpush("l".to_string(), vec![], 0), 0);
    assert_eq!(db.sadd("s".to_string(), vec![], 0), 0);
    assert_eq!(db.dbsize(), 0);
}

#[test]
fn wrong_type_is_left_alone() {
    let mut db = Db::new();
    db.write_string("k".to_string(), b("v"), None);
    assert_eq!(db.lpush("k".to_string(), vec![b("a")], 0), 0);
    assert_eq!(db.sadd("k".to_string(), vec!["a".to_string()], 0), 0);
    assert!(!db.hset("k".to_string(), "f".to_string(), b("v"), 0));
    assert!(db.lpop("k", 0).is_none());
    assert!(db.lrange("k", 0, -1, 0).is_none());
    assert!(db.smembers("k", 0).is_none());
    assert!(db.hgetall("k", 0).is_none());
    assert_eq!(db.read_string("k", 0).unwrap(), b("v"));
}

#[test]
fn lrange_clamps_and_counts_from_the_tail() {
    let mut db = Db::new();
    db.rpush("l".to_string(), vec![b("a"), b("b"), b("c"), b("d")], 0);
    let r = |db: &mut Db, s: i64, e: i64| db.lrange("l", s, e, 0).unwrap();
    assert_eq!(r(&mut db, 1, 2), vec![b("b"), b("c")]);
    assert_eq!(r(&mut db, -2, -1), vec![b("c"), b("d")]);
    assert_eq!(r(&mut db, -100, 100), vec![b("a"), b("b"), b("c"), b("d")]);
    assert_eq!(r(&mut db, 3, 1), Vec::<Vec<u8>>::new());
    assert_eq!(r(&mut db, 5, 10), Vec::<Vec<u8>>::new());
    assert_eq!(r(&mut db, 0, -5), Vec::<Vec<u8>>::new());
    assert_eq!(r(&mut db, i64::MIN, i64::MAX).len(), 4);
}

#[test]
fn smembers_and_hgetall_list_each_item_once() {
    let mut db = Db::new();
    db.sadd("s".to_string(), vec!["a".to_string(), "b".to_string(), "a".to_string()], 0);
    let mut m = db.smembers("s", 0).unwrap();
    m.sort();
    assert_eq!(m, vec!["a".to_string(), "b".to_string()]);

    db.hset("h".to_string(), "x".to_string(), b("1"), 0);
    db.hset("h".to_string(), "y".to_string(), b("2"), 0);
    db.hset("h".to_string(), "x".to_string(), b("3"), 0);
    let mut all = db.hgetall("h", 0).unwrap();
    all.sort();
    assert_eq!(all, vec![("x".to_string(), b("3")), ("y".to_string(), b("2"))]);
}

#[test]
fn keys_glob_classes_and_escapes() {
    let mut db = Db::new();
    for k in ["hallo", "hello", "hillo", "hxllo", "h*llo", "heeeello"] {
        db.write_string(k.to_string(), b("v"), None);
    }
    let mut k = |p: &str| {
        let mut v = db.keys(p);
        v.sort();
        v
    };
    assert_eq!(k("h[ae]llo"), vec!["hallo".to_string(), "hello".to_string()]);
    assert_eq!(k("h[^e]llo"), vec!["h*llo", "hallo", "hillo", "hxllo"].iter().map(|s| s.to_string()).collect::<Vec<_>>());
    assert_eq!(k("h[a-f]llo"), vec!["hallo".to_string(), "hello".to_string()]);
    assert_eq!(k("h\\*llo"), vec!["h*llo".to_string()]);
    assert_eq!(k("h*llo").len(), 6);
    assert_eq!(k("he*o"), vec!["heeeello".to_string(), "hello".to_string()]);
}
