use redis_starter_rust::store::Store;

fn s(x: &str) -> String {
    x.to_owned()
}

#[test]
fn last_write_wins() {
    let mut store = Store::new();
    store.set(s("k"), s("v1"));
    assert_eq!(store.get(&s("k"), 0), Some(s("v1")));
    store.set(s("k"), s("v2"));
    store.set(s("other"), s("x"));
    assert_eq!(store.get(&s("k"), 0), Some(s("v2")));
    assert_eq!(store.get(&s("other"), 0), Some(s("x")));
    assert_eq!(store.get(&s("missing"), 0), None);
}

#[test]
fn value_lives_until_its_deadline() {
    let mut store = Store::new();
    let ticket = store.set_with_expire(s("k"), s("v"), 50, 1_000);
    assert_eq!(ticket.key, "k");
    assert_eq!(ticket.delay_ms, 50);
    assert_eq!(store.get(&s("k"), 1_000), Some(s("v")));
    assert_eq!(store.get(&s("k"), 1_049), Some(s("v")));
    assert_eq!(store.get(&s("k"), 1_050), None);
    assert!(store.expire(&s("k"), ticket.generation));
    assert_eq!(store.get(&s("k"), 0), None);
}

#[test]
fn stale_deletion_leaves_later_write() {
    let mut store = Store::new();
    let ticket = store.set_with_expire(s("k"), s("v1"), 10, 0);
    store.set(s("k"), s("v2"));
    assert!(!store.expire(&s("k"), ticket.generation));
    assert_eq!(store.get(&s("k"), 1_000_000), Some(s("v2")));
}

#[test]
fn deadline_past_u64_never_expires() {
    let mut store = Store::new();
    store.set_with_expire(s("k"), s("v"), u64::MAX, 10);
    assert_eq!(store.get(&s("k"), u64::MAX), Some(s("v")));
}

#[test]
fn keys_lists_live_keys_once() {
    let mut store = Store::new();
    store.set(s("a"), s("1"));
    store.set(s("b"), s("2"));
    store.set(s("a"), s("3"));
    store.set_with_expire(s("c"), s("4"), 5, 0);
    let mut keys = store.get_matching_keys(s("*"), 1);
    keys.sort();
    assert_eq!(keys, vec![s("a"), s("b"), s("c")]);
    let mut later = store.get_matching_keys(s("*"), 5);
    later.sort();
    assert_eq!(later, vec![s("a"), s("b")]);
    assert!(Store::new().get_matching_keys(s("*"), 0).is_empty());
}

#[test]
fn bulk_load_and_expiries() {
    let mut store = Store::new();
    store.add_multiple_keys(vec![(s("a"), s("1")), (s("b"), s("2")), (s("a"), s("3"))]);
    assert_eq!(store.get(&s("a"), 0), Some(s("3")));
    let tickets = store.set_multiple_expires(vec![(s("b"), 100), (s("zz"), 5)], 1_000);
    assert_eq!(tickets.len(), 1);
    assert_eq!(tickets[0].key, "b");
    assert_eq!(tickets[0].delay_ms, 100);
    assert_eq!(store.get(&s("b"), 1_099), Some(s("2")));
    assert_eq!(store.get(&s("b"), 1_100), None);
    assert!(store.expire(&s("b"), tickets[0].generation));
    assert_eq!(store.get(&s("a"), 5_000), Some(s("3")));
}
