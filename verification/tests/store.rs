use mini_redis_rpc::db::Db;

fn b(s: &str) -> Vec<u8> {
    s.as_bytes().to_vec()
}

#[test]
fn set_get_del_round_trip() {
    let mut db = Db::new();
    db.set(b("foo"), b("bar"), None);
    assert_eq!(db.get(&b("foo")), Some(b("bar")));
    assert_eq!(db.del(&vec![b("foo")]), (1, false));
    assert_eq!(db.get(&b("foo")), None);
    assert_eq!(db.del(&vec![b("foo")]), (0, false));
}

#[test]
fn get_missing_and_del_missing() {
    let mut db = Db::new();
    assert_eq!(db.get(&b("nope")), None);
    assert_eq!(db.del(&vec![b("nope")]), (0, false));
}

#[test]
fn del_is_idempotent() {
    let mut db = Db::new();
    db.set(b("k"), b("v"), None);
    let (n1, _) = db.del(&vec![b("k")]);
    let (n2, _) = db.del(&vec![b("k")]);
    assert_eq!(n1, 1);
    assert_eq!(n2, 0);
}

#[test]
fn del_counts_only_present_keys() {
    let mut db = Db::new();
    db.set(b("a"), b("1"), None);
    db.set(b("b"), b("2"), None);
    assert_eq!(db.del(&vec![b("a"), b("missing"), b("b"), b("a")]), (2, false));
}

#[test]
fn set_overwrites_value() {
    let mut db = Db::new();
    db.set(b("k"), b("v1"), None);
    db.set(b("k"), b("v2"), None);
    assert_eq!(db.get(&b("k")), Some(b("v2")));
}

#[test]
fn expired_key_is_purged() {
    let mut db = Db::new();
    assert!(db.set(b("foo"), b("bar"), Some(10)));
    assert_eq!(db.get(&b("foo")), Some(b("bar")));
    assert_eq!(db.purge_expired(50), None);
    assert_eq!(db.get(&b("foo")), None);
    assert_eq!(db.del(&vec![b("foo")]), (0, false));
}

#[test]
fn purge_keeps_unexpired_keys() {
    let mut db = Db::new();
    db.set(b("soon"), b("1"), Some(20));
    db.set(b("late"), b("2"), Some(100));
    db.set(b("never"), b("3"), None);
    assert_eq!(db.purge_expired(50), Some(100));
    assert_eq!(db.get(&b("soon")), None);
    assert_eq!(db.get(&b("late")), Some(b("2")));
    assert_eq!(db.get(&b("never")), Some(b("3")));
}

#[test]
fn overwrite_without_ttl_drops_deadline() {
    let mut db = Db::new();
    db.set(b("k"), b("v"), Some(10));
    db.set(b("k"), b("v2"), None);
    assert_eq!(db.purge_expired(50), None);
    assert_eq!(db.get(&b("k")), Some(b("v2")));
}

#[test]
fn set_notifies_only_when_deadline_moves_up() {
    let mut db = Db::new();
    assert!(db.set(b("a"), b("1"), Some(30)));
    assert!(db.set(b("b"), b("2"), Some(20)));
    assert!(!db.set(b("c"), b("3"), Some(40)));
    assert!(!db.set(b("d"), b("4"), None));
}

#[test]
fn del_notifies_only_for_the_earliest_deadline() {
    let mut db = Db::new();
    db.set(b("a"), b("1"), Some(30));
    db.set(b("b"), b("2"), Some(20));
    assert_eq!(db.del(&vec![b("a")]), (1, false));
    assert_eq!(db.del(&vec![b("b")]), (1, true));
}

#[test]
fn ping_answers() {
    let db = Db::new();
    db.ping();
}

#[test]
fn publish_without_subscribers_delivers_nothing() {
    let db = Db::new();
    assert_eq!(db.publish(&b("foo"), b("bar")), 0);
}

#[test]
fn publish_reaches_every_subscriber() {
    let rt = tokio::runtime::Builder::new_current_thread().build().unwrap();
    let mut db = Db::new();
    let mut rxs1 = db.subscribe(vec![b("foo")]);
    let mut rxs2 = db.subscribe(vec![b("foo")]);
    assert_eq!(rxs1.len(), 1);
    assert_eq!(rxs2.len(), 1);
    assert_eq!(db.publish(&b("foo"), b("bar")), 2);
    assert_eq!(db.publish(&b("foo1"), b("bar1")), 0);
    let m1 = rt.block_on(rxs1[0].recv()).unwrap();
    let m2 = rt.block_on(rxs2[0].recv()).unwrap();
    assert_eq!(m1, b("bar"));
    assert_eq!(m2, b("bar"));
}

#[test]
fn subscription_list_is_per_channel_in_order() {
    let rt = tokio::runtime::Builder::new_current_thread().build().unwrap();
    let mut db = Db::new();
    let mut first = db.subscribe(vec![b("foo"), b("foo1")]);
    let mut second = db.subscribe(vec![b("foo")]);
    assert_eq!(first.len(), 2);
    assert_eq!(second.len(), 1);
    assert_eq!(db.publish(&b("foo"), b("bar")), 2);
    assert_eq!(db.publish(&b("foo1"), b("bar1")), 1);
    assert_eq!(rt.block_on(first[0].recv()).unwrap(), b("bar"));
    assert_eq!(rt.block_on(first[1].recv()).unwrap(), b("bar1"));
    assert_eq!(rt.block_on(second[0].recv()).unwrap(), b("bar"));
}

#[test]
fn slow_subscriber_lags_and_keeps_the_newest() {
    let rt = tokio::runtime::Builder::new_current_thread().build().unwrap();
    let mut db = Db::new();
    let mut rxs = db.subscribe(vec![b("c")]);
    assert_eq!(db.publish(&b("c"), b("first")), 1);
    assert_eq!(db.publish(&b("c"), b("second")), 1);
    assert!(rt.block_on(rxs[0].recv()).is_err());
    assert_eq!(rt.block_on(rxs[0].recv()).unwrap(), b("second"));
}

#[test]
fn publish_after_all_receivers_dropped_delivers_nothing() {
    let mut db = Db::new();
    let rxs = db.subscribe(vec![b("gone")]);
    drop(rxs);
    assert_eq!(db.publish(&b("gone"), b("msg")), 0);
}
