//! Tests of the keyed table and its lazy expiry.

use miniredis::store::{Store, TtlResult};

fn b(s: &str) -> Vec<u8> {
    s.as_bytes().to_vec()
}

#[test]
fn set_and_get() {
    let mut store = Store::new();
    store.set(b("k"), b("v"));
    assert_eq!(store.get(&b("k"), 0), Some(b("v")));
    assert_eq!(store.get(&b("missing"), 0), None);
}

#[test]
fn set_overwrites_and_clears_deadline() {
    let mut store = Store::new();
    store.set_with_expiry(b("k"), b("v1"), 5, 100);
    store.set(b("k"), b("v2"));
    assert_eq!(store.get(&b("k"), 1000), Some(b("v2")));
    assert_eq!(store.ttl(&b("k"), 1000), TtlResult::NoExpiry);
}

#[test]
fn ttl_counts_down_and_key_expires() {
    let mut store = Store::new();
    store.set_with_expiry(b("k"), b("v"), 5, 100);
    assert_eq!(store.ttl(&b("k"), 100), TtlResult::Remaining(5));
    assert_eq!(store.ttl(&b("k"), 102), TtlResult::Remaining(3));
    assert_eq!(store.get(&b("k"), 104), Some(b("v")));
    assert!(store.key_exists(&b("k"), 104));
    // From the deadline on, the key is gone for every read.
    assert_eq!(store.get(&b("k"), 105), None);
    assert!(!store.key_exists(&b("k"), 105));
    assert_eq!(store.ttl(&b("k"), 105), TtlResult::Absent);
}

#[test]
fn zero_expiry_misses_at_once() {
    let mut store = Store::new();
    store.set_with_expiry(b("k"), b("v"), 0, 100);
    assert_eq!(store.get(&b("k"), 100), None);
}

#[test]
fn expire_on_live_key_only() {
    let mut store = Store::new();
    assert!(!store.expire(&b("missing"), 10, 100));
    store.set(b("k"), b("v"));
    assert!(store.expire(&b("k"), 10, 100));
    assert_eq!(store.ttl(&b("k"), 103), TtlResult::Remaining(7));
    // An expired entry counts as absent, so it cannot be revived.
    store.set_with_expiry(b("gone"), b("v"), 5, 100);
    assert!(!store.expire(&b("gone"), 50, 200));
    assert_eq!(store.get(&b("gone"), 200), None);
}

#[test]
fn persist_fails_without_deadline() {
    let mut store = Store::new();
    store.set(b("k"), b("v"));
    assert!(!store.persist(&b("k"), 0));
    assert_eq!(store.get(&b("k"), 0), Some(b("v")));
    assert!(!store.persist(&b("missing"), 0));
}

#[test]
fn persist_clears_deadline() {
    let mut store = Store::new();
    store.set_with_expiry(b("k"), b("v"), 5, 100);
    assert!(store.persist(&b("k"), 102));
    assert_eq!(store.ttl(&b("k"), 1000), TtlResult::NoExpiry);
    assert_eq!(store.get(&b("k"), 1000), Some(b("v")));
}

#[test]
fn persist_cannot_revive_an_expired_key() {
    let mut store = Store::new();
    store.set_with_expiry(b("k"), b("v"), 5, 100);
    // From the deadline on, the entry is a miss for persist too.
    assert!(!store.persist(&b("k"), 105));
    assert_eq!(store.get(&b("k"), 105), None);
    assert!(!store.key_exists(&b("k"), 105));
    assert_eq!(store.ttl(&b("k"), 105), TtlResult::Absent);
    // And it stays dead at every later instant.
    assert_eq!(store.get(&b("k"), 1000), None);
}

#[test]
fn del_then_get_always_misses() {
    let mut store = Store::new();
    store.set(b("k"), b("v"));
    store.del(&b("k"));
    assert_eq!(store.get(&b("k"), 0), None);
    // Idempotent on a missing key.
    store.del(&b("k"));
    assert_eq!(store.get(&b("k"), 0), None);
    // Also after an expiry had been set.
    store.set_with_expiry(b("k"), b("v"), 100, 0);
    store.del(&b("k"));
    assert_eq!(store.get(&b("k"), 1), None);
}

#[test]
fn keys_lists_live_keys_once() {
    let mut store = Store::new();
    store.set(b("a"), b("1"));
    store.set(b("b"), b("2"));
    store.set_with_expiry(b("c"), b("3"), 5, 100);
    let mut listed = store.keys(200);
    listed.sort();
    assert_eq!(listed, vec![b("a"), b("b")]);
    let mut all = store.keys(100);
    all.sort();
    assert_eq!(all, vec![b("a"), b("b"), b("c")]);
}

#[test]
fn flush_empties_the_table() {
    let mut store = Store::new();
    store.set(b("a"), b("1"));
    store.set_with_expiry(b("b"), b("2"), 50, 0);
    store.flush();
    assert_eq!(store.get(&b("a"), 0), None);
    assert_eq!(store.get(&b("b"), 0), None);
    assert!(store.keys(0).is_empty());
}

#[test]
fn interleaved_writers_on_disjoint_keys() {
    // Two connections' operations, serialized in some interleaving,
    // never disturb one another's keys.
    let mut store = Store::new();
    store.set(b("conn1:x"), b("alpha"));
    store.set(b("conn2:x"), b("beta"));
    store.set_with_expiry(b("conn1:y"), b("gamma"), 10, 0);
    store.del(&b("conn2:missing"));
    assert_eq!(store.get(&b("conn1:x"), 1), Some(b("alpha")));
    store.set(b("conn2:x"), b("beta2"));
    assert_eq!(store.get(&b("conn1:x"), 2), Some(b("alpha")));
    assert_eq!(store.get(&b("conn2:x"), 2), Some(b("beta2")));
    assert_eq!(store.get(&b("conn1:y"), 2), Some(b("gamma")));
}
