use miniredis::store::RedisInternalState;
use miniredis::store::RedisStoredValue;

fn k(s: &str) -> Vec<u8> {
    s.as_bytes().to_vec()
}

#[test]
fn empty_store_has_nothing() {
    let state = RedisInternalState::new();
    assert_eq!(state.get(&k("missing"), 0), None);
}

#[test]
fn set_acknowledges_with_ok() {
    let mut state = RedisInternalState::new();
    let ack = state.set(&k("a"), &RedisStoredValue::new(k("1"), None)).unwrap();
    assert_eq!(ack, b"OK".to_vec());
}

#[test]
fn set_then_get_returns_the_value_for_every_reader() {
    let mut state = RedisInternalState::new();
    state.set(&k("k"), &RedisStoredValue::new(k("v1"), None)).unwrap();
    // any number of readers, no interleaving set: all observe v1
    for now in [0u64, 5, 1000, u64::MAX] {
        for _reader in 0..4 {
            assert_eq!(state.get(&k("k"), now), Some(k("v1")));
        }
    }
}

#[test]
fn keys_are_independent() {
    let mut state = RedisInternalState::new();
    state.set(&k("a"), &RedisStoredValue::new(k("1"), None)).unwrap();
    state.set(&k("b"), &RedisStoredValue::new(k("2"), None)).unwrap();
    assert_eq!(state.get(&k("a"), 0), Some(k("1")));
    assert_eq!(state.get(&k("b"), 0), Some(k("2")));
    assert_eq!(state.get(&k("c"), 0), None);
}

#[test]
fn expiration_is_lazy_and_exact() {
    let t0: u64 = 100;
    let mut state = RedisInternalState::new();
    // as set("k", "v", expire_after_millis(10)) issued at t0
    state.set(&k("k"), &RedisStoredValue::new(k("v"), Some(t0 + 10))).unwrap();
    // read immediately: 0 ms elapsed
    assert_eq!(state.get(&k("k"), t0), Some(k("v")));
    // read just before the instant
    assert_eq!(state.get(&k("k"), t0 + 9), Some(k("v")));
    // read once 10 ms have elapsed: nothing
    assert_eq!(state.get(&k("k"), t0 + 10), None);
    assert_eq!(state.get(&k("k"), t0 + 1000), None);
}

#[test]
fn expiration_in_the_past_reads_as_absent() {
    let mut state = RedisInternalState::new();
    state.set(&k("k"), &RedisStoredValue::new(k("v"), Some(3))).unwrap();
    assert_eq!(state.get(&k("k"), 50), None);
}

#[test]
fn replacement_discards_the_old_expiration() {
    let t0: u64 = 100;
    let mut state = RedisInternalState::new();
    state.set(&k("k"), &RedisStoredValue::new(k("v1"), Some(t0 + 10))).unwrap();
    state.set(&k("k"), &RedisStoredValue::new(k("v2"), None)).unwrap();
    // 20 ms later the old entry's expiration must have no effect
    assert_eq!(state.get(&k("k"), t0 + 20), Some(k("v2")));
}

#[test]
fn replacement_overwrites_the_value() {
    let mut state = RedisInternalState::new();
    state.set(&k("k"), &RedisStoredValue::new(k("v1"), None)).unwrap();
    state.set(&k("k"), &RedisStoredValue::new(k("v2"), None)).unwrap();
    assert_eq!(state.get(&k("k"), 0), Some(k("v2")));
}

#[test]
fn stored_value_accessors() {
    let sv = RedisStoredValue::new(k("payload"), Some(77));
    assert_eq!(sv.value(), &k("payload"));
    assert_eq!(sv.expiration(), Some(77));
    let sv2 = RedisStoredValue::new(k("x"), None);
    assert_eq!(sv2.expiration(), None);
    let d = sv.duplicate();
    assert_eq!(d.value(), &k("payload"));
    assert_eq!(d.expiration(), Some(77));
}
