//! Which callers wait for each other.

use relay::keyed_lock::{KeyedLock, SWEEP_THRESHOLD};

#[test]
fn independent_keys_do_not_block_each_other() {
    let mut keyed_lock = KeyedLock::new();
    let lock_a = keyed_lock.lock("key_a");
    // "key_b" has a lock of its own even though "key_a" is held
    let lock_b = keyed_lock.lock("key_b");
    assert_ne!(lock_a, lock_b);
    assert!(keyed_lock.unlock(lock_a));
    assert!(keyed_lock.unlock(lock_b));
}

#[test]
fn same_key_blocks_until_released() {
    let mut keyed_lock = KeyedLock::new();
    let lock_1 = keyed_lock.lock("same_key");
    let lock_2 = keyed_lock.lock("same_key");
    assert_eq!(lock_1, lock_2, "second lock on same key must block");
    // One caller still uses the lock after the other let go.
    assert!(!keyed_lock.unlock(lock_1));
    let lock_3 = keyed_lock.lock("same_key");
    assert_eq!(lock_3, lock_2);
    assert!(!keyed_lock.unlock(lock_2));
    assert!(keyed_lock.unlock(lock_3), "lock succeeds after release");
    // A key that nobody uses gets a new lock.
    assert_ne!(keyed_lock.lock("same_key"), lock_3);
}

#[test]
fn unused_locks_are_swept_and_used_ones_kept() {
    let mut keyed_lock = KeyedLock::new();
    let kept = keyed_lock.lock("kept");
    for i in 0..SWEEP_THRESHOLD {
        let slot = keyed_lock.lock(&format!("key {i}"));
        assert!(keyed_lock.unlock(slot));
    }
    assert_eq!(keyed_lock.len(), SWEEP_THRESHOLD + 1);
    let other = keyed_lock.lock("other");
    assert_eq!(keyed_lock.len(), 2);
    assert_eq!(keyed_lock.lock("kept"), kept);
    assert_ne!(other, kept);
    assert!(keyed_lock.can_lock());
}

#[test]
fn unlocking_an_unknown_slot_changes_nothing() {
    let mut keyed_lock = KeyedLock::new();
    assert!(keyed_lock.unlock(42));
    let slot = keyed_lock.lock("key");
    assert!(keyed_lock.unlock(slot));
    assert!(keyed_lock.unlock(slot));
    assert_eq!(keyed_lock.len(), 1);
}

#[test]
fn a_held_lock_outlasts_many_other_keys() {
    let mut keyed_lock = KeyedLock::new();
    let held = keyed_lock.lock("held");
    for i in 0..3 * SWEEP_THRESHOLD {
        let slot = keyed_lock.lock(&format!("key {i}"));
        assert_ne!(slot, held);
        keyed_lock.unlock(slot);
        if i % 100 == 0 {
            // Another caller waits for the key and gives up.
            assert_eq!(keyed_lock.lock("held"), held);
            assert!(!keyed_lock.unlock(held));
        }
    }
    assert_eq!(keyed_lock.lock("held"), held);
}
