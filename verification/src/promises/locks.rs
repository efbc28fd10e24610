//! What a lock hands out, keeps and gives up, entry by entry.

use crate::keyed_lock::{for_key, for_slot, held, key_of, slot_of, EntryView, LocksView};
use crate::table::{first_at, lemma_filter_congruent, lemma_first, present};
use vstd::prelude::*;

verus! {

/// A key without an entry has no lock and no users, and is given a slot that
/// was not given out before.
pub proof fn unknown_keys_get_a_fresh_slot(locks: LocksView, key: Seq<char>)
    requires
        locks.calls < u64::MAX,
        forall|i: int| 0 <= i < locks.entries.len() ==> (#[trigger] locks.entries[i]).key != key,
    ensures
        locks.guard(key) is None,
        locks.users(key) == 0,
        locks.slot_for(key) == locks.calls + 1,
{
    assert(!present(locks.entries, for_key(key)));
}

/// A key with an entry is guarded by the entry's slot while someone holds it or
/// waits for it, and is given that slot; once nobody does, it is given a fresh
/// one.
pub proof fn keys_in_use_share_their_slot(locks: LocksView, key: Seq<char>, i: int)
    requires
        locks.calls < u64::MAX,
        0 <= i < locks.entries.len(),
        locks.entries[i].key == key,
        forall|j: int|
            0 <= j < locks.entries.len() && j != i ==> (#[trigger] locks.entries[j]).key != key,
    ensures
        locks.users(key) == locks.entries[i].holders,
        locks.entries[i].holders > 0 ==> locks.guard(key) == Some(locks.entries[i].slot)
            && locks.slot_for(key) == locks.entries[i].slot,
        locks.entries[i].holders == 0 ==> locks.guard(key) is None && locks.slot_for(key)
            == locks.calls + 1,
{
    assert(first_at(locks.entries, for_key(key), i));
    lemma_first(locks.entries, for_key(key), i);
}

/// Locking counts one more user of the key, in the key's entry or in a new one
/// at the end. With up to 1024 entries every other one stays.
pub proof fn locking_counts_one_more_user(locks: LocksView, key: Seq<char>)
    requires
        locks.calls < u64::MAX,
        locks.users(key) < u64::MAX,
        locks.entries.len() <= 1024,
    ensures
        ({
            let entry = EntryView {
                key,
                slot: locks.slot_for(key),
                holders: (locks.users(key) + 1) as u64,
            };
            &&& locks.locked(key).calls == locks.calls + 1
            &&& (forall|i: int|
                0 <= i < locks.entries.len() ==> (#[trigger] locks.entries[i]).key != key)
                ==> locks.locked(key).entries == locks.entries.push(entry)
            &&& forall|i: int|
                0 <= i < locks.entries.len() && (#[trigger] locks.entries[i]).key == key && (forall|
                    j: int,
                |
                    0 <= j < i ==> (#[trigger] locks.entries[j]).key != key) ==> locks.locked(
                    key,
                ).entries == locks.entries.update(i, entry)
        }),
{
    lemma_written(locks, key, locks.entries);
}

/// With more than 1024 entries those that nobody uses are dropped before the
/// key gets its entry, and every entry in use stays.
pub proof fn locking_drops_unused_entries(locks: LocksView, key: Seq<char>)
    requires
        locks.calls < u64::MAX,
        locks.users(key) < u64::MAX,
        locks.entries.len() > 1024,
    ensures
        ({
            let kept = locks.entries.filter(|entry: EntryView| entry.holders > 0);
            let entry = EntryView {
                key,
                slot: locks.slot_for(key),
                holders: (locks.users(key) + 1) as u64,
            };
            &&& locks.locked(key).calls == locks.calls + 1
            &&& (forall|i: int| 0 <= i < kept.len() ==> (#[trigger] kept[i]).key != key)
                ==> locks.locked(key).entries == kept.push(entry)
            &&& forall|i: int|
                0 <= i < kept.len() && (#[trigger] kept[i]).key == key && (forall|j: int|
                    0 <= j < i ==> (#[trigger] kept[j]).key != key) ==> locks.locked(key).entries
                    == kept.update(i, entry)
        }),
{
    let kept = locks.entries.filter(|entry: EntryView| entry.holders > 0);
    lemma_filter_congruent(locks.entries, held(), |entry: EntryView| entry.holders > 0);
    lemma_written(locks, key, kept);
}

/// The entry of a key that is locked, among the entries that stay.
proof fn lemma_written(locks: LocksView, key: Seq<char>, kept: Seq<EntryView>)
    requires
        kept == locks.swept(),
    ensures
        ({
            let entry = EntryView {
                key,
                slot: locks.slot_for(key),
                holders: (locks.users(key) + 1) as u64,
            };
            &&& (forall|i: int| 0 <= i < kept.len() ==> (#[trigger] kept[i]).key != key)
                ==> locks.locked(key).entries == kept.push(entry)
            &&& forall|i: int|
                0 <= i < kept.len() && (#[trigger] kept[i]).key == key && (forall|j: int|
                    0 <= j < i ==> (#[trigger] kept[j]).key != key) ==> locks.locked(key).entries
                    == kept.update(i, entry)
        }),
{
    let entry = EntryView {
        key,
        slot: locks.slot_for(key),
        holders: (locks.users(key) + 1) as u64,
    };
    let p = for_key(key);
    if forall|i: int| 0 <= i < kept.len() ==> (#[trigger] kept[i]).key != key {
        assert(!present(kept, p));
    }
    assert forall|i: int|
        0 <= i < kept.len() && (#[trigger] kept[i]).key == key && (forall|j: int|
            0 <= j < i ==> (#[trigger] kept[j]).key != key) implies locks.locked(key).entries
        == kept.update(i, entry) by {
        assert(first_at(kept, p, i));
        lemma_first(kept, p, i);
    }
}

/// Unlocking counts one user less in the entry with the slot. A slot that
/// nobody holds, or that no entry has, changes nothing.
pub proof fn unlocking_counts_one_user_less(locks: LocksView, slot: u64)
    ensures
        (forall|i: int|
            0 <= i < locks.entries.len() ==> (#[trigger] locks.entries[i]).slot != slot)
            ==> locks.unlocked(slot) == locks,
        forall|i: int|
            0 <= i < locks.entries.len() && (#[trigger] locks.entries[i]).slot == slot && (forall|
                j: int,
            |
                0 <= j < i ==> (#[trigger] locks.entries[j]).slot != slot) ==> locks.unlocked(slot)
                == if locks.entries[i].holders > 0 {
                LocksView {
                    entries: locks.entries.update(
                        i,
                        EntryView {
                            key: locks.entries[i].key,
                            slot: locks.entries[i].slot,
                            holders: (locks.entries[i].holders - 1) as u64,
                        },
                    ),
                    calls: locks.calls,
                }
            } else {
                locks
            },
{
    let p = for_slot(slot);
    assert forall|i: int|
        0 <= i < locks.entries.len() && (#[trigger] locks.entries[i]).slot == slot && (forall|
            j: int,
        |
            0 <= j < i ==> (#[trigger] locks.entries[j]).slot != slot) implies locks.unlocked(slot)
        == (if locks.entries[i].holders > 0 {
        LocksView {
            entries: locks.entries.update(
                i,
                EntryView {
                    key: locks.entries[i].key,
                    slot: locks.entries[i].slot,
                    holders: (locks.entries[i].holders - 1) as u64,
                },
            ),
            calls: locks.calls,
        }
    } else {
        locks
    }) by {
        assert(first_at(locks.entries, p, i));
        lemma_first(locks.entries, p, i);
    }
}

/// Locks are well formed exactly if no two entries are for one key or have one
/// slot, and no slot or count is beyond the number of calls.
pub proof fn well_formed_locks_hold_keys_once(locks: LocksView)
    ensures
        locks.well_formed() <==> {
            &&& forall|i: int, j: int|
                0 <= i < j < locks.entries.len() ==> (#[trigger] locks.entries[i]).key != (
                #[trigger] locks.entries[j]).key && locks.entries[i].slot != locks.entries[j].slot
            &&& forall|i: int|
                0 <= i < locks.entries.len() ==> (#[trigger] locks.entries[i]).slot <= locks.calls
                    && locks.entries[i].holders <= locks.calls
        },
{
    if locks.well_formed() {
        assert forall|i: int, j: int| 0 <= i < j < locks.entries.len() implies (
        #[trigger] locks.entries[i]).key != (#[trigger] locks.entries[j]).key
            && locks.entries[i].slot != locks.entries[j].slot by {
            assert(!key_of()(locks.entries[i])(locks.entries[j]));
            assert(!slot_of()(locks.entries[i])(locks.entries[j]));
        }
    }
}

} // verus!
