//! Which lock guards a key.
//!
//! A caller locks the key that it works on, not the whole relay. Every key in
//! use has a lock of its own, named by its slot; the entries of keys that
//! nobody uses any more are swept out once there are many.

use crate::table::{
    distinct, find, first_at, lemma_filter_distinct, lemma_filter_member, lemma_find_kept,
    lemma_first, lemma_first_exists, lemma_found, lemma_put_apart, lemma_put_distinct,
    lemma_put_found, lemma_put_rows, lemma_update_apart, partition, position, present, put, rows,
};
use vstd::prelude::*;

verus! {

/// How many entries there are before unused ones are swept out.
pub const SWEEP_THRESHOLD: usize = 1024;

/// The lock of one key.
#[derive(Debug)]
struct Entry {
    key: String,
    slot: u64,
    holders: u64,
}

/// The value of an entry.
pub struct EntryView {
    pub key: Seq<char>,
    /// The name of the lock.
    pub slot: u64,
    /// How many callers hold the lock or wait for it.
    pub holders: u64,
}

impl View for Entry {
    type V = EntryView;

    closed spec fn view(&self) -> EntryView {
        EntryView { key: self.key@, slot: self.slot, holders: self.holders }
    }
}

/// The locks in use, by key.
#[derive(Debug)]
pub struct KeyedLock {
    entries: Vec<Entry>,
    calls: u64,
}

/// The value of the locks: their entries, and how often a lock was asked for.
#[verifier::ext_equal]
pub struct LocksView {
    pub entries: Seq<EntryView>,
    pub calls: u64,
}

impl View for KeyedLock {
    type V = LocksView;

    closed spec fn view(&self) -> LocksView {
        LocksView { entries: rows(self.entries@), calls: self.calls }
    }
}

/// The entry of a key.
pub open spec fn for_key(key: Seq<char>) -> spec_fn(EntryView) -> bool {
    |entry: EntryView| entry.key == key
}

/// The entry of a slot.
pub open spec fn for_slot(slot: u64) -> spec_fn(EntryView) -> bool {
    |entry: EntryView| entry.slot == slot
}

/// The entries of the same key.
pub open spec fn key_of() -> spec_fn(EntryView) -> spec_fn(EntryView) -> bool {
    |entry: EntryView| for_key(entry.key)
}

/// The entries of the same slot.
pub open spec fn slot_of() -> spec_fn(EntryView) -> spec_fn(EntryView) -> bool {
    |entry: EntryView| for_slot(entry.slot)
}

/// Someone holds the lock or waits for it.
pub open spec fn held() -> spec_fn(EntryView) -> bool {
    |entry: EntryView| entry.holders > 0
}

impl LocksView {
    /// A key has one entry and a slot guards one key.
    pub open spec fn well_formed(self) -> bool {
        &&& distinct(self.entries, key_of())
        &&& distinct(self.entries, slot_of())
        &&& forall|i: int|
            0 <= i < self.entries.len() ==> (#[trigger] self.entries[i]).slot <= self.calls
                && self.entries[i].holders <= self.calls
    }

    /// The slot of the lock that guards a key that is in use.
    pub open spec fn guard(self, key: Seq<char>) -> Option<u64> {
        match find(self.entries, for_key(key)) {
            Some(entry) => if entry.holders > 0 {
                Some(entry.slot)
            } else {
                None
            },
            None => None,
        }
    }

    /// How many callers hold the lock of a key or wait for it.
    pub open spec fn users(self, key: Seq<char>) -> u64 {
        match find(self.entries, for_key(key)) {
            Some(entry) => entry.holders,
            None => 0,
        }
    }

    /// The entries without those that nobody uses, if there are many.
    pub open spec fn swept(self) -> Seq<EntryView> {
        if self.entries.len() > SWEEP_THRESHOLD {
            self.entries.filter(held())
        } else {
            self.entries
        }
    }

    /// The slot that a caller gets for a key: that of the key's lock, or a new
    /// one where the key is not in use.
    pub open spec fn slot_for(self, key: Seq<char>) -> u64 {
        match self.guard(key) {
            Some(slot) => slot,
            None => (self.calls + 1) as u64,
        }
    }

    /// The locks after a caller asked for that of a key.
    pub open spec fn locked(self, key: Seq<char>) -> LocksView {
        LocksView {
            entries: put(
                self.swept(),
                for_key(key),
                EntryView {
                    key,
                    slot: self.slot_for(key),
                    holders: (self.users(key) + 1) as u64,
                },
            ),
            calls: (self.calls + 1) as u64,
        }
    }

    /// The locks after a caller let go of one.
    pub open spec fn unlocked(self, slot: u64) -> LocksView {
        match find(self.entries, for_slot(slot)) {
            Some(entry) => if entry.holders > 0 {
                LocksView {
                    entries: put(
                        self.entries,
                        for_slot(slot),
                        EntryView { holders: (entry.holders - 1) as u64, ..entry },
                    ),
                    ..self
                }
            } else {
                self
            },
            None => self,
        }
    }
}

/// Sweeping keeps the entries in order.
proof fn lemma_swept(locks: LocksView)
    requires
        locks.well_formed(),
    ensures
        (LocksView { entries: locks.swept(), calls: locks.calls }).well_formed(),
        locks.swept().len() <= locks.entries.len(),
{
    if locks.entries.len() > SWEEP_THRESHOLD {
        let s = locks.swept();
        locks.entries.lemma_filter_len(held());
        lemma_filter_distinct(locks.entries, held(), key_of());
        lemma_filter_distinct(locks.entries, held(), slot_of());
        assert forall|i: int| 0 <= i < s.len() implies (#[trigger] s[i]).slot <= locks.calls
            && s[i].holders <= locks.calls by {
            assert(s.contains(s[i]));
            lemma_filter_member(locks.entries, held(), s[i]);
            let k = locks.entries.index_of(s[i]);
            assert(locks.entries[k].slot <= locks.calls);
        }
    }
}

/// Sweeping takes no entry that is in use.
proof fn lemma_swept_find(locks: LocksView, key: Seq<char>)
    requires
        locks.well_formed(),
    ensures
        (LocksView { entries: locks.swept(), calls: locks.calls }).guard(key) == locks.guard(key),
        (LocksView { entries: locks.swept(), calls: locks.calls }).users(key) == locks.users(key),
{
    let p = for_key(key);
    let s = locks.swept();
    if locks.entries.len() > SWEEP_THRESHOLD {
        if present(locks.entries, p) {
            lemma_first_exists(locks.entries, p);
            let i = choose|i: int| first_at(locks.entries, p, i);
            lemma_first(locks.entries, p, i);
            if locks.entries[i].holders > 0 {
                lemma_find_kept(locks.entries, held(), p, i);
            } else if present(s, p) {
                let k = choose|k: int| 0 <= k < s.len() && p(#[trigger] s[k]);
                assert(s.contains(s[k]));
                lemma_filter_member(locks.entries, held(), s[k]);
                let j = locks.entries.index_of(s[k]);
                if i < j {
                    assert(!key_of()(locks.entries[i])(locks.entries[j]));
                } else {
                    assert(!key_of()(locks.entries[j])(locks.entries[i]));
                }
            }
        } else if present(s, p) {
            let k = choose|k: int| 0 <= k < s.len() && p(#[trigger] s[k]);
            assert(s.contains(s[k]));
            lemma_filter_member(locks.entries, held(), s[k]);
            let j = locks.entries.index_of(s[k]);
            assert(p(locks.entries[j]));
        }
    }
}

proof fn lemma_locked_well_formed(locks: LocksView, key: Seq<char>)
    requires
        locks.well_formed(),
        locks.calls < u64::MAX,
    ensures
        locks.locked(key).well_formed(),
{
    let p = for_key(key);
    let s = locks.swept();
    let row = EntryView {
        key,
        slot: locks.slot_for(key),
        holders: (locks.users(key) + 1) as u64,
    };
    let next = locks.locked(key);
    lemma_swept(locks);
    lemma_swept_find(locks, key);
    if find(s, p) is Some {
        lemma_found(s, p);
        let f = choose|f: int| first_at(s, p, f) && find(s, p) == Some(s[f]);
        assert(s[f].holders <= locks.calls);
        lemma_first(s, p, f);
    }
    lemma_put_distinct(s, row, key_of());
    lemma_put_rows(s, p, row);
    assert forall|i: int, j: int| 0 <= i < j < next.entries.len() implies !slot_of()(
        #[trigger] next.entries[i],
    )(#[trigger] next.entries[j]) by {
        lemma_slots_differ(locks, key, i, j);
    }
    assert forall|i: int| 0 <= i < next.entries.len() implies (#[trigger] next.entries[i]).slot
        <= next.calls && next.entries[i].holders <= next.calls by {
        if next.entries[i] != row {
            assert(s[i].slot <= locks.calls);
        }
    }
}

proof fn lemma_slots_differ(locks: LocksView, key: Seq<char>, i: int, j: int)
    requires
        locks.well_formed(),
        locks.calls < u64::MAX,
        0 <= i < j < locks.locked(key).entries.len(),
    ensures
        locks.locked(key).entries[i].slot != locks.locked(key).entries[j].slot,
{
    let p = for_key(key);
    let s = locks.swept();
    let row = EntryView {
        key,
        slot: locks.slot_for(key),
        holders: (locks.users(key) + 1) as u64,
    };
    let next = locks.locked(key).entries;
    lemma_swept(locks);
    lemma_swept_find(locks, key);
    if present(s, p) {
        lemma_first_exists(s, p);
        let f = choose|f: int| first_at(s, p, f);
        lemma_first(s, p, f);
        assert(next == s.update(f, row));
        assert(!slot_of()(s[i])(s[j]));
        assert(s[i].slot <= locks.calls && s[j].slot <= locks.calls);
        assert(s[f].slot <= locks.calls);
    } else {
        assert(next == s.push(row));
        assert(s[i].slot <= locks.calls);
        if j < s.len() {
            assert(!slot_of()(s[i])(s[j]));
        }
    }
}

impl KeyedLock {
    /// No locks.
    pub fn new() -> (locks: KeyedLock)
        ensures
            locks@ == (LocksView { entries: Seq::empty(), calls: 0 }),
            locks@.well_formed(),
    {
        let locks = KeyedLock { entries: Vec::new(), calls: 0 };
        proof {
            assert(rows(locks.entries@) =~= Seq::empty());
        }
        locks
    }

    /// How many entries there are.
    pub fn len(&self) -> (n: usize)
        ensures
            n == self@.entries.len(),
    {
        self.entries.len()
    }

    /// Whether one more call can be counted.
    pub fn can_lock(&self) -> (r: bool)
        ensures
            r == (self@.calls < u64::MAX),
    {
        self.calls < 0xffff_ffff_ffff_ffff
    }

    /// Notes that a caller wants the lock of a key, and returns its slot. The
    /// caller then waits for that lock.
    pub fn lock(&mut self, key: &str) -> (slot: u64)
        requires
            old(self)@.well_formed(),
            old(self)@.calls < u64::MAX,
        ensures
            slot == old(self)@.slot_for(key@),
            final(self)@ == old(self)@.locked(key@),
            final(self)@.well_formed(),
    {
        let ghost before = self@;
        proof {
            lemma_swept(before);
            lemma_swept_find(before, key@);
            lemma_locked_well_formed(before, key@);
        }
        if self.entries.len() > SWEEP_THRESHOLD {
            let ghost p = held();
            let test = |entry: &Entry| -> (b: bool)
                ensures b == p(entry@)
            {
                entry.holders > 0
            };
            let mut entries: Vec<Entry> = Vec::new();
            std::mem::swap(&mut entries, &mut self.entries);
            let parts = partition(entries, test, Ghost(p));
            self.entries = parts.0;
        }
        let ghost swept = rows(self.entries@);
        assert(swept == before.swept());
        let name = key.to_owned();
        let ghost p = for_key(key@);
        let test = |entry: &Entry| -> (b: bool)
            ensures b == p(entry@)
        {
            entry.key == name
        };
        let at = position(&self.entries, test, Ghost(p));
        self.calls = self.calls + 1;
        match at {
            Some(i) => {
                proof {
                    lemma_first(swept, p, i as int);
                    assert(swept[i as int].holders <= before.calls);
                }
                let used = self.entries[i].holders;
                let slot: u64 = if used > 0 {
                    self.entries[i].slot
                } else {
                    self.calls
                };
                let entry = Entry { key: name, slot, holders: used + 1 };
                let ghost row = entry@;
                self.entries.set(i, entry);
                proof {
                    assert(rows(self.entries@) =~= swept.update(i as int, row));
                }
                slot
            },
            None => {
                let entry = Entry { key: name, slot: self.calls, holders: 1 };
                let ghost row = entry@;
                self.entries.push(entry);
                proof {
                    assert(rows(self.entries@) =~= swept.push(row));
                }
                self.calls
            },
        }
    }

    /// Notes that a caller let go of a lock, and returns whether nobody else
    /// uses it.
    pub fn unlock(&mut self, slot: u64) -> (unused: bool)
        requires
            old(self)@.well_formed(),
        ensures
            final(self)@ == old(self)@.unlocked(slot),
            final(self)@.well_formed(),
            unused == !present(
                final(self)@.entries,
                |entry: EntryView| entry.slot == slot && entry.holders > 0,
            ),
    {
        let ghost before = self@;
        proof {
            lemma_unlocked_well_formed(before, slot);
        }
        let ghost p = for_slot(slot);
        let test = |entry: &Entry| -> (b: bool)
            ensures b == p(entry@)
        {
            entry.slot == slot
        };
        match position(&self.entries, test, Ghost(p)) {
            Some(i) => {
                proof {
                    lemma_first(before.entries, p, i as int);
                }
                let used = self.entries[i].holders;
                if used > 0 {
                    let entry = Entry {
                        key: self.entries[i].key.clone(),
                        slot,
                        holders: used - 1,
                    };
                    let ghost row = entry@;
                    self.entries.set(i, entry);
                    proof {
                        assert(rows(self.entries@) =~= before.entries.update(i as int, row));
                    }
                }
                let left = self.entries[i].holders;
                proof {
                    let rest = self@.entries;
                    let user = |entry: EntryView| entry.slot == slot && entry.holders > 0;
                    assert(rest[i as int].holders == left && rest[i as int].slot == slot);
                    if left > 0 {
                        assert(user(rest[i as int]));
                    } else if present(rest, user) {
                        let k = choose|k: int| 0 <= k < rest.len() && user(#[trigger] rest[k]);
                        if k < i {
                            assert(!slot_of()(rest[k])(rest[i as int]));
                        } else if i < k {
                            assert(!slot_of()(rest[i as int])(rest[k]));
                        }
                    }
                }
                left == 0
            },
            None => {
                proof {
                    let user = |entry: EntryView| entry.slot == slot && entry.holders > 0;
                    if present(before.entries, user) {
                        let k = choose|k: int|
                            0 <= k < before.entries.len() && user(#[trigger] before.entries[k]);
                        assert(p(before.entries[k]));
                    }
                }
                true
            },
        }
    }
}

proof fn lemma_unlocked_well_formed(locks: LocksView, slot: u64)
    requires
        locks.well_formed(),
    ensures
        locks.unlocked(slot).well_formed(),
{
    let p = for_slot(slot);
    let next = locks.unlocked(slot);
    if present(locks.entries, p) {
        lemma_first_exists(locks.entries, p);
        let f = choose|f: int| first_at(locks.entries, p, f);
        lemma_first(locks.entries, p, f);
        assert(locks.entries[f].holders <= locks.calls);
        assert forall|i: int, j: int| 0 <= i < j < next.entries.len() implies !key_of()(
            #[trigger] next.entries[i],
        )(#[trigger] next.entries[j]) && !slot_of()(next.entries[i])(next.entries[j]) by {
            assert(!key_of()(locks.entries[i])(locks.entries[j]));
            assert(!slot_of()(locks.entries[i])(locks.entries[j]));
        }
        assert forall|i: int| 0 <= i < next.entries.len() implies (#[trigger] next.entries[i]).slot
            <= next.calls && next.entries[i].holders <= next.calls by {
            assert(locks.entries[i].slot <= locks.calls);
        }
    }
}

/// Callers that use a key at the same time are given the same lock.
pub proof fn callers_of_one_key_share_its_lock(locks: LocksView, key: Seq<char>)
    requires
        locks.well_formed(),
        locks.calls < u64::MAX,
    ensures
        locks.guard(key) is Some ==> locks.slot_for(key) == locks.guard(key)->0,
        locks.locked(key).guard(key) == Some(locks.slot_for(key)),
        locks.locked(key).users(key) == locks.users(key) + 1,
{
    let row = EntryView {
        key,
        slot: locks.slot_for(key),
        holders: (locks.users(key) + 1) as u64,
    };
    lemma_put_found(locks.swept(), for_key(key), row);
    if find(locks.entries, for_key(key)) is Some {
        lemma_found(locks.entries, for_key(key));
        let i = locks.entries.index_of(find(locks.entries, for_key(key))->0);
        assert(locks.entries[i].holders <= locks.calls);
    }
}

/// Callers of different keys are given different locks, so none waits for the
/// other.
pub proof fn callers_of_different_keys_do_not_wait(
    locks: LocksView,
    key: Seq<char>,
    other: Seq<char>,
)
    requires
        locks.well_formed(),
        key != other,
        locks.guard(key) is Some,
        locks.guard(other) is Some,
    ensures
        locks.guard(key) != locks.guard(other),
{
    lemma_found(locks.entries, for_key(key));
    lemma_found(locks.entries, for_key(other));
    let i = locks.entries.index_of(find(locks.entries, for_key(key))->0);
    let j = locks.entries.index_of(find(locks.entries, for_key(other))->0);
    if i < j {
        assert(!slot_of()(locks.entries[i])(locks.entries[j]));
    } else {
        assert(i != j);
        assert(!slot_of()(locks.entries[j])(locks.entries[i]));
    }
}

/// Asking for the lock of one key leaves the others as they are. In particular
/// a sweep takes no lock that is in use.
pub proof fn locking_spares_other_keys(locks: LocksView, key: Seq<char>, other: Seq<char>)
    requires
        locks.well_formed(),
        locks.calls < u64::MAX,
        key != other,
    ensures
        locks.locked(key).guard(other) == locks.guard(other),
        locks.locked(key).users(other) == locks.users(other),
{
    let row = EntryView {
        key,
        slot: locks.slot_for(key),
        holders: (locks.users(key) + 1) as u64,
    };
    lemma_swept_find(locks, other);
    lemma_put_apart(locks.swept(), for_key(key), row, for_key(other));
}

/// Letting go of the lock of a key leaves one user less, and the other keys as
/// they are. The key keeps its lock while anyone uses it.
pub proof fn unlocking_leaves_one_user_less(
    locks: LocksView,
    key: Seq<char>,
    other: Seq<char>,
)
    requires
        locks.well_formed(),
        locks.guard(key) is Some,
        key != other,
    ensures
        ({
            let next = locks.unlocked(locks.guard(key)->0);
            &&& next.users(key) == locks.users(key) - 1
            &&& locks.users(key) > 1 ==> next.guard(key) == locks.guard(key)
            &&& next.users(other) == locks.users(other)
            &&& next.guard(other) == locks.guard(other)
        }),
{
    let p = for_key(key);
    let slot = locks.guard(key)->0;
    let q = for_slot(slot);
    lemma_found(locks.entries, p);
    let i = choose|i: int| first_at(locks.entries, p, i);
    lemma_first(locks.entries, p, i);
    assert(first_at(locks.entries, q, i)) by {
        assert forall|j: int| 0 <= j < i implies !q(#[trigger] locks.entries[j]) by {
            assert(!slot_of()(locks.entries[j])(locks.entries[i]));
        }
    }
    lemma_first(locks.entries, q, i);
    let entry = locks.entries[i];
    let row = EntryView { holders: (entry.holders - 1) as u64, ..entry };
    let next = locks.unlocked(slot);
    assert(next.entries == locks.entries.update(i, row));
    assert(first_at(next.entries, p, i)) by {
        assert forall|j: int| 0 <= j < i implies !p(#[trigger] next.entries[j]) by {
            assert(next.entries[j] == locks.entries[j]);
        }
    }
    lemma_first(next.entries, p, i);
    lemma_update_apart(locks.entries, i, row, for_key(other));
}

/// The entries do not pile up: beyond the threshold a call leaves the entries
/// of the keys in use and at most one more.
pub proof fn unused_entries_do_not_pile_up(locks: LocksView, key: Seq<char>)
    requires
        locks.entries.len() > SWEEP_THRESHOLD,
    ensures
        locks.locked(key).entries.len() <= locks.entries.filter(held()).len() + 1,
{
    let row = EntryView {
        key,
        slot: locks.slot_for(key),
        holders: (locks.users(key) + 1) as u64,
    };
    lemma_put_rows(locks.swept(), for_key(key), row);
}

/// A call that callers make of the locks.
pub enum LockCall {
    Lock { key: Seq<char> },
    Unlock { slot: u64 },
}

/// The locks after a call.
pub open spec fn after_call(locks: LocksView, call: LockCall) -> LocksView {
    match call {
        LockCall::Lock { key } => locks.locked(key),
        LockCall::Unlock { slot } => locks.unlocked(slot),
    }
}

/// The locks after a run of calls, first to last.
pub open spec fn after_calls(locks: LocksView, calls: Seq<LockCall>) -> LocksView
    decreases calls.len(),
{
    if calls.len() == 0 {
        locks
    } else {
        after_call(after_calls(locks, calls.drop_last()), calls.last())
    }
}

/// Through a run of calls someone keeps using the key: whenever its lock is let
/// go of, another caller holds it or waits for it.
pub open spec fn stays_in_use(locks: LocksView, calls: Seq<LockCall>, key: Seq<char>) -> bool {
    forall|i: int|
        0 <= i < calls.len() && (#[trigger] calls[i]) == (LockCall::Unlock {
            slot: locks.guard(key)->0,
        }) ==> after_calls(locks, calls.take(i)).users(key) > 1
}

/// Letting go of another lock leaves the lock of a key as it is.
proof fn lemma_unlock_apart(locks: LocksView, slot: u64, key: Seq<char>)
    requires
        locks.well_formed(),
        locks.guard(key) is Some,
        locks.guard(key) != Some(slot),
    ensures
        locks.unlocked(slot).guard(key) == locks.guard(key),
        locks.unlocked(slot).users(key) == locks.users(key),
{
    let p = for_slot(slot);
    if present(locks.entries, p) {
        lemma_first_exists(locks.entries, p);
        let f = choose|f: int| first_at(locks.entries, p, f);
        lemma_first(locks.entries, p, f);
        let entry = locks.entries[f];
        if entry.key == key {
            lemma_found(locks.entries, for_key(key));
            let i = locks.entries.index_of(find(locks.entries, for_key(key))->0);
            if i < f {
                assert(!key_of()(locks.entries[i])(locks.entries[f]));
            } else if f < i {
                assert(!key_of()(locks.entries[f])(locks.entries[i]));
            }
        } else {
            let row = EntryView { holders: (entry.holders - 1) as u64, ..entry };
            lemma_update_apart(locks.entries, f, row, for_key(key));
        }
    }
}

/// A key keeps its lock for as long as anyone uses it, however many other keys
/// are locked and let go of meanwhile: a caller of the key waits for that very
/// lock, and a caller of another key is given another one.
pub proof fn keys_in_use_keep_their_lock(
    locks: LocksView,
    calls: Seq<LockCall>,
    key: Seq<char>,
    other: Seq<char>,
)
    requires
        locks.well_formed(),
        locks.guard(key) is Some,
        locks.calls + calls.len() < u64::MAX,
        stays_in_use(locks, calls, key),
        other != key,
    ensures
        ({
            let later = after_calls(locks, calls);
            &&& later.well_formed()
            &&& later.calls <= locks.calls + calls.len()
            &&& later.guard(key) == locks.guard(key)
            &&& later.slot_for(key) == locks.guard(key)->0
            &&& later.slot_for(other) != locks.guard(key)->0
        }),
    decreases calls.len(),
{
    let later = after_calls(locks, calls);
    if calls.len() > 0 {
        let front = calls.drop_last();
        let before = after_calls(locks, front);
        assert forall|i: int|
            0 <= i < front.len() && (#[trigger] front[i]) == (LockCall::Unlock {
                slot: locks.guard(key)->0,
            }) implies after_calls(locks, front.take(i)).users(key) > 1 by {
            assert(front[i] == calls[i]);
            assert(front.take(i) =~= calls.take(i));
        }
        keys_in_use_keep_their_lock(locks, front, key, other);
        match calls.last() {
            LockCall::Lock { key: asked } => {
                lemma_locked_well_formed(before, asked);
                if asked == key {
                    callers_of_one_key_share_its_lock(before, key);
                } else {
                    locking_spares_other_keys(before, asked, key);
                }
            },
            LockCall::Unlock { slot } => {
                lemma_unlocked_well_formed(before, slot);
                if before.guard(key) == Some(slot) {
                    let n = calls.len() - 1;
                    assert(calls[n] == calls.last());
                    assert(calls.take(n) =~= front);
                    unlocking_leaves_one_user_less(before, key, other);
                } else {
                    lemma_unlock_apart(before, slot, key);
                }
            },
        }
    }
    lemma_found(later.entries, for_key(key));
    let i = later.entries.index_of(find(later.entries, for_key(key))->0);
    assert(later.entries[i].slot <= later.calls);
    if later.guard(other) is Some {
        callers_of_different_keys_do_not_wait(later, key, other);
    }
}

} // verus!
