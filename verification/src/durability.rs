//! What the journal promises to whoever keeps the rows on disk.

use crate::config::Limits;
use crate::consistency::{
    consistent, device_keys, every_run_is_consistent, operations_keep_consistency, pending_keys,
    receipt_keys, unique_keys,
};
use crate::database::{device_change, store_log};
use crate::delivery::backlog;
use crate::entity::{device, pending_message, receipt};
use crate::journal::{
    applied, dropped_devices, dropped_pending, dropped_receipts, replayed, ChangeView,
};
use crate::operation::{after_run, changes, empty_tables, next, Operation};
use crate::table::{
    distinct, lemma_filter_congruent, lemma_filter_filter, lemma_filter_member, lemma_filter_none,
    without,
};
use crate::tables::{
    acked_row, after_prune, after_store, clamped, earlier, expired_device, expired_pending,
    new_counter, new_pending, new_receipt, purged, removed_receipt, store_fault, with_cursor,
    DeviceKey, Sending, Tables,
};
use vstd::prelude::*;

verus! {

/// The rows whose key is that of none of `gone`.
spec fn spared<A>(gone: Seq<A>, key: spec_fn(A) -> spec_fn(A) -> bool) -> spec_fn(A) -> bool {
    |a: A| forall|i: int| 0 <= i < gone.len() ==> !key(#[trigger] gone[i])(a)
}

/// Where keys differ, deleting the selected rows by their keys leaves the rows
/// that are not selected.
proof fn lemma_spared<A>(s: Seq<A>, p: spec_fn(A) -> bool, key: spec_fn(A) -> spec_fn(A) -> bool)
    requires
        distinct(s, key),
        forall|a: A| #[trigger] key(a)(a),
        forall|a: A, b: A| #[trigger] key(a)(b) ==> key(b)(a),
    ensures
        s.filter(spared(s.filter(p), key)) == without(s, p),
{
    let gone = s.filter(p);
    let keep = |a: A| !p(a);
    assert forall|j: int| 0 <= j < s.len() implies spared(gone, key)(#[trigger] s[j]) == keep(
        s[j],
    ) by {
        let a = s[j];
        assert(s.contains(a));
        if p(a) {
            lemma_filter_member(s, p, a);
            let i = gone.index_of(a);
            assert(key(gone[i])(a));
        } else {
            assert forall|i: int| 0 <= i < gone.len() implies !key(#[trigger] gone[i])(a) by {
                assert(gone.contains(gone[i]));
                lemma_filter_member(s, p, gone[i]);
                let k = s.index_of(gone[i]);
                if key(s[k])(s[j]) {
                    if k < j {
                        assert(!key(s[k])(s[j]));
                    } else {
                        assert(!key(s[j])(s[k]));
                    }
                }
            }
        }
    }
    lemma_filter_congruent(s, spared(gone, key), keep);
}

/// Deleting one more key.
proof fn lemma_spare_one<A>(s: Seq<A>, gone: Seq<A>, key: spec_fn(A) -> spec_fn(A) -> bool)
    requires
        gone.len() > 0,
    ensures
        without(s.filter(spared(gone.drop_last(), key)), key(gone.last())) == s.filter(
            spared(gone, key),
        ),
{
    let front = gone.drop_last();
    let last = key(gone.last());
    let keep = |a: A| !last(a);
    lemma_filter_filter(s, spared(front, key), keep);
    let both = |a: A| spared(front, key)(a) && keep(a);
    assert forall|j: int| 0 <= j < s.len() implies both(#[trigger] s[j]) == spared(gone, key)(
        s[j],
    ) by {
        let a = s[j];
        if both(a) {
            assert forall|i: int| 0 <= i < gone.len() implies !key(#[trigger] gone[i])(a) by {
                if i < front.len() {
                    assert(gone[i] == front[i]);
                }
            }
        }
        if spared(gone, key)(a) {
            assert(!key(gone[gone.len() - 1])(a));
            assert forall|i: int| 0 <= i < front.len() implies !key(#[trigger] front[i])(a) by {
                assert(front[i] == gone[i]);
            }
        }
    }
    lemma_filter_congruent(s, both, spared(gone, key));
}

/// Deleting nothing leaves everything.
proof fn lemma_spare_all<A>(s: Seq<A>, gone: Seq<A>, key: spec_fn(A) -> spec_fn(A) -> bool)
    requires
        gone.len() == 0,
    ensures
        s.filter(spared(gone, key)) == s,
{
    let hit = |a: A| !spared(gone, key)(a);
    lemma_filter_none(s, hit);
    lemma_filter_congruent(s, spared(gone, key), |a: A| !hit(a));
}

proof fn lemma_replay_pending(t: Tables, gone: Seq<pending_message::Row>)
    ensures
        replayed(t, dropped_pending(gone)) == (Tables {
            pending: t.pending.filter(spared(gone, pending_keys())),
            ..t
        }),
    decreases gone.len(),
{
    let log = dropped_pending(gone);
    if gone.len() == 0 {
        lemma_spare_all(t.pending, gone, pending_keys());
    } else {
        assert(log.drop_last() =~= dropped_pending(gone.drop_last()));
        lemma_replay_pending(t, gone.drop_last());
        lemma_spare_one(t.pending, gone, pending_keys());
    }
}

proof fn lemma_replay_receipts(t: Tables, gone: Seq<receipt::Row>)
    ensures
        replayed(t, dropped_receipts(gone)) == (Tables {
            receipts: t.receipts.filter(spared(gone, receipt_keys())),
            ..t
        }),
    decreases gone.len(),
{
    let log = dropped_receipts(gone);
    if gone.len() == 0 {
        lemma_spare_all(t.receipts, gone, receipt_keys());
    } else {
        assert(log.drop_last() =~= dropped_receipts(gone.drop_last()));
        lemma_replay_receipts(t, gone.drop_last());
        lemma_spare_one(t.receipts, gone, receipt_keys());
    }
}

proof fn lemma_replay_devices(t: Tables, gone: Seq<device::Row>)
    ensures
        replayed(t, dropped_devices(gone)) == (Tables {
            devices: t.devices.filter(spared(gone, device_keys())),
            ..t
        }),
    decreases gone.len(),
{
    let log = dropped_devices(gone);
    if gone.len() == 0 {
        lemma_spare_all(t.devices, gone, device_keys());
    } else {
        assert(log.drop_last() =~= dropped_devices(gone.drop_last()));
        lemma_replay_devices(t, gone.drop_last());
        lemma_spare_one(t.devices, gone, device_keys());
    }
}

/// Replaying one journal after another is replaying both in a row.
pub proof fn journals_can_be_joined(t: Tables, first: Seq<ChangeView>, second: Seq<ChangeView>)
    ensures
        replayed(t, first + second) == replayed(replayed(t, first), second),
    decreases second.len(),
{
    if second.len() == 0 {
        assert(first + second =~= first);
    } else {
        assert((first + second).drop_last() =~= first + second.drop_last());
        journals_can_be_joined(t, first, second.drop_last());
    }
}

proof fn lemma_replay_store(limits: Limits, t: Tables, m: Sending, now: i64)
    requires
        store_fault(limits, t, m) is None,
    ensures
        replayed(t, store_log(t, m, now)) == after_store(t, m, now),
{
    reveal_with_fuel(replayed, 4);
    let log = store_log(t, m, now);
    if t.receipt_of(m) is None {
        assert(log.drop_last().drop_last() =~= seq![ChangeView::PutCounter(new_counter(t, m))]);
        assert(log.drop_last().drop_last().drop_last() =~= Seq::<ChangeView>::empty());
        let t1 = applied(t, ChangeView::PutCounter(new_counter(t, m)));
        let t2 = applied(t1, ChangeView::PutReceipt(new_receipt(t, m, now)));
        let t3 = applied(t2, ChangeView::PutPending(new_pending(t, m, now)));
        assert(replayed(t, log) == t3);
        assert(t3 =~= after_store(t, m, now));
    }
}

proof fn lemma_replay_device(t: Tables, key: DeviceKey, row: Option<device::Row>)
    requires
        row is Some ==> key.keyed()(row->0),
    ensures
        replayed(t, device_change(row)) == with_cursor(t, key, row),
{
    reveal_with_fuel(replayed, 2);
    if row is Some {
        assert(device_change(row).drop_last() =~= Seq::<ChangeView>::empty());
    }
}

proof fn lemma_replay_prune(
    t: Tables,
    key: DeviceKey,
    row: Option<device::Row>,
    cutoff: i64,
    upto: i64,
)
    requires
        unique_keys(t),
        row is Some ==> key.keyed()(row->0),
    ensures
        ({
            let moved = with_cursor(t, key, row);
            replayed(
                t,
                device_change(row) + dropped_pending(
                    moved.pending.filter(purged(moved, key, cutoff, upto)),
                ),
            ) == after_prune(moved, key, cutoff, upto)
        }),
{
    let moved = with_cursor(t, key, row);
    let p = purged(moved, key, cutoff, upto);
    let gone = moved.pending.filter(p);
    lemma_replay_device(t, key, row);
    journals_can_be_joined(t, device_change(row), dropped_pending(gone));
    lemma_replay_pending(moved, gone);
    lemma_spared(moved.pending, p, pending_keys());
}

/// Writing the journal of an operation to the rows on disk leaves them as the
/// operation leaves the tables.
pub proof fn journals_replay_to_the_next_state(limits: Limits, t: Tables, op: Operation)
    requires
        unique_keys(t),
    ensures
        replayed(t, changes(limits, t, op)) == next(limits, t, op),
{
    match op {
        Operation::Store { message, now } => {
            if store_fault(limits, t, message) is None {
                lemma_replay_store(limits, t, message, now);
            }
        },
        Operation::Register { device, now } => {
            lemma_replay_device(t, device, Some(device.row_with(device.cursor(t), now)));
        },
        Operation::Acknowledge { device, sequence, now } => {
            let upto = clamped(sequence);
            lemma_replay_prune(
                t,
                device,
                acked_row(t, device, upto, now),
                earlier(now, limits.device_retention_secs),
                upto,
            );
        },
        Operation::AcknowledgeHead { device, now } => {
            let head = t.head(device.relay_id, device.endpoint.name());
            lemma_replay_prune(
                t,
                device,
                Some(device.row_with(head, now)),
                earlier(now, limits.device_retention_secs),
                head,
            );
        },
        Operation::Cleanup { now } => {
            let old_receipts = t.receipts.filter(removed_receipt(limits, t, now));
            let old_pending = t.pending.filter(expired_pending(limits, now));
            let old_devices = t.devices.filter(expired_device(limits, now));
            let a = dropped_receipts(old_receipts);
            let b = dropped_pending(old_pending);
            let c = dropped_devices(old_devices);
            journals_can_be_joined(t, a + b, c);
            journals_can_be_joined(t, a, b);
            lemma_replay_receipts(t, old_receipts);
            let t1 = replayed(t, a);
            lemma_replay_pending(t1, old_pending);
            let t2 = replayed(t1, b);
            lemma_replay_devices(t2, old_devices);
            lemma_spared(t.receipts, removed_receipt(limits, t, now), receipt_keys());
            lemma_spared(t.pending, expired_pending(limits, now), pending_keys());
            lemma_spared(t.devices, expired_device(limits, now), device_keys());
        },
    }
}

/// The joined journals of a run of operations, first to last.
pub open spec fn run_changes(limits: Limits, t: Tables, ops: Seq<Operation>) -> Seq<ChangeView>
    decreases ops.len(),
{
    if ops.len() == 0 {
        Seq::empty()
    } else {
        run_changes(limits, t, ops.drop_last()) + changes(
            limits,
            after_run(limits, t, ops.drop_last()),
            ops.last(),
        )
    }
}

/// Writing the journals of a run of operations to consistent rows leaves them
/// as the run leaves the tables, and consistent.
pub proof fn journals_of_runs_replay(limits: Limits, t: Tables, ops: Seq<Operation>)
    requires
        limits.sound(),
        consistent(t),
    ensures
        replayed(t, run_changes(limits, t, ops)) == after_run(limits, t, ops),
        consistent(after_run(limits, t, ops)),
    decreases ops.len(),
{
    if ops.len() > 0 {
        let front = ops.drop_last();
        let before = after_run(limits, t, front);
        let log = changes(limits, before, ops.last());
        journals_of_runs_replay(limits, t, front);
        journals_can_be_joined(t, run_changes(limits, t, front), log);
        journals_replay_to_the_next_state(limits, before, ops.last());
        operations_keep_consistency(limits, before, ops.last());
    }
}

/// Whatever operations a relay ran since it was set up, the rows that its
/// journals left on disk are the state that it was in.
pub proof fn every_run_is_on_disk(limits: Limits, ops: Seq<Operation>)
    requires
        limits.sound(),
    ensures
        replayed(empty_tables(), run_changes(limits, empty_tables(), ops)) == after_run(
            limits,
            empty_tables(),
            ops,
        ),
{
    every_run_is_consistent(limits, Seq::empty());
    journals_of_runs_replay(limits, empty_tables(), ops);
}

/// A run after another is one run.
proof fn lemma_runs_join(limits: Limits, t: Tables, first: Seq<Operation>, second: Seq<Operation>)
    ensures
        after_run(limits, t, first + second) == after_run(
            limits,
            after_run(limits, t, first),
            second,
        ),
    decreases second.len(),
{
    if second.len() == 0 {
        assert(first + second =~= first);
    } else {
        assert((first + second).drop_last() =~= first + second.drop_last());
        lemma_runs_join(limits, t, first, second.drop_last());
    }
}

/// A restart loses nothing and repeats nothing. A relay that starts on the rows
/// that an earlier run left on disk reads every backlog, cursor, head and
/// receipt as the earlier one did, and whatever runs next has the outcome that
/// it would have had without the restart.
pub proof fn restarts_lose_nothing(
    limits: Limits,
    before: Seq<Operation>,
    after: Seq<Operation>,
    key: DeviceKey,
    m: Sending,
)
    requires
        limits.sound(),
    ensures
        ({
            let last = after_run(limits, empty_tables(), before);
            let disk = replayed(empty_tables(), run_changes(limits, empty_tables(), before));
            &&& backlog(disk, key) == backlog(last, key)
            &&& key.cursor(disk) == key.cursor(last)
            &&& disk.head(key.relay_id, key.endpoint.name()) == last.head(
                key.relay_id,
                key.endpoint.name(),
            )
            &&& disk.receipt_of(m) == last.receipt_of(m)
            &&& store_fault(limits, disk, m) == store_fault(limits, last, m)
            &&& after_run(limits, disk, after) == after_run(
                limits,
                empty_tables(),
                before + after,
            )
            &&& replayed(disk, run_changes(limits, disk, after)) == after_run(
                limits,
                empty_tables(),
                before + after,
            )
        }),
{
    every_run_is_on_disk(limits, before);
    every_run_is_consistent(limits, before);
    let disk = after_run(limits, empty_tables(), before);
    journals_of_runs_replay(limits, disk, after);
    lemma_runs_join(limits, empty_tables(), before, after);
}

} // verus!
