//! What holds of the tables in every state that the operations lead to.

use crate::config::Limits;
use crate::entity::{counter, device, pending_message, receipt};
use crate::frame::{endpoints_are_paired, Endpoint};
use crate::operation::{after_run, empty_tables, next, Operation};
use crate::table::{
    distinct, find, lemma_filter_congruent, lemma_filter_distinct, lemma_filter_filter,
    lemma_filter_member, lemma_filter_none, lemma_found, lemma_push_distinct, lemma_put_apart,
    lemma_put_distinct, lemma_put_found, lemma_put_rows, present, without,
};
use crate::tables::{
    acked_row, after_cleanup, after_prune, after_store, clamped, earlier, expired_device,
    expired_pending, expired_receipt, new_counter, new_pending, new_receipt, orphaned_receipt,
    purged, removed_receipt, store_fault, total_bytes, with_cursor, with_device, DeviceKey, Sending,
    Tables,
};
use vstd::prelude::*;

verus! {

pub open spec fn counter_keys() -> spec_fn(counter::Row) -> spec_fn(counter::Row) -> bool {
    |row: counter::Row| counter::same_key(row)
}

pub open spec fn receipt_keys() -> spec_fn(receipt::Row) -> spec_fn(receipt::Row) -> bool {
    |row: receipt::Row| receipt::same_key(row)
}

pub open spec fn pending_keys() -> spec_fn(pending_message::Row) -> spec_fn(
    pending_message::Row,
) -> bool {
    |row: pending_message::Row| pending_message::same_key(row)
}

pub open spec fn device_keys() -> spec_fn(device::Row) -> spec_fn(device::Row) -> bool {
    |row: device::Row| device::same_key(row)
}

/// The receipts of the same sequence of the same direction.
pub open spec fn sequence_keys() -> spec_fn(receipt::Row) -> spec_fn(receipt::Row) -> bool {
    |row: receipt::Row| same_sequence(row)
}

/// The receipt of the same sequence of the same direction.
pub open spec fn same_sequence(row: receipt::Row) -> spec_fn(receipt::Row) -> bool {
    |other: receipt::Row|
        other.relay_id == row.relay_id && other.destination == row.destination && other.sequence
            == row.sequence
}

/// Every table has at most one row for a primary key.
pub open spec fn unique_keys(t: Tables) -> bool {
    &&& distinct(t.counters, counter_keys())
    &&& distinct(t.receipts, receipt_keys())
    &&& distinct(t.pending, pending_keys())
    &&& distinct(t.devices, device_keys())
}

/// The wire name of the endpoint that sends to `destination`.
pub open spec fn sender_name(destination: Seq<char>) -> Seq<char> {
    if destination == Endpoint::One.name() {
        Endpoint::Two.name()
    } else {
        Endpoint::One.name()
    }
}

/// The receipt of a pending message.
pub open spec fn vouches(p: pending_message::Row) -> spec_fn(receipt::Row) -> bool {
    |r: receipt::Row|
        {
            &&& r.relay_id == p.relay_id
            &&& r.source == sender_name(p.destination)
            &&& r.destination == p.destination
            &&& r.sequence == p.sequence
            &&& r.message_id == p.message_id
            &&& r.created_at == p.created_at
        }
}

/// The sequence was given out.
pub open spec fn given_out(
    t: Tables,
    relay_id: Seq<char>,
    destination: Seq<char>,
    sequence: i64,
) -> bool {
    1 <= sequence <= t.head(relay_id, destination)
}

/// The invariant of the tables: keys are unique, every sequence in use was
/// given out, a sequence has one receipt, every pending message has one, and
/// its size is that of its payload.
pub open spec fn consistent(t: Tables) -> bool {
    &&& unique_keys(t)
    &&& distinct(t.receipts, sequence_keys())
    &&& forall|i: int| 0 <= i < t.counters.len() ==> (#[trigger] t.counters[i]).next_sequence >= 0
    &&& forall|i: int|
        0 <= i < t.pending.len() ==> given_out(
            t,
            (#[trigger] t.pending[i]).relay_id,
            t.pending[i].destination,
            t.pending[i].sequence,
        )
    &&& forall|i: int|
        0 <= i < t.receipts.len() ==> given_out(
            t,
            (#[trigger] t.receipts[i]).relay_id,
            t.receipts[i].destination,
            t.receipts[i].sequence,
        )
    &&& forall|i: int|
        0 <= i < t.pending.len() ==> present(t.receipts, vouches(#[trigger] t.pending[i]))
    &&& forall|i: int|
        0 <= i < t.pending.len() ==> (#[trigger] t.pending[i]).payload_bytes
            == t.pending[i].payload.len()
}

/// The head of a consistent table is not negative.
pub proof fn lemma_head_nonnegative(t: Tables, relay_id: Seq<char>, destination: Seq<char>)
    requires
        consistent(t),
    ensures
        t.head(relay_id, destination) >= 0,
{
    let p = counter::keyed(relay_id, destination);
    if find(t.counters, p) is Some {
        lemma_found(t.counters, p);
        let i = t.counters.index_of(find(t.counters, p)->0);
        assert(t.counters[i].next_sequence >= 0);
    }
}

/// A new message moves the head of its own direction by one and no other.
pub proof fn lemma_store_heads(t: Tables, m: Sending, now: i64)
    requires
        t.receipt_of(m) is None,
        t.head(m.relay_id, m.destination()) < i64::MAX,
    ensures
        after_store(t, m, now).head(m.relay_id, m.destination()) == t.head(
            m.relay_id,
            m.destination(),
        ) + 1,
        forall|r: Seq<char>, d: Seq<char>|
            !(r == m.relay_id && d == m.destination()) ==> #[trigger] after_store(t, m, now).head(
                r,
                d,
            ) == t.head(r, d),
{
    let p = counter::keyed(m.relay_id, m.destination());
    lemma_put_found(t.counters, p, new_counter(t, m));
    assert forall|r: Seq<char>, d: Seq<char>|
        !(r == m.relay_id && d == m.destination()) implies #[trigger] after_store(t, m, now).head(
        r,
        d,
    ) == t.head(r, d) by {
        lemma_put_apart(t.counters, p, new_counter(t, m), counter::keyed(r, d));
    }
}

/// The sender of a message is the endpoint that sends to its destination.
pub proof fn lemma_sender_name(m: Sending)
    ensures
        sender_name(m.destination()) == m.source.name(),
{
    endpoints_are_paired(m.source);
    endpoints_are_paired(Endpoint::One);
}

proof fn lemma_store_consistent(limits: Limits, t: Tables, m: Sending, now: i64)
    requires
        consistent(t),
        store_fault(limits, t, m) is None,
    ensures
        consistent(after_store(t, m, now)),
{
    let t1 = after_store(t, m, now);
    if t.receipt_of(m) is None {
        let head = t.head(m.relay_id, m.destination());
        let counter_row = new_counter(t, m);
        let receipt_row = new_receipt(t, m, now);
        let pending_row = new_pending(t, m, now);
        lemma_head_nonnegative(t, m.relay_id, m.destination());
        lemma_store_heads(t, m, now);
        lemma_put_distinct(t.counters, counter_row, counter_keys());
        assert(counter_keys()(counter_row) == counter::keyed(m.relay_id, m.destination()));
        assert(receipt_keys()(receipt_row) == receipt::keyed(
            m.relay_id,
            m.source.name(),
            m.message_id,
        ));
        lemma_push_distinct(t.receipts, receipt_row, receipt_keys());
        assert(!present(t.receipts, same_sequence(receipt_row)));
        lemma_push_distinct(t.receipts, receipt_row, sequence_keys());
        assert(!present(t.pending, pending_message::same_key(pending_row)));
        lemma_push_distinct(t.pending, pending_row, pending_keys());
        assert forall|i: int| 0 <= i < t1.counters.len() implies (#[trigger] t1.counters[i]).next_sequence
            >= 0 by {
            lemma_put_rows(
                t.counters,
                counter::keyed(m.relay_id, m.destination()),
                counter_row,
            );
        }
        assert forall|i: int| 0 <= i < t1.pending.len() implies given_out(
            t1,
            (#[trigger] t1.pending[i]).relay_id,
            t1.pending[i].destination,
            t1.pending[i].sequence,
        ) by {
            if i < t.pending.len() {
                assert(t1.pending[i] == t.pending[i]);
            }
        }
        assert forall|i: int| 0 <= i < t1.receipts.len() implies given_out(
            t1,
            (#[trigger] t1.receipts[i]).relay_id,
            t1.receipts[i].destination,
            t1.receipts[i].sequence,
        ) by {
            if i < t.receipts.len() {
                assert(t1.receipts[i] == t.receipts[i]);
            }
        }
        assert forall|i: int| 0 <= i < t1.pending.len() implies present(
            t1.receipts,
            vouches(#[trigger] t1.pending[i]),
        ) by {
            if i < t.pending.len() {
                assert(t1.pending[i] == t.pending[i]);
                let p = vouches(t.pending[i]);
                let k = choose|k: int| 0 <= k < t.receipts.len() && p(#[trigger] t.receipts[k]);
                assert(t1.receipts[k] == t.receipts[k]);
                assert(p(t1.receipts[k]));
            } else {
                lemma_sender_name(m);
                assert(vouches(pending_row)(t1.receipts[t.receipts.len() as int]));
            }
        }
    }
}

proof fn lemma_device_consistent(t: Tables, key: DeviceKey, acked: i64, seen: i64)
    requires
        consistent(t),
    ensures
        consistent(with_device(t, key, key.row_with(acked, seen))),
{
    let row = key.row_with(acked, seen);
    lemma_put_distinct(t.devices, row, device_keys());
    assert(device_keys()(row) == key.keyed());
    let t1 = with_device(t, key, row);
    assert(forall|r: Seq<char>, d: Seq<char>| t1.head(r, d) == t.head(r, d));
    assert(t1.pending == t.pending && t1.receipts == t.receipts);
}

/// Dropping pending messages, and receipts that no message left behind needs,
/// keeps the tables consistent.
proof fn lemma_drop_consistent(
    t: Tables,
    p: spec_fn(pending_message::Row) -> bool,
    q: spec_fn(receipt::Row) -> bool,
    d: spec_fn(device::Row) -> bool,
)
    requires
        consistent(t),
        forall|i: int, k: int|
            0 <= i < t.pending.len() && 0 <= k < t.receipts.len() && !p(#[trigger] t.pending[i])
                && vouches(t.pending[i])(#[trigger] t.receipts[k]) ==> !q(t.receipts[k]),
    ensures
        consistent(
            Tables {
                counters: t.counters,
                receipts: without(t.receipts, q),
                pending: without(t.pending, p),
                devices: without(t.devices, d),
            },
        ),
{
    let keep_p = |a: pending_message::Row| !p(a);
    let keep_q = |a: receipt::Row| !q(a);
    let keep_d = |a: device::Row| !d(a);
    let t1 = Tables {
        counters: t.counters,
        receipts: without(t.receipts, q),
        pending: without(t.pending, p),
        devices: without(t.devices, d),
    };
    lemma_filter_distinct(t.pending, keep_p, pending_keys());
    lemma_filter_distinct(t.receipts, keep_q, receipt_keys());
    lemma_filter_distinct(t.receipts, keep_q, sequence_keys());
    lemma_filter_distinct(t.devices, keep_d, device_keys());
    assert(forall|r: Seq<char>, e: Seq<char>| t1.head(r, e) == t.head(r, e));
    assert forall|i: int| 0 <= i < t1.pending.len() implies given_out(
        t1,
        (#[trigger] t1.pending[i]).relay_id,
        t1.pending[i].destination,
        t1.pending[i].sequence,
    ) && present(t1.receipts, vouches(t1.pending[i])) && t1.pending[i].payload_bytes
        == t1.pending[i].payload.len() by {
        let row = t1.pending[i];
        assert(t1.pending.contains(row));
        lemma_filter_member(t.pending, keep_p, row);
        let k = t.pending.index_of(row);
        assert(t.pending[k] == row);
        let v = vouches(row);
        let j = choose|j: int| 0 <= j < t.receipts.len() && v(#[trigger] t.receipts[j]);
        assert(!q(t.receipts[j]));
        lemma_filter_member(t.receipts, keep_q, t.receipts[j]);
        assert(t.receipts.contains(t.receipts[j]));
        let n = t1.receipts.index_of(t.receipts[j]);
        assert(v(t1.receipts[n]));
    }
    assert forall|i: int| 0 <= i < t1.receipts.len() implies given_out(
        t1,
        (#[trigger] t1.receipts[i]).relay_id,
        t1.receipts[i].destination,
        t1.receipts[i].sequence,
    ) by {
        let row = t1.receipts[i];
        assert(t1.receipts.contains(row));
        lemma_filter_member(t.receipts, keep_q, row);
        let k = t.receipts.index_of(row);
        assert(t.receipts[k] == row);
    }
}

proof fn lemma_prune_consistent(t: Tables, key: DeviceKey, cutoff: i64, upto: i64)
    requires
        consistent(t),
    ensures
        consistent(after_prune(t, key, cutoff, upto)),
{
    let none_r = |r: receipt::Row| false;
    let none_d = |d: device::Row| false;
    lemma_drop_consistent(t, purged(t, key, cutoff, upto), none_r, none_d);
    lemma_filter_none(t.receipts, none_r);
    lemma_filter_none(t.devices, none_d);
    assert(after_prune(t, key, cutoff, upto) == (Tables {
        counters: t.counters,
        receipts: without(t.receipts, none_r),
        pending: without(t.pending, purged(t, key, cutoff, upto)),
        devices: without(t.devices, none_d),
    }));
}

/// A receipt that a cleanup removes for its age alone belongs to no message
/// that still waits: such a message would be older than the pending retention
/// too, and goes in the same cleanup.
pub proof fn old_receipts_have_no_waiting_message(
    limits: Limits,
    t: Tables,
    now: i64,
    message: pending_message::Row,
    receipt: receipt::Row,
)
    requires
        limits.sound(),
        vouches(message)(receipt),
        t.pending.contains(message),
        expired_receipt(limits, now)(receipt),
    ensures
        expired_pending(limits, now)(message),
        orphaned_receipt(limits, t, now)(receipt),
{
    let expired = expired_pending(limits, now);
    lemma_filter_member(t.pending, expired, message);
    let gone = t.pending.filter(expired);
    let k = gone.index_of(message);
    assert(pending_message::keyed(receipt.relay_id, receipt.destination, receipt.sequence)(gone[k]));
}

proof fn lemma_cleanup_consistent(limits: Limits, t: Tables, now: i64)
    requires
        consistent(t),
        limits.sound(),
    ensures
        consistent(after_cleanup(limits, t, now)),
{
    let p = expired_pending(limits, now);
    let q = removed_receipt(limits, t, now);
    let d = expired_device(limits, now);
    assert forall|i: int, k: int|
        0 <= i < t.pending.len() && 0 <= k < t.receipts.len() && !p(#[trigger] t.pending[i])
            && vouches(t.pending[i])(#[trigger] t.receipts[k]) implies !q(t.receipts[k]) by {
        let message = t.pending[i];
        let receipt = t.receipts[k];
        assert(t.pending.contains(message));
        if expired_receipt(limits, now)(receipt) {
            old_receipts_have_no_waiting_message(limits, t, now, message, receipt);
        }
        if orphaned_receipt(limits, t, now)(receipt) {
            let gone = t.pending.filter(p);
            let same = pending_message::keyed(
                receipt.relay_id,
                receipt.destination,
                receipt.sequence,
            );
            let j = choose|j: int| 0 <= j < gone.len() && same(#[trigger] gone[j]);
            assert(gone.contains(gone[j]));
            lemma_filter_member(t.pending, p, gone[j]);
            let n = t.pending.index_of(gone[j]);
            assert(t.pending[n] == gone[j]);
            assert(n != i);
            if n < i {
                assert(!pending_keys()(t.pending[n])(t.pending[i]));
            } else {
                assert(!pending_keys()(t.pending[i])(t.pending[n]));
            }
        }
    }
    lemma_drop_consistent(t, p, q, d);
}

/// Every operation keeps the tables consistent.
pub proof fn operations_keep_consistency(limits: Limits, t: Tables, op: Operation)
    requires
        consistent(t),
        limits.sound(),
    ensures
        consistent(next(limits, t, op)),
{
    match op {
        Operation::Store { message, now } => {
            if store_fault(limits, t, message) is None {
                lemma_store_consistent(limits, t, message, now);
            }
        },
        Operation::Register { device, now } => {
            lemma_device_consistent(t, device, device.cursor(t), now);
        },
        Operation::Acknowledge { device, sequence, now } => {
            let upto = clamped(sequence);
            let row = acked_row(t, device, upto, now);
            let since = earlier(now, limits.device_retention_secs);
            if row is Some {
                lemma_device_consistent(t, device, upto, now);
            }
            lemma_prune_consistent(with_cursor(t, device, row), device, since, upto);
        },
        Operation::AcknowledgeHead { device, now } => {
            let head = t.head(device.relay_id, device.endpoint.name());
            let since = earlier(now, limits.device_retention_secs);
            lemma_device_consistent(t, device, head, now);
            lemma_prune_consistent(
                with_device(t, device, device.row_with(head, now)),
                device,
                since,
                head,
            );
        },
        Operation::Cleanup { now } => {
            lemma_cleanup_consistent(limits, t, now);
        },
    }
}

/// Whatever operations run, in whatever order and at whatever times, a relay
/// that starts empty has consistent tables.
pub proof fn every_run_is_consistent(limits: Limits, ops: Seq<Operation>)
    requires
        limits.sound(),
    ensures
        consistent(after_run(limits, empty_tables(), ops)),
    decreases ops.len(),
{
    if ops.len() > 0 {
        every_run_is_consistent(limits, ops.drop_last());
        operations_keep_consistency(
            limits,
            after_run(limits, empty_tables(), ops.drop_last()),
            ops.last(),
        );
    }
}

/// Sequences are never reused: the sequence of a new message follows the last
/// one given out, and lies beyond every sequence of its direction in use.
pub proof fn sequences_are_never_reused(limits: Limits, t: Tables, m: Sending, now: i64)
    requires
        consistent(t),
        store_fault(limits, t, m) is None,
        t.receipt_of(m) is None,
    ensures
        ({
            let sequence = new_pending(t, m, now).sequence;
            &&& sequence == t.head(m.relay_id, m.destination()) + 1
            &&& after_store(t, m, now).head(m.relay_id, m.destination()) == sequence
            &&& forall|i: int|
                0 <= i < t.pending.len() && (#[trigger] t.pending[i]).relay_id == m.relay_id
                    && t.pending[i].destination == m.destination() ==> t.pending[i].sequence
                    < sequence
            &&& forall|i: int|
                0 <= i < t.receipts.len() && (#[trigger] t.receipts[i]).relay_id == m.relay_id
                    && t.receipts[i].destination == m.destination() ==> t.receipts[i].sequence
                    < sequence
        }),
{
    lemma_store_heads(t, m, now);
}

/// No operation takes a sequence back: the heads never fall.
pub proof fn heads_never_fall(
    limits: Limits,
    t: Tables,
    op: Operation,
    relay_id: Seq<char>,
    destination: Seq<char>,
)
    ensures
        next(limits, t, op).head(relay_id, destination) >= t.head(relay_id, destination),
{
    match op {
        Operation::Store { message, now } => {
            if store_fault(limits, t, message) is None && t.receipt_of(message) is None {
                lemma_store_heads(t, message, now);
            }
        },
        _ => {},
    }
}

/// The queue of every direction keeps to the limits.
pub open spec fn within_limits(limits: Limits, t: Tables) -> bool {
    forall|r: Seq<char>, d: Seq<char>|
        {
            &&& (#[trigger] t.queue(r, d)).len() <= limits.max_pending_messages
            &&& total_bytes(t.queue(r, d)) <= limits.max_pending_bytes
        }
}

proof fn lemma_fewer_bytes(s: Seq<pending_message::Row>, keep: spec_fn(pending_message::Row) -> bool)
    requires
        forall|i: int| 0 <= i < s.len() ==> (#[trigger] s[i]).payload_bytes >= 0,
    ensures
        total_bytes(s.filter(keep)) <= total_bytes(s),
        s.filter(keep).len() <= s.len(),
    decreases s.len(),
{
    reveal(Seq::filter);
    if s.len() > 0 {
        let front = s.drop_last();
        assert forall|i: int| 0 <= i < front.len() implies (#[trigger] front[i]).payload_bytes >= 0 by {
            assert(front[i] == s[i]);
        }
        lemma_fewer_bytes(front, keep);
        assert(s.last() == s[s.len() - 1]);
        let f = front.filter(keep);
        assert(f.push(s.last()).drop_last() =~= f);
    }
}

/// Dropping pending messages leaves the queues within the limits.
proof fn lemma_drop_within(
    limits: Limits,
    t: Tables,
    t1: Tables,
    p: spec_fn(pending_message::Row) -> bool,
)
    requires
        consistent(t),
        within_limits(limits, t),
        t1.pending == without(t.pending, p),
    ensures
        within_limits(limits, t1),
{
    let keep = |row: pending_message::Row| !p(row);
    assert forall|r: Seq<char>, d: Seq<char>|
        {
            &&& (#[trigger] t1.queue(r, d)).len() <= limits.max_pending_messages
            &&& total_bytes(t1.queue(r, d)) <= limits.max_pending_bytes
        } by {
        let c = pending_message::in_channel(r, d);
        let q = t.queue(r, d);
        lemma_filter_filter(t.pending, keep, c);
        lemma_filter_filter(t.pending, c, keep);
        lemma_filter_congruent(
            t.pending,
            |a: pending_message::Row| keep(a) && c(a),
            |a: pending_message::Row| c(a) && keep(a),
        );
        assert(t1.queue(r, d) == q.filter(keep));
        assert forall|i: int| 0 <= i < q.len() implies (#[trigger] q[i]).payload_bytes >= 0 by {
            assert(q.contains(q[i]));
            lemma_filter_member(t.pending, c, q[i]);
            let k = t.pending.index_of(q[i]);
            assert(t.pending[k].payload_bytes == t.pending[k].payload.len());
        }
        lemma_fewer_bytes(q, keep);
    }
}

/// No operation takes a queue beyond the limits.
pub proof fn queues_keep_to_the_limits(limits: Limits, t: Tables, op: Operation)
    requires
        consistent(t),
        within_limits(limits, t),
    ensures
        within_limits(limits, next(limits, t, op)),
{
    let t1 = next(limits, t, op);
    match op {
        Operation::Store { message, now } => {
            if store_fault(limits, t, message) is None && t.receipt_of(message) is None {
                let row = new_pending(t, message, now);
                assert forall|r: Seq<char>, d: Seq<char>|
                    {
                        &&& (#[trigger] t1.queue(r, d)).len() <= limits.max_pending_messages
                        &&& total_bytes(t1.queue(r, d)) <= limits.max_pending_bytes
                    } by {
                    let c = pending_message::in_channel(r, d);
                    let q = t.queue(r, d);
                    t.pending.lemma_filter_push(row, c);
                    assert(q.push(row).drop_last() =~= q);
                }
            }
        },
        Operation::Register { device, now } => {
            assert(forall|r: Seq<char>, d: Seq<char>| t1.queue(r, d) == t.queue(r, d));
        },
        Operation::Acknowledge { device, sequence, now } => {
            let upto = clamped(sequence);
            let row = acked_row(t, device, upto, now);
            let since = earlier(now, limits.device_retention_secs);
            lemma_drop_within(
                limits,
                t,
                t1,
                purged(with_cursor(t, device, row), device, since, upto),
            );
        },
        Operation::AcknowledgeHead { device, now } => {
            let head = t.head(device.relay_id, device.endpoint.name());
            let since = earlier(now, limits.device_retention_secs);
            let moved = with_device(t, device, device.row_with(head, now));
            lemma_drop_within(limits, t, t1, purged(moved, device, since, head));
        },
        Operation::Cleanup { now } => {
            lemma_drop_within(limits, t, t1, expired_pending(limits, now));
        },
    }
}

/// Whatever operations run, the queues of a relay that starts empty keep to
/// the limits.
pub proof fn every_run_keeps_to_the_limits(limits: Limits, ops: Seq<Operation>)
    requires
        limits.sound(),
    ensures
        within_limits(limits, after_run(limits, empty_tables(), ops)),
    decreases ops.len(),
{
    if ops.len() > 0 {
        let before = after_run(limits, empty_tables(), ops.drop_last());
        every_run_is_consistent(limits, ops.drop_last());
        every_run_keeps_to_the_limits(limits, ops.drop_last());
        queues_keep_to_the_limits(limits, before, ops.last());
    } else {
        let t = empty_tables();
        assert forall|r: Seq<char>, d: Seq<char>|
            {
                &&& (#[trigger] t.queue(r, d)).len() <= limits.max_pending_messages
                &&& total_bytes(t.queue(r, d)) <= limits.max_pending_bytes
            } by {
            lemma_filter_none(t.pending, pending_message::in_channel(r, d));
        }
    }
}

} // verus!
