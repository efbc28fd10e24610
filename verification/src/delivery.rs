//! What the relay promises about the delivery of messages.

use crate::config::Limits;
use crate::consistency::{
    consistent, given_out, heads_never_fall, lemma_head_nonnegative, operations_keep_consistency,
    pending_keys, unique_keys,
};
use crate::database::store_log;
use crate::entity::{device, pending_message, receipt};
use crate::frame::lemma_names;
use crate::journal::ChangeView;
use crate::operation::{after_run, next, Operation};
use crate::table::{
    first_at, lemma_filter_congruent, lemma_filter_filter, lemma_filter_member, lemma_filter_none,
    lemma_find_kept, lemma_find_push, lemma_first, lemma_found, lemma_push_found, lemma_push_member,
    lemma_put_apart, lemma_put_found, present,
};
use crate::tables::{
    acked_row, after_ack, after_ack_head, after_prune, after_store, clamped, delivery, earlier,
    expired_device, expired_pending, form_fault, new_pending, new_receipt, purged, store_delivery,
    store_fault, unacknowledged, with_cursor, with_device, DeviceKey, Sending, StoreError, Tables,
};
use vstd::prelude::*;

verus! {

/// The messages that a device has yet to acknowledge.
pub open spec fn backlog(t: Tables, key: DeviceKey) -> Seq<pending_message::Row> {
    t.pending.filter(unacknowledged(t, key))
}

/// The device is known, and was seen recently enough at `now` that its cursor
/// holds messages back.
pub open spec fn holds_back(limits: Limits, t: Tables, key: DeviceKey, now: i64) -> bool {
    &&& key.row(t) is Some
    &&& key.row(t)->0.last_seen_at >= earlier(now, limits.device_retention_secs)
}

/// Moving one device's cursor leaves the other devices' rows alone.
pub proof fn lemma_other_device(t: Tables, key: DeviceKey, row: device::Row, other: DeviceKey)
    requires
        key != other,
        key.keyed()(row),
    ensures
        other.row(with_device(t, key, row)) == other.row(t),
        other.cursor(with_device(t, key, row)) == other.cursor(t),
{
    lemma_names(key.endpoint, other.endpoint);
    lemma_put_apart(t.devices, key.keyed(), row, other.keyed());
}

/// The written row of a device is its row.
pub proof fn lemma_own_device(t: Tables, key: DeviceKey, row: device::Row)
    requires
        key.keyed()(row),
    ensures
        key.row(with_device(t, key, row)) == Some(row),
        key.cursor(with_device(t, key, row)) == row.last_acked_sequence,
{
    lemma_put_found(t.devices, key.keyed(), row);
}

/// No purge takes a message that a device with a recent sign of life has yet
/// to acknowledge.
proof fn lemma_not_purged(
    t: Tables,
    acking: DeviceKey,
    cutoff: i64,
    upto: i64,
    key: DeviceKey,
    row: pending_message::Row,
)
    requires
        key.row(t) is Some,
        key.row(t)->0.last_seen_at >= cutoff,
        unacknowledged(t, key)(row),
        acking == key ==> row.sequence > upto,
    ensures
        !purged(t, acking, cutoff, upto)(row),
{
    lemma_names(acking.endpoint, key.endpoint);
    if purged(t, acking, cutoff, upto)(row) {
        assert(acking.relay_id == key.relay_id);
        assert(acking.endpoint == key.endpoint);
        if row.target_device_id is None {
            let seen = device::active(acking.relay_id, acking.endpoint.name(), cutoff);
            lemma_found(t.devices, key.keyed());
            let i = choose|i: int| first_at(t.devices, key.keyed(), i) && key.row(t) == Some(
                t.devices[i],
            );
            assert(seen(t.devices[i]));
            assert(present(t.devices, seen));
            assert(row.sequence <= t.devices[i].last_acked_sequence);
        } else {
            assert(acking.device_id == key.device_id);
            assert(acking == key);
        }
    }
}

/// The operation settles the message for the device: the device acknowledged
/// it or skipped its backlog, or the message expired.
pub open spec fn settles(
    limits: Limits,
    op: Operation,
    key: DeviceKey,
    row: pending_message::Row,
) -> bool {
    match op {
        Operation::Acknowledge { device, sequence, .. } => device == key && row.sequence <= clamped(
            sequence,
        ),
        Operation::AcknowledgeHead { device, .. } => device == key,
        Operation::Cleanup { now } => expired_pending(limits, now)(row),
        _ => false,
    }
}

/// Delivery is at least once: a message that a device has yet to acknowledge
/// stays in its backlog through every operation that does not settle it, as
/// long as the device is not away for longer than the device retention.
pub proof fn unacknowledged_messages_survive(
    limits: Limits,
    t: Tables,
    op: Operation,
    key: DeviceKey,
    row: pending_message::Row,
)
    requires
        limits.sound(),
        holds_back(limits, t, key, op.time()),
        backlog(t, key).contains(row),
        !settles(limits, op, key, row),
    ensures
        backlog(next(limits, t, op), key).contains(row),
{
    let t1 = next(limits, t, op);
    lemma_filter_member(t.pending, unacknowledged(t, key), row);
    match op {
        Operation::Store { message, now } => {
            if store_fault(limits, t, message) is None && t.receipt_of(message) is None {
                lemma_push_member(t.pending, new_pending(t, message, now), row);
            }
        },
        Operation::Register { device, now } => {
            let written = device.row_with(device.cursor(t), now);
            if device == key {
                lemma_own_device(t, key, written);
            } else {
                lemma_other_device(t, device, written, key);
            }
        },
        Operation::Acknowledge { device, sequence, now } => {
            let upto = clamped(sequence);
            let written = acked_row(t, device, upto, now);
            lemma_survives_ack(limits, t, device, written, upto, now, key, row);
        },
        Operation::AcknowledgeHead { device, now } => {
            let head = t.head(device.relay_id, device.endpoint.name());
            lemma_survives_ack(
                limits,
                t,
                device,
                Some(device.row_with(head, now)),
                head,
                now,
                key,
                row,
            );
        },
        Operation::Cleanup { now } => {
            let keep = |p: pending_message::Row| !expired_pending(limits, now)(p);
            lemma_filter_member(t.pending, keep, row);
            let gone = expired_device(limits, now);
            let stay = |d: device::Row| !gone(d);
            lemma_found(t.devices, key.keyed());
            let i = choose|i: int| first_at(t.devices, key.keyed(), i) && key.row(t) == Some(
                t.devices[i],
            );
            lemma_find_kept(t.devices, stay, key.keyed(), i);
        },
    }
    lemma_filter_member(t1.pending, unacknowledged(t1, key), row);
}

proof fn lemma_survives_ack(
    limits: Limits,
    t: Tables,
    acking: DeviceKey,
    written: Option<device::Row>,
    upto: i64,
    now: i64,
    key: DeviceKey,
    row: pending_message::Row,
)
    requires
        limits.sound(),
        holds_back(limits, t, key, now),
        t.pending.contains(row),
        unacknowledged(t, key)(row),
        written is Some ==> written == Some(acking.row_with(upto, now)),
        acking == key ==> row.sequence > upto,
    ensures
        ({
            let moved = with_cursor(t, acking, written);
            let t1 = after_prune(moved, acking, earlier(now, limits.device_retention_secs), upto);
            t1.pending.contains(row) && unacknowledged(t1, key)(row)
        }),
{
    let since = earlier(now, limits.device_retention_secs);
    let moved = with_cursor(t, acking, written);
    if written is Some {
        if acking == key {
            lemma_own_device(t, key, written->0);
        } else {
            lemma_other_device(t, acking, written->0, key);
        }
    }
    let p = purged(moved, acking, since, upto);
    lemma_not_purged(moved, acking, since, upto, key, row);
    lemma_filter_member(t.pending, |a: pending_message::Row| !p(a), row);
}

/// What a read gives back of a write: a newly stored message is appended to
/// the backlog of every device that it is meant for and whose cursor it lies
/// beyond, and no other backlog changes.
pub proof fn stored_messages_join_the_backlog(
    limits: Limits,
    t: Tables,
    m: Sending,
    now: i64,
    key: DeviceKey,
)
    requires
        store_fault(limits, t, m) is None,
        t.receipt_of(m) is None,
    ensures
        ({
            let row = new_pending(t, m, now);
            let joins = {
                &&& key.relay_id == m.relay_id
                &&& key.endpoint == m.source.other()
                &&& key.cursor(t) <= t.head(m.relay_id, m.destination())
                &&& pending_message::meant_for(row, key.device_id)
            };
            backlog(after_store(t, m, now), key) == if joins {
                backlog(t, key).push(row)
            } else {
                backlog(t, key)
            }
        }),
{
    let row = new_pending(t, m, now);
    let t1 = after_store(t, m, now);
    lemma_names(key.endpoint, m.source.other());
    assert(t1.devices == t.devices);
    assert(key.cursor(t1) == key.cursor(t));
    lemma_filter_congruent(t1.pending, unacknowledged(t1, key), unacknowledged(t, key));
    t.pending.lemma_filter_push(row, unacknowledged(t, key));
}

/// A run of operations, none of which settles the message, leaves it in the
/// backlog of a device that keeps showing up.
pub open spec fn leaves_open(
    limits: Limits,
    t: Tables,
    ops: Seq<Operation>,
    key: DeviceKey,
    row: pending_message::Row,
) -> bool {
    forall|i: int|
        0 <= i < ops.len() ==> {
            &&& holds_back(
                limits,
                after_run(limits, t, ops.take(i)),
                key,
                (#[trigger] ops[i]).time(),
            )
            &&& !settles(limits, ops[i], key, row)
        }
}

/// A message stays in the backlog through any run of operations that does not
/// settle it.
pub proof fn unacknowledged_messages_survive_runs(
    limits: Limits,
    t: Tables,
    ops: Seq<Operation>,
    key: DeviceKey,
    row: pending_message::Row,
)
    requires
        limits.sound(),
        backlog(t, key).contains(row),
        leaves_open(limits, t, ops, key, row),
    ensures
        backlog(after_run(limits, t, ops), key).contains(row),
    decreases ops.len(),
{
    if ops.len() > 0 {
        let front = ops.drop_last();
        assert forall|i: int| 0 <= i < front.len() implies {
            &&& holds_back(
                limits,
                after_run(limits, t, front.take(i)),
                key,
                (#[trigger] front[i]).time(),
            )
            &&& !settles(limits, front[i], key, row)
        } by {
            assert(front[i] == ops[i]);
            assert(front.take(i) =~= ops.take(i));
        }
        unacknowledged_messages_survive_runs(limits, t, front, key, row);
        let last = ops.len() - 1;
        assert(ops[last] == ops.last());
        assert(ops.take(last) =~= front);
        unacknowledged_messages_survive(
            limits,
            after_run(limits, t, front),
            ops.last(),
            key,
            row,
        );
    }
}

/// An acknowledgement moves the cursor of its device forward and never back.
pub proof fn cursors_never_move_back(
    limits: Limits,
    t: Tables,
    key: DeviceKey,
    sequence: u64,
    now: i64,
    other: DeviceKey,
)
    ensures
        ({
            let t1 = after_ack(limits, t, key, sequence, now);
            let upto = clamped(sequence);
            other.cursor(t1) == if other == key && upto > key.cursor(t) {
                upto
            } else {
                other.cursor(t)
            }
        }),
{
    let upto = clamped(sequence);
    let written = acked_row(t, key, upto, now);
    if written is Some {
        if other == key {
            lemma_own_device(t, key, written->0);
        } else {
            lemma_other_device(t, key, written->0, other);
        }
    }
}

/// An acknowledgement is cumulative: it takes exactly the messages up to its
/// sequence out of the backlog of its device.
pub proof fn acknowledgements_are_cumulative(
    limits: Limits,
    t: Tables,
    key: DeviceKey,
    sequence: u64,
    now: i64,
)
    requires
        limits.sound(),
        holds_back(limits, t, key, now) || key.row(t) is None || clamped(sequence) > key.cursor(t),
    ensures
        backlog(after_ack(limits, t, key, sequence, now), key) == backlog(t, key).filter(
            |row: pending_message::Row| row.sequence > clamped(sequence),
        ),
{
    let upto = clamped(sequence);
    let since = earlier(now, limits.device_retention_secs);
    let written = acked_row(t, key, upto, now);
    let moved = with_cursor(t, key, written);
    let t1 = after_ack(limits, t, key, sequence, now);
    if written is Some {
        lemma_own_device(t, key, written->0);
    }
    let p = purged(moved, key, since, upto);
    let keep = |row: pending_message::Row| !p(row);
    let open = unacknowledged(t, key);
    let later = |row: pending_message::Row| row.sequence > upto;
    let kept_open = |row: pending_message::Row| keep(row) && unacknowledged(t1, key)(row);
    let open_later = |row: pending_message::Row| open(row) && later(row);
    lemma_filter_filter(t.pending, keep, unacknowledged(t1, key));
    lemma_filter_filter(t.pending, open, later);
    assert forall|i: int| 0 <= i < t.pending.len() implies kept_open(#[trigger] t.pending[i])
        == open_later(t.pending[i]) by {
        let row = t.pending[i];
        assert(unacknowledged(t1, key)(row) == unacknowledged(moved, key)(row));
        if unacknowledged(moved, key)(row) && row.sequence > upto {
            lemma_not_purged(moved, key, since, upto, key, row);
        }
    }
    lemma_filter_congruent(t.pending, kept_open, open_later);
}

/// An acknowledgement by one device takes nothing from the backlog of another
/// that holds messages back.
pub proof fn acknowledgements_spare_other_devices(
    limits: Limits,
    t: Tables,
    key: DeviceKey,
    sequence: u64,
    now: i64,
    other: DeviceKey,
)
    requires
        limits.sound(),
        other != key,
        holds_back(limits, t, other, now),
    ensures
        backlog(after_ack(limits, t, key, sequence, now), other) == backlog(t, other),
        holds_back(limits, after_ack(limits, t, key, sequence, now), other, now),
{
    let upto = clamped(sequence);
    lemma_spares(limits, t, key, acked_row(t, key, upto, now), upto, now, other);
}

proof fn lemma_spares(
    limits: Limits,
    t: Tables,
    key: DeviceKey,
    written: Option<device::Row>,
    upto: i64,
    now: i64,
    other: DeviceKey,
)
    requires
        limits.sound(),
        other != key,
        holds_back(limits, t, other, now),
        written is Some ==> written == Some(key.row_with(upto, now)),
    ensures
        ({
            let moved = with_cursor(t, key, written);
            let t1 = after_prune(moved, key, earlier(now, limits.device_retention_secs), upto);
            backlog(t1, other) == backlog(t, other) && holds_back(limits, t1, other, now)
        }),
{
    let since = earlier(now, limits.device_retention_secs);
    let moved = with_cursor(t, key, written);
    let t1 = after_prune(moved, key, since, upto);
    if written is Some {
        lemma_other_device(t, key, written->0, other);
    }
    let p = purged(moved, key, since, upto);
    let keep = |row: pending_message::Row| !p(row);
    let kept_open = |row: pending_message::Row| keep(row) && unacknowledged(t1, other)(row);
    lemma_filter_filter(t.pending, keep, unacknowledged(t1, other));
    assert forall|i: int| 0 <= i < t.pending.len() implies kept_open(#[trigger] t.pending[i])
        == unacknowledged(t, other)(t.pending[i]) by {
        let row = t.pending[i];
        assert(unacknowledged(t1, other)(row) == unacknowledged(moved, other)(row));
        if unacknowledged(moved, other)(row) {
            lemma_not_purged(moved, key, since, upto, other, row);
        }
    }
    lemma_filter_congruent(t.pending, kept_open, unacknowledged(t, other));
}

/// Skipping the backlog empties it, takes nothing from the backlog of another
/// device that holds messages back, and leaves the device ready for the next
/// message.
pub proof fn acknowledging_the_head_skips_the_backlog(
    limits: Limits,
    t: Tables,
    key: DeviceKey,
    now: i64,
)
    requires
        limits.sound(),
        consistent(t),
    ensures
        backlog(after_ack_head(limits, t, key, now), key) == Seq::<pending_message::Row>::empty(),
        key.cursor(after_ack_head(limits, t, key, now)) == t.head(
            key.relay_id,
            key.endpoint.name(),
        ),
        forall|other: DeviceKey|
            #![trigger backlog(t, other)]
            other != key && holds_back(limits, t, other, now) ==> backlog(
                after_ack_head(limits, t, key, now),
                other,
            ) == backlog(t, other),
{
    let head = t.head(key.relay_id, key.endpoint.name());
    let since = earlier(now, limits.device_retention_secs);
    let written = key.row_with(head, now);
    let moved = with_device(t, key, written);
    let t1 = after_ack_head(limits, t, key, now);
    lemma_own_device(t, key, written);
    let p = purged(moved, key, since, head);
    let keep = |row: pending_message::Row| !p(row);
    assert(!present(t1.pending, unacknowledged(t1, key))) by {
        if present(t1.pending, unacknowledged(t1, key)) {
            let open = unacknowledged(t1, key);
            let i = choose|i: int| 0 <= i < t1.pending.len() && open(#[trigger] t1.pending[i]);
            let row = t1.pending[i];
            assert(t1.pending.contains(row));
            lemma_filter_member(t.pending, keep, row);
            let k = t.pending.index_of(row);
            assert(given_out(
                t,
                t.pending[k].relay_id,
                t.pending[k].destination,
                t.pending[k].sequence,
            ));
        }
    }
    lemma_filter_none(t1.pending, unacknowledged(t1, key));
    assert forall|other: DeviceKey|
        #![trigger backlog(t, other)]
        other != key && holds_back(limits, t, other, now) implies backlog(t1, other) == backlog(
        t,
        other,
    ) by {
        lemma_spares(limits, t, key, Some(written), head, now, other);
    }
}

/// A targeted message goes as soon as its target acknowledged it, and a
/// broadcast as soon as every device that holds messages back did.
pub proof fn acknowledged_messages_are_purged(
    limits: Limits,
    t: Tables,
    key: DeviceKey,
    sequence: u64,
    now: i64,
    row: pending_message::Row,
)
    requires
        row.relay_id == key.relay_id,
        row.destination == key.endpoint.name(),
        row.sequence <= clamped(sequence),
        ({
            ||| row.target_device_id == Some(key.device_id)
            ||| row.target_device_id is None && {
                let moved = with_cursor(t, key, acked_row(t, key, clamped(sequence), now));
                let seen = device::active(
                    key.relay_id,
                    key.endpoint.name(),
                    earlier(now, limits.device_retention_secs),
                );
                forall|i: int|
                    0 <= i < moved.devices.len() && seen(#[trigger] moved.devices[i])
                        ==> row.sequence <= moved.devices[i].last_acked_sequence
            }
        }),
    ensures
        !after_ack(limits, t, key, sequence, now).pending.contains(row),
{
    let upto = clamped(sequence);
    let since = earlier(now, limits.device_retention_secs);
    let moved = with_cursor(t, key, acked_row(t, key, upto, now));
    let p = purged(moved, key, since, upto);
    lemma_filter_member(t.pending, |a: pending_message::Row| !p(a), row);
}

/// A retry of a stored message is confirmed again, however full the queue is,
/// and changes nothing: the message has one sequence only.
pub proof fn retries_are_idempotent(
    limits: Limits,
    t: Tables,
    m: Sending,
    now: i64,
    later: i64,
    later_limits: Limits,
)
    requires
        store_fault(limits, t, m) is None,
    ensures
        store_fault(later_limits, after_store(t, m, now), m) is None,
        after_store(after_store(t, m, now), m, later) == after_store(t, m, now),
{
    let t1 = after_store(t, m, now);
    if t.receipt_of(m) is None {
        let p = receipt::keyed(m.relay_id, m.source.name(), m.message_id);
        lemma_push_found(t.receipts, new_receipt(t, m, now), p);
    }
}

/// The id of a stored message cannot be used again for a payload with another
/// fingerprint while its receipt is kept: the sender is told so and nothing changes.
pub proof fn conflicting_retries_are_refused(
    limits: Limits,
    t: Tables,
    m: Sending,
    now: i64,
    other: Sending,
)
    requires
        store_fault(limits, t, m) is None,
        form_fault(other) is None,
        other.relay_id == m.relay_id,
        other.source == m.source,
        other.message_id == m.message_id,
        other.payload_hash != m.payload_hash,
    ensures
        store_fault(limits, after_store(t, m, now), other) == Some(
            StoreError::ConflictingPayload,
        ),
{
    let p = receipt::keyed(m.relay_id, m.source.name(), m.message_id);
    if t.receipt_of(m) is None {
        lemma_push_found(t.receipts, new_receipt(t, m, now), p);
    }
}

/// Storing evicts nothing: every message that waited before still waits.
pub proof fn storing_evicts_nothing(limits: Limits, t: Tables, m: Sending, now: i64)
    ensures
        t.pending.is_prefix_of(next(limits, t, Operation::Store { message: m, now }).pending),
{
    assert(t.pending.is_prefix_of(t.pending.push(new_pending(t, m, now))));
}

/// A message is stored as a whole: it has a receipt with its fingerprint, and a
/// new one has its place in the queue.
pub proof fn stored_messages_have_a_receipt(limits: Limits, t: Tables, m: Sending, now: i64)
    requires
        store_fault(limits, t, m) is None,
    ensures
        ({
            let t1 = after_store(t, m, now);
            &&& t1.receipt_of(m) matches Some(r) && r.payload_hash == m.payload_hash
                && r.destination == m.destination()
            &&& t.receipt_of(m) is None ==> t1.pending.contains(new_pending(t, m, now))
                && t1.receipt_of(m) == Some(new_receipt(t, m, now))
        }),
{
    if t.receipt_of(m) is None {
        let p = receipt::keyed(m.relay_id, m.source.name(), m.message_id);
        lemma_push_found(t.receipts, new_receipt(t, m, now), p);
        lemma_push_member(t.pending, new_pending(t, m, now), new_pending(t, m, now));
    }
}

/// The relay knows a stored message until a cleanup, acknowledged or not.
pub proof fn receipts_last_until_a_cleanup(limits: Limits, t: Tables, op: Operation, m: Sending)
    requires
        !(op is Cleanup),
        t.receipt_of(m) is Some,
    ensures
        next(limits, t, op).receipt_of(m) == t.receipt_of(m),
{
    match op {
        Operation::Store { message, now } => {
            let p = receipt::keyed(m.relay_id, m.source.name(), m.message_id);
            lemma_find_push(t.receipts, new_receipt(t, message, now), p);
        },
        _ => {},
    }
}

/// A known message is confirmed again however full the queue is, and changes
/// nothing: it is not given a second sequence.
pub proof fn known_messages_are_confirmed_again(limits: Limits, t: Tables, m: Sending, now: i64)
    requires
        consistent(t),
        form_fault(m) is None,
        t.receipt_of(m) matches Some(r) && r.payload_hash == m.payload_hash && r.destination
            == m.destination(),
    ensures
        store_fault(limits, t, m) is None,
        after_store(t, m, now) == t,
        store_log(t, m, now) == Seq::<ChangeView>::empty(),
{
    let p = receipt::keyed(m.relay_id, m.source.name(), m.message_id);
    lemma_found(t.receipts, p);
    let i = t.receipts.index_of(t.receipt_of(m)->0);
    assert(given_out(
        t,
        t.receipts[i].relay_id,
        t.receipts[i].destination,
        t.receipts[i].sequence,
    ));
}

/// A waiting message is found under its sequence, and no other one is.
proof fn lemma_waiting(t: Tables, row: pending_message::Row)
    requires
        unique_keys(t),
        t.pending.contains(row),
    ensures
        t.waiting(row.relay_id, row.destination, row.sequence) == Some(row),
{
    let p = pending_message::same_key(row);
    let i = t.pending.index_of(row);
    assert(first_at(t.pending, p, i)) by {
        assert forall|j: int| 0 <= j < i implies !p(#[trigger] t.pending[j]) by {
            assert(!pending_keys()(t.pending[j])(t.pending[i]));
        }
    }
    lemma_first(t.pending, p, i);
}

/// What waits after an operation waited before it, or is the message that the
/// operation stored.
proof fn lemma_nothing_else_waits(
    limits: Limits,
    t: Tables,
    op: Operation,
    row: pending_message::Row,
)
    requires
        next(limits, t, op).pending.contains(row),
    ensures
        t.pending.contains(row) || {
            &&& op matches Operation::Store { message, now }
            &&& store_fault(limits, t, message) is None
            &&& t.receipt_of(message) is None
            &&& row == new_pending(t, message, now)
        },
{
    match op {
        Operation::Store { message, now } => {
            lemma_push_member(t.pending, new_pending(t, message, now), row);
        },
        Operation::Register { .. } => {},
        Operation::Acknowledge { device, sequence, now } => {
            let upto = clamped(sequence);
            let moved = with_cursor(t, device, acked_row(t, device, upto, now));
            let p = purged(moved, device, earlier(now, limits.device_retention_secs), upto);
            lemma_filter_member(t.pending, |a: pending_message::Row| !p(a), row);
        },
        Operation::AcknowledgeHead { device, now } => {
            let head = t.head(device.relay_id, device.endpoint.name());
            let moved = with_device(t, device, device.row_with(head, now));
            let p = purged(moved, device, earlier(now, limits.device_retention_secs), head);
            lemma_filter_member(t.pending, |a: pending_message::Row| !p(a), row);
        },
        Operation::Cleanup { now } => {
            let p = expired_pending(limits, now);
            lemma_filter_member(t.pending, |a: pending_message::Row| !p(a), row);
        },
    }
}

/// A waiting message never changes: after any run of operations the message
/// that waits under its sequence, if one does, is the same, with its payload
/// and its target. No other message takes its sequence.
pub proof fn waiting_messages_never_change(
    limits: Limits,
    t: Tables,
    ops: Seq<Operation>,
    row: pending_message::Row,
)
    requires
        limits.sound(),
        consistent(t),
        t.pending.contains(row),
    ensures
        ({
            let later = after_run(limits, t, ops);
            let found = later.waiting(row.relay_id, row.destination, row.sequence);
            &&& consistent(later)
            &&& later.head(row.relay_id, row.destination) >= row.sequence
            &&& found is None || found == Some(row)
        }),
    decreases ops.len(),
{
    let later = after_run(limits, t, ops);
    let p = pending_message::keyed(row.relay_id, row.destination, row.sequence);
    if ops.len() == 0 {
        lemma_waiting(t, row);
        let i = t.pending.index_of(row);
        assert(given_out(
            t,
            t.pending[i].relay_id,
            t.pending[i].destination,
            t.pending[i].sequence,
        ));
    } else {
        let before = after_run(limits, t, ops.drop_last());
        waiting_messages_never_change(limits, t, ops.drop_last(), row);
        operations_keep_consistency(limits, before, ops.last());
        heads_never_fall(limits, before, ops.last(), row.relay_id, row.destination);
        let found = later.waiting(row.relay_id, row.destination, row.sequence);
        if found is Some {
            lemma_found(later.pending, p);
            lemma_nothing_else_waits(limits, before, ops.last(), found->0);
            if before.pending.contains(found->0) {
                lemma_waiting(before, found->0);
            }
        }
    }
}

/// A retry hands out the message that was stored first. As long as the receipt
/// of a message is kept, whatever ran in between, its id is accepted again
/// exactly with the same fingerprint and refused as a conflict otherwise. An
/// accepted retry gives out no sequence and changes nothing, and what it hands
/// out is the first message with its sequence, payload and target while that
/// waits, and nothing after.
pub proof fn retries_hand_out_the_first_message(
    limits: Limits,
    t: Tables,
    m: Sending,
    now: i64,
    ops: Seq<Operation>,
    retry: Sending,
    later_now: i64,
)
    requires
        limits.sound(),
        consistent(t),
        store_fault(limits, t, m) is None,
        t.receipt_of(m) is None,
        after_run(limits, after_store(t, m, now), ops).receipt_of(m) == Some(
            new_receipt(t, m, now),
        ),
        retry.relay_id == m.relay_id,
        retry.source == m.source,
        retry.message_id == m.message_id,
        form_fault(retry) is None,
    ensures
        ({
            let later = after_run(limits, after_store(t, m, now), ops);
            let first = new_pending(t, m, now);
            &&& store_fault(limits, later, retry) == if retry.payload_hash == m.payload_hash {
                None
            } else {
                Some(StoreError::ConflictingPayload)
            }
            &&& after_store(later, retry, later_now) == later
            &&& store_log(later, retry, later_now) == Seq::<ChangeView>::empty()
            &&& store_delivery(later, retry, later_now) == if later.pending.contains(first) {
                Some(delivery(first))
            } else {
                None
            }
        }),
{
    let t1 = after_store(t, m, now);
    let later = after_run(limits, t1, ops);
    let first = new_pending(t, m, now);
    operations_keep_consistency(limits, t, Operation::Store { message: m, now });
    lemma_push_member(t.pending, first, first);
    lemma_head_nonnegative(t, m.relay_id, m.destination());
    waiting_messages_never_change(limits, t1, ops, first);
    if later.pending.contains(first) {
        lemma_waiting(later, first);
    }
    let p = pending_message::keyed(first.relay_id, first.destination, first.sequence);
    if later.waiting(first.relay_id, first.destination, first.sequence) is Some {
        lemma_found(later.pending, p);
    }
}

} // verus!
