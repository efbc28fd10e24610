//! What connecting and acknowledging do to the rows.

use crate::config::Limits;
use crate::entity::{device, pending_message};
use crate::table::{first_at, lemma_filter_congruent, lemma_filter_member, lemma_first, present};
use crate::tables::{
    acked_row, after_ack, after_ack_head, after_register, clamped, earlier, passed_by_all, purged,
    with_cursor, with_device, DeviceKey, Tables,
};
use vstd::prelude::*;

verus! {

/// An acknowledgement by one device never removes a message that is targeted
/// at another device, whether that device is known, was seen lately, or
/// acknowledged anything.
pub proof fn messages_for_other_devices_stay(
    limits: Limits,
    t: Tables,
    key: DeviceKey,
    sequence: u64,
    now: i64,
    row: pending_message::Row,
    target: Seq<char>,
)
    requires
        t.pending.contains(row),
        row.target_device_id == Some(target),
        target != key.device_id,
    ensures
        after_ack(limits, t, key, sequence, now).pending.contains(row),
        after_ack_head(limits, t, key, now).pending.contains(row),
{
    let upto = clamped(sequence);
    let since = earlier(now, limits.device_retention_secs);
    let moved = with_cursor(t, key, acked_row(t, key, upto, now));
    let gone = purged(moved, key, since, upto);
    lemma_filter_member(moved.pending, |r: pending_message::Row| !gone(r), row);
    let head = t.head(key.relay_id, key.endpoint.name());
    let skipped = with_device(t, key, key.row_with(head, now));
    let skips = purged(skipped, key, since, head);
    lemma_filter_member(skipped.pending, |r: pending_message::Row| !skips(r), row);
}

/// An acknowledgement never removes a message of another pairing id, or one
/// that goes to the other endpoint.
pub proof fn messages_of_other_channels_stay(
    limits: Limits,
    t: Tables,
    key: DeviceKey,
    sequence: u64,
    now: i64,
    row: pending_message::Row,
)
    requires
        t.pending.contains(row),
        row.relay_id != key.relay_id || row.destination != key.endpoint.name(),
    ensures
        after_ack(limits, t, key, sequence, now).pending.contains(row),
        after_ack_head(limits, t, key, now).pending.contains(row),
{
    let upto = clamped(sequence);
    let since = earlier(now, limits.device_retention_secs);
    let moved = with_cursor(t, key, acked_row(t, key, upto, now));
    let gone = purged(moved, key, since, upto);
    lemma_filter_member(moved.pending, |r: pending_message::Row| !gone(r), row);
    let head = t.head(key.relay_id, key.endpoint.name());
    let skipped = with_device(t, key, key.row_with(head, now));
    let skips = purged(skipped, key, since, head);
    lemma_filter_member(skipped.pending, |r: pending_message::Row| !skips(r), row);
}

/// What an acknowledgement removes, row by row: of the device's pairing id and
/// direction, a message targeted at the device once its sequence is reached,
/// and a broadcast once every device of the endpoint that was seen within the
/// retention period has reached it, or, where no device was, the
/// acknowledgement itself has. All other rows stay, in their order.
pub proof fn acknowledgements_remove_what_was_reached(
    limits: Limits,
    t: Tables,
    key: DeviceKey,
    sequence: u64,
    now: i64,
)
    requires
        now - limits.device_retention_secs <= i64::MAX,
    ensures
        ({
            let after = after_ack(limits, t, key, sequence, now);
            after.pending == t.pending.filter(
                |row: pending_message::Row|
                    !(row.relay_id == key.relay_id && row.destination == key.endpoint.name()
                        && match row.target_device_id {
                        Some(target) => target == key.device_id && row.sequence <= sequence,
                        None => if exists|i: int|
                            0 <= i < after.devices.len() && (#[trigger] after.devices[i]).relay_id
                                == key.relay_id && after.devices[i].endpoint == key.endpoint.name()
                                && now - after.devices[i].last_seen_at
                                <= limits.device_retention_secs {
                            forall|i: int|
                                0 <= i < after.devices.len() && (
                                #[trigger] after.devices[i]).relay_id == key.relay_id
                                    && after.devices[i].endpoint == key.endpoint.name() && now
                                    - after.devices[i].last_seen_at <= limits.device_retention_secs
                                    ==> row.sequence <= after.devices[i].last_acked_sequence
                        } else {
                            row.sequence <= sequence
                        },
                    }),
            )
        }),
{
    let upto = clamped(sequence);
    let since = earlier(now, limits.device_retention_secs);
    let after = with_cursor(t, key, acked_row(t, key, upto, now));
    let gone = purged(after, key, since, upto);
    let p = |row: pending_message::Row| !gone(row);
    let q = |row: pending_message::Row|
        !(row.relay_id == key.relay_id && row.destination == key.endpoint.name()
            && match row.target_device_id {
            Some(target) => target == key.device_id && row.sequence <= sequence,
            None => if exists|i: int|
                0 <= i < after.devices.len() && (#[trigger] after.devices[i]).relay_id
                    == key.relay_id && after.devices[i].endpoint == key.endpoint.name() && now
                    - after.devices[i].last_seen_at <= limits.device_retention_secs {
                forall|i: int|
                    0 <= i < after.devices.len() && (#[trigger] after.devices[i]).relay_id
                        == key.relay_id && after.devices[i].endpoint == key.endpoint.name() && now
                        - after.devices[i].last_seen_at <= limits.device_retention_secs
                        ==> row.sequence <= after.devices[i].last_acked_sequence
            } else {
                row.sequence <= sequence
            },
        });
    assert forall|k: int| 0 <= k < t.pending.len() implies p(#[trigger] t.pending[k]) == q(
        t.pending[k],
    ) by {
        lemma_reached(limits, after, key, now, upto, t.pending[k].sequence);
    }
    lemma_filter_congruent(t.pending, p, q);
}

/// Every device that counts has reached `sequence`, written out over the rows.
proof fn lemma_reached(
    limits: Limits,
    t: Tables,
    key: DeviceKey,
    now: i64,
    upto: i64,
    sequence: i64,
)
    requires
        now - limits.device_retention_secs <= i64::MAX,
    ensures
        passed_by_all(t, key, earlier(now, limits.device_retention_secs), upto, sequence) <==> (
        if exists|i: int|
            0 <= i < t.devices.len() && (#[trigger] t.devices[i]).relay_id == key.relay_id
                && t.devices[i].endpoint == key.endpoint.name() && now - t.devices[i].last_seen_at
                <= limits.device_retention_secs {
            forall|i: int|
                0 <= i < t.devices.len() && (#[trigger] t.devices[i]).relay_id == key.relay_id
                    && t.devices[i].endpoint == key.endpoint.name() && now
                    - t.devices[i].last_seen_at <= limits.device_retention_secs ==> sequence
                    <= t.devices[i].last_acked_sequence
        } else {
            sequence <= upto
        }),
{
    let since = earlier(now, limits.device_retention_secs);
    let seen = device::active(key.relay_id, key.endpoint.name(), since);
    assert forall|i: int| 0 <= i < t.devices.len() implies (seen(#[trigger] t.devices[i]) <==> (
    t.devices[i].relay_id == key.relay_id && t.devices[i].endpoint == key.endpoint.name() && now
        - t.devices[i].last_seen_at <= limits.device_retention_secs)) by {}
    if present(t.devices, seen) {
        let i = choose|i: int| 0 <= i < t.devices.len() && seen(#[trigger] t.devices[i]);
        assert(t.devices[i].relay_id == key.relay_id);
        if passed_by_all(t, key, since, upto, sequence) {
            assert forall|i: int|
                0 <= i < t.devices.len() && (#[trigger] t.devices[i]).relay_id == key.relay_id
                    && t.devices[i].endpoint == key.endpoint.name() && now
                    - t.devices[i].last_seen_at <= limits.device_retention_secs implies sequence
                <= t.devices[i].last_acked_sequence by {
                assert(seen(t.devices[i]));
            }
        } else {
            let i = choose|i: int|
                0 <= i < t.devices.len() && seen(#[trigger] t.devices[i]) && !(sequence
                    <= t.devices[i].last_acked_sequence);
            assert(t.devices[i].relay_id == key.relay_id);
        }
    }
}

/// What skipping a backlog removes, row by row: as an acknowledgement of the
/// last sequence that was given out.
pub proof fn skips_remove_what_was_reached(limits: Limits, t: Tables, key: DeviceKey, now: i64)
    requires
        now - limits.device_retention_secs <= i64::MAX,
    ensures
        ({
            let after = after_ack_head(limits, t, key, now);
            let head = t.head(key.relay_id, key.endpoint.name());
            after.pending == t.pending.filter(
                |row: pending_message::Row|
                    !(row.relay_id == key.relay_id && row.destination == key.endpoint.name()
                        && match row.target_device_id {
                        Some(target) => target == key.device_id && row.sequence <= head,
                        None => if exists|i: int|
                            0 <= i < after.devices.len() && (#[trigger] after.devices[i]).relay_id
                                == key.relay_id && after.devices[i].endpoint == key.endpoint.name()
                                && now - after.devices[i].last_seen_at
                                <= limits.device_retention_secs {
                            forall|i: int|
                                0 <= i < after.devices.len() && (
                                #[trigger] after.devices[i]).relay_id == key.relay_id
                                    && after.devices[i].endpoint == key.endpoint.name() && now
                                    - after.devices[i].last_seen_at <= limits.device_retention_secs
                                    ==> row.sequence <= after.devices[i].last_acked_sequence
                        } else {
                            row.sequence <= head
                        },
                    }),
            )
        }),
{
    let head = t.head(key.relay_id, key.endpoint.name());
    let since = earlier(now, limits.device_retention_secs);
    let after = with_device(t, key, key.row_with(head, now));
    let gone = purged(after, key, since, head);
    let p = |row: pending_message::Row| !gone(row);
    let q = |row: pending_message::Row|
        !(row.relay_id == key.relay_id && row.destination == key.endpoint.name()
            && match row.target_device_id {
            Some(target) => target == key.device_id && row.sequence <= head,
            None => if exists|i: int|
                0 <= i < after.devices.len() && (#[trigger] after.devices[i]).relay_id
                    == key.relay_id && after.devices[i].endpoint == key.endpoint.name() && now
                    - after.devices[i].last_seen_at <= limits.device_retention_secs {
                forall|i: int|
                    0 <= i < after.devices.len() && (#[trigger] after.devices[i]).relay_id
                        == key.relay_id && after.devices[i].endpoint == key.endpoint.name() && now
                        - after.devices[i].last_seen_at <= limits.device_retention_secs
                        ==> row.sequence <= after.devices[i].last_acked_sequence
            } else {
                row.sequence <= head
            },
        });
    assert forall|k: int| 0 <= k < t.pending.len() implies p(#[trigger] t.pending[k]) == q(
        t.pending[k],
    ) by {
        lemma_reached(limits, after, key, now, head, t.pending[k].sequence);
    }
    lemma_filter_congruent(t.pending, p, q);
}

/// What connecting and acknowledging write for a device that has no row: one
/// row at the end of the table. The counters and receipts stay as they are,
/// and a mere connection leaves the messages too.
pub proof fn unknown_devices_get_a_row(
    limits: Limits,
    t: Tables,
    key: DeviceKey,
    sequence: u64,
    now: i64,
)
    requires
        forall|i: int|
            0 <= i < t.devices.len() ==> !((#[trigger] t.devices[i]).relay_id == key.relay_id
                && t.devices[i].endpoint == key.endpoint.name() && t.devices[i].device_id
                == key.device_id),
    ensures
        after_register(t, key, now) == (Tables {
            devices: t.devices.push(
                device::Row {
                    relay_id: key.relay_id,
                    endpoint: key.endpoint.name(),
                    device_id: key.device_id,
                    last_acked_sequence: 0,
                    last_seen_at: now,
                },
            ),
            ..t
        }),
        after_ack(limits, t, key, sequence, now).devices == t.devices.push(
            device::Row {
                relay_id: key.relay_id,
                endpoint: key.endpoint.name(),
                device_id: key.device_id,
                last_acked_sequence: if sequence <= 0x7fff_ffff_ffff_ffff {
                    sequence as i64
                } else {
                    0x7fff_ffff_ffff_ffff
                },
                last_seen_at: now,
            },
        ),
        after_ack_head(limits, t, key, now).devices == t.devices.push(
            device::Row {
                relay_id: key.relay_id,
                endpoint: key.endpoint.name(),
                device_id: key.device_id,
                last_acked_sequence: t.head(key.relay_id, key.endpoint.name()),
                last_seen_at: now,
            },
        ),
{
    assert(!present(t.devices, key.keyed()));
}

/// What connecting and acknowledging write for a device that has a row: that
/// row alone. A connection and a skip always do, an acknowledgement only where
/// it moves the cursor forward.
pub proof fn known_devices_keep_one_row(
    limits: Limits,
    t: Tables,
    key: DeviceKey,
    sequence: u64,
    now: i64,
    i: int,
)
    requires
        0 <= i < t.devices.len(),
        t.devices[i].relay_id == key.relay_id,
        t.devices[i].endpoint == key.endpoint.name(),
        t.devices[i].device_id == key.device_id,
        forall|j: int|
            0 <= j < i ==> !((#[trigger] t.devices[j]).relay_id == key.relay_id
                && t.devices[j].endpoint == key.endpoint.name() && t.devices[j].device_id
                == key.device_id),
    ensures
        after_register(t, key, now) == (Tables {
            devices: t.devices.update(i, device::Row { last_seen_at: now, ..t.devices[i] }),
            ..t
        }),
        sequence <= t.devices[i].last_acked_sequence ==> after_ack(
            limits,
            t,
            key,
            sequence,
            now,
        ).devices == t.devices,
        t.devices[i].last_acked_sequence < sequence <= 0x7fff_ffff_ffff_ffff ==> after_ack(
            limits,
            t,
            key,
            sequence,
            now,
        ).devices == t.devices.update(
            i,
            device::Row { last_acked_sequence: sequence as i64, last_seen_at: now, ..t.devices[i] },
        ),
        sequence > 0x7fff_ffff_ffff_ffff ==> after_ack(limits, t, key, sequence, now) == after_ack(
            limits,
            t,
            key,
            0x7fff_ffff_ffff_ffff,
            now,
        ),
        after_ack_head(limits, t, key, now).devices == t.devices.update(
            i,
            device::Row {
                last_acked_sequence: t.head(key.relay_id, key.endpoint.name()),
                last_seen_at: now,
                ..t.devices[i]
            },
        ),
{
    assert(first_at(t.devices, key.keyed(), i));
    lemma_first(t.devices, key.keyed(), i);
}

/// Acknowledging never touches a counter or a receipt.
pub proof fn acknowledgements_leave_counters_and_receipts(
    limits: Limits,
    t: Tables,
    key: DeviceKey,
    sequence: u64,
    now: i64,
)
    ensures
        after_ack(limits, t, key, sequence, now).counters == t.counters,
        after_ack(limits, t, key, sequence, now).receipts == t.receipts,
        after_ack_head(limits, t, key, now).counters == t.counters,
        after_ack_head(limits, t, key, now).receipts == t.receipts,
{
}

} // verus!
