//! What the retention periods promise.

use crate::config::Limits;
use crate::consistency::{
    consistent, device_keys, given_out, lemma_sender_name, old_receipts_have_no_waiting_message,
    pending_keys, receipt_keys, vouches,
};
use crate::entity::{device, pending_message, receipt};
use crate::table::{
    first_at, lemma_filter_member, lemma_first, lemma_first_exists, lemma_found, lemma_put_rows,
    present, put,
};
use crate::tables::{
    acked_row, after_ack, after_cleanup, clamped, earlier, expired_device, expired_pending,
    expired_receipt, orphaned_receipt, purged, removed_receipt, with_cursor, DeviceKey, Sending,
    Tables,
};
use vstd::prelude::*;

verus! {

/// The pending row that a message left.
pub open spec fn row_of(m: Sending, row: pending_message::Row) -> bool {
    &&& row.relay_id == m.relay_id
    &&& row.destination == m.destination()
    &&& row.message_id == m.message_id
}

/// The receipt of a waiting message is the one that its id is looked up by.
proof fn lemma_receipt_of_waiting(t: Tables, m: Sending, row: pending_message::Row) -> (i: int)
    requires
        consistent(t),
        t.pending.contains(row),
        row_of(m, row),
    ensures
        0 <= i < t.receipts.len(),
        vouches(row)(t.receipts[i]),
        t.receipt_of(m) == Some(t.receipts[i]),
        forall|j: int|
            0 <= j < t.receipts.len() && receipt::keyed(m.relay_id, m.source.name(), m.message_id)(
                #[trigger] t.receipts[j],
            ) ==> j == i,
{
    lemma_sender_name(m);
    let n = t.pending.index_of(row);
    assert(present(t.receipts, vouches(t.pending[n])));
    let i = choose|i: int| 0 <= i < t.receipts.len() && vouches(row)(#[trigger] t.receipts[i]);
    let p = receipt::keyed(m.relay_id, m.source.name(), m.message_id);
    assert(p(t.receipts[i]));
    assert forall|j: int| 0 <= j < t.receipts.len() && p(#[trigger] t.receipts[j]) implies j
        == i by {
        if j < i {
            assert(!receipt_keys()(t.receipts[j])(t.receipts[i]));
        } else if i < j {
            assert(!receipt_keys()(t.receipts[i])(t.receipts[j]));
        }
    }
    assert(first_at(t.receipts, p, i));
    lemma_first(t.receipts, p, i);
    i
}

/// A message that expired goes with its receipt: its id is free again, and a
/// later message with that id gets a sequence beyond the old one.
pub proof fn expired_messages_can_be_sent_again(
    limits: Limits,
    t: Tables,
    now: i64,
    m: Sending,
    row: pending_message::Row,
)
    requires
        consistent(t),
        t.pending.contains(row),
        row_of(m, row),
        expired_pending(limits, now)(row),
    ensures
        !after_cleanup(limits, t, now).pending.contains(row),
        after_cleanup(limits, t, now).receipt_of(m) is None,
        after_cleanup(limits, t, now).head(m.relay_id, m.destination()) >= row.sequence,
{
    let t1 = after_cleanup(limits, t, now);
    let expired = expired_pending(limits, now);
    let removed = removed_receipt(limits, t, now);
    let keep = |r: receipt::Row| !removed(r);
    lemma_filter_member(t.pending, |a: pending_message::Row| !expired(a), row);
    let i = lemma_receipt_of_waiting(t, m, row);
    lemma_filter_member(t.pending, expired, row);
    let gone = t.pending.filter(expired);
    let k = gone.index_of(row);
    let r = t.receipts[i];
    assert(pending_message::keyed(r.relay_id, r.destination, r.sequence)(gone[k]));
    assert(orphaned_receipt(limits, t, now)(r));
    if t1.receipt_of(m) is Some {
        let p = receipt::keyed(m.relay_id, m.source.name(), m.message_id);
        lemma_found(t1.receipts, p);
        let found = t1.receipt_of(m)->0;
        lemma_filter_member(t.receipts, keep, found);
        let j = t.receipts.index_of(found);
        assert(p(t.receipts[j]));
        assert(j == i);
    }
    let n = t.pending.index_of(row);
    assert(given_out(t, t.pending[n].relay_id, t.pending[n].destination, t.pending[n].sequence));
}

/// A message within its retention period survives a cleanup, and so does its
/// receipt.
pub proof fn recent_messages_outlive_a_cleanup(
    limits: Limits,
    t: Tables,
    now: i64,
    m: Sending,
    row: pending_message::Row,
)
    requires
        limits.sound(),
        consistent(t),
        t.pending.contains(row),
        row_of(m, row),
        row.created_at >= earlier(now, limits.pending_retention_secs),
    ensures
        after_cleanup(limits, t, now).pending.contains(row),
        after_cleanup(limits, t, now).receipt_of(m) == t.receipt_of(m),
        t.receipt_of(m) is Some,
        t.receipt_of(m)->0.sequence == row.sequence,
{
    let t1 = after_cleanup(limits, t, now);
    let expired = expired_pending(limits, now);
    let removed = removed_receipt(limits, t, now);
    let keep = |r: receipt::Row| !removed(r);
    lemma_filter_member(t.pending, |a: pending_message::Row| !expired(a), row);
    let i = lemma_receipt_of_waiting(t, m, row);
    let r = t.receipts[i];
    assert(!removed(r)) by {
        if expired_receipt(limits, now)(r) {
            old_receipts_have_no_waiting_message(limits, t, now, row, r);
        }
        if orphaned_receipt(limits, t, now)(r) {
            let gone = t.pending.filter(expired);
            let same = pending_message::keyed(r.relay_id, r.destination, r.sequence);
            let j = choose|j: int| 0 <= j < gone.len() && same(#[trigger] gone[j]);
            assert(gone.contains(gone[j]));
            lemma_filter_member(t.pending, expired, gone[j]);
            let a = t.pending.index_of(gone[j]);
            let b = t.pending.index_of(row);
            assert(t.pending[a] == gone[j] && t.pending[b] == row);
            if a < b {
                assert(!pending_keys()(t.pending[a])(t.pending[b]));
            } else if b < a {
                assert(!pending_keys()(t.pending[b])(t.pending[a]));
            }
        }
    }
    assert(t.receipts.contains(r));
    lemma_filter_member(t.receipts, keep, r);
    let p = receipt::keyed(m.relay_id, m.source.name(), m.message_id);
    let at = t1.receipts.index_of(r);
    assert(p(t1.receipts[at]));
    assert(present(t1.receipts, p));
    lemma_first_exists(t1.receipts, p);
    let first = choose|x: int| first_at(t1.receipts, p, x);
    lemma_first(t1.receipts, p, first);
    let found = t1.receipts[first];
    assert(t1.receipts.contains(found));
    lemma_filter_member(t.receipts, keep, found);
    let j = t.receipts.index_of(found);
    assert(p(t.receipts[j]));
    assert(j == i);
}

/// The receipt of an acknowledged message expires by its own period, and not
/// before.
pub proof fn receipts_expire_by_their_own_period(
    limits: Limits,
    t: Tables,
    now: i64,
    r: receipt::Row,
)
    requires
        t.receipts.contains(r),
        !present(t.pending, pending_message::keyed(r.relay_id, r.destination, r.sequence)),
    ensures
        after_cleanup(limits, t, now).receipts.contains(r) <==> r.created_at >= earlier(
            now,
            limits.receipt_retention_secs,
        ),
{
    let removed = removed_receipt(limits, t, now);
    let expired = expired_pending(limits, now);
    lemma_filter_member(t.receipts, |a: receipt::Row| !removed(a), r);
    let same = pending_message::keyed(r.relay_id, r.destination, r.sequence);
    if orphaned_receipt(limits, t, now)(r) {
        let gone = t.pending.filter(expired);
        let j = choose|j: int| 0 <= j < gone.len() && same(#[trigger] gone[j]);
        assert(gone.contains(gone[j]));
        lemma_filter_member(t.pending, expired, gone[j]);
        let k = t.pending.index_of(gone[j]);
        assert(same(t.pending[k]));
    }
}

/// A device that stayed away for longer than the device retention holds
/// nothing back: once every other device of its endpoint acknowledged a
/// broadcast, the message goes.
pub proof fn absent_devices_block_nothing(
    limits: Limits,
    t: Tables,
    key: DeviceKey,
    sequence: u64,
    now: i64,
    row: pending_message::Row,
)
    requires
        consistent(t),
        row.relay_id == key.relay_id,
        row.destination == key.endpoint.name(),
        row.target_device_id is None,
        row.sequence <= clamped(sequence),
        clamped(sequence) > key.cursor(t) || key.row(t) is None,
        forall|i: int|
            0 <= i < t.devices.len() && (#[trigger] t.devices[i]).relay_id == key.relay_id
                && t.devices[i].endpoint == key.endpoint.name() && t.devices[i].device_id
                != key.device_id ==> row.sequence <= t.devices[i].last_acked_sequence
                || t.devices[i].last_seen_at < earlier(now, limits.device_retention_secs),
    ensures
        !after_ack(limits, t, key, sequence, now).pending.contains(row),
{
    let upto = clamped(sequence);
    let since = earlier(now, limits.device_retention_secs);
    let written = key.row_with(upto, now);
    let moved = with_cursor(t, key, acked_row(t, key, upto, now));
    assert(acked_row(t, key, upto, now) == Some(written));
    lemma_put_rows(t.devices, key.keyed(), written);
    let seen = device::active(key.relay_id, key.endpoint.name(), since);
    assert forall|i: int| 0 <= i < moved.devices.len() && seen(#[trigger] moved.devices[i]) implies row.sequence
        <= moved.devices[i].last_acked_sequence by {
        if moved.devices[i] != written && moved.devices[i].device_id == key.device_id {
            lemma_own_row_is_written(t, key, written, i);
        }
    }
    let p = purged(moved, key, since, upto);
    lemma_filter_member(t.pending, |a: pending_message::Row| !p(a), row);
}

/// After the row of a device was written, it is the only one for that device.
proof fn lemma_own_row_is_written(t: Tables, key: DeviceKey, written: device::Row, i: int)
    requires
        consistent(t),
        key.keyed()(written),
        0 <= i < put(t.devices, key.keyed(), written).len(),
        key.keyed()(put(t.devices, key.keyed(), written)[i]),
    ensures
        put(t.devices, key.keyed(), written)[i] == written,
{
    let p = key.keyed();
    lemma_put_rows(t.devices, p, written);
    if put(t.devices, p, written)[i] != written {
        assert(p(t.devices[i]));
        lemma_first_exists(t.devices, p);
        let first = choose|x: int| first_at(t.devices, p, x);
        lemma_first(t.devices, p, first);
        if first < i {
            assert(!device_keys()(t.devices[first])(t.devices[i]));
        } else if i < first {
            assert(!device_keys()(t.devices[i])(t.devices[first]));
        }
    }
}

/// A cleanup forgets exactly the devices that were not seen for longer than the
/// device retention.
pub proof fn cleanups_forget_absent_devices(limits: Limits, t: Tables, now: i64, row: device::Row)
    requires
        t.devices.contains(row),
    ensures
        after_cleanup(limits, t, now).devices.contains(row) <==> row.last_seen_at >= earlier(
            now,
            limits.device_retention_secs,
        ),
{
    let gone = expired_device(limits, now);
    lemma_filter_member(t.devices, |a: device::Row| !gone(a), row);
}

} // verus!
