//! What a cleanup removes, and what a device is handed.

use crate::config::Limits;
use crate::database::{
    device_change, device_key, message_frame, negative, sending, StoreResult, StoredMessage,
};
use crate::entity::{device, pending_message, receipt};
use crate::frame::{Endpoint, ServerFrameView};
use crate::journal::ChangeView;
use crate::operation::{after_run, empty_tables, next, Operation};
use crate::payload::Payload;
use crate::table::{lemma_filter_congruent, lemma_filter_member, present, without};
use crate::tables::{
    after_ack, after_ack_head, after_cleanup, after_register, after_store, delivery, expired_device,
    expired_pending, hands_out, removed_receipt, store_fault, unacknowledged, Delivery, DeviceKey,
    Sending, Tables,
};
use vstd::prelude::*;

verus! {

/// A deletion and what it leaves make up the table: as many rows go as are
/// missing afterwards.
pub proof fn deletions_count_what_goes<A>(s: Seq<A>, p: spec_fn(A) -> bool)
    ensures
        s.filter(p).len() + without(s, p).len() == s.len(),
    decreases s.len(),
{
    reveal(Seq::filter);
    if s.len() > 0 {
        deletions_count_what_goes(s.drop_last(), p);
    }
}

/// A cleanup takes a message out exactly if it waits for longer than messages
/// are kept, and leaves the others in their order.
pub proof fn cleanups_remove_old_messages(limits: Limits, t: Tables, now: i64)
    requires
        now - limits.pending_retention_secs <= i64::MAX,
    ensures
        after_cleanup(limits, t, now).pending == t.pending.filter(
            |row: pending_message::Row| now - row.created_at <= limits.pending_retention_secs,
        ),
{
    let p = expired_pending(limits, now);
    lemma_filter_congruent(
        t.pending,
        |row: pending_message::Row| !p(row),
        |row: pending_message::Row| now - row.created_at <= limits.pending_retention_secs,
    );
}

/// A cleanup takes a device out exactly if it was not seen for longer than
/// devices are kept, and leaves the others in their order.
pub proof fn cleanups_remove_unseen_devices(limits: Limits, t: Tables, now: i64)
    requires
        now - limits.device_retention_secs <= i64::MAX,
    ensures
        after_cleanup(limits, t, now).devices == t.devices.filter(
            |row: device::Row| now - row.last_seen_at <= limits.device_retention_secs,
        ),
{
    let p = expired_device(limits, now);
    lemma_filter_congruent(
        t.devices,
        |row: device::Row| !p(row),
        |row: device::Row| now - row.last_seen_at <= limits.device_retention_secs,
    );
}

/// A cleanup takes a receipt out exactly if it is older than receipts are
/// kept, or a message of its direction and sequence goes for its age. The
/// counters stay.
pub proof fn cleanups_remove_old_receipts(limits: Limits, t: Tables, now: i64)
    requires
        now - limits.pending_retention_secs <= i64::MAX,
        now - limits.receipt_retention_secs <= i64::MAX,
    ensures
        after_cleanup(limits, t, now).counters == t.counters,
        after_cleanup(limits, t, now).receipts == t.receipts.filter(
            |row: receipt::Row|
                now - row.created_at <= limits.receipt_retention_secs && forall|i: int|
                    0 <= i < t.pending.len() && (#[trigger] t.pending[i]).relay_id == row.relay_id
                        && t.pending[i].destination == row.destination && t.pending[i].sequence
                        == row.sequence ==> now - t.pending[i].created_at
                        <= limits.pending_retention_secs,
        ),
{
    let p = removed_receipt(limits, t, now);
    let q = |row: receipt::Row|
        now - row.created_at <= limits.receipt_retention_secs && forall|i: int|
            0 <= i < t.pending.len() && (#[trigger] t.pending[i]).relay_id == row.relay_id
                && t.pending[i].destination == row.destination && t.pending[i].sequence
                == row.sequence ==> now - t.pending[i].created_at <= limits.pending_retention_secs;
    let old = expired_pending(limits, now);
    let gone = t.pending.filter(old);
    assert forall|k: int| 0 <= k < t.receipts.len() implies (!p(#[trigger] t.receipts[k])) == q(
        t.receipts[k],
    ) by {
        let row = t.receipts[k];
        let keyed = pending_message::keyed(row.relay_id, row.destination, row.sequence);
        if present(gone, keyed) {
            let i = choose|i: int| 0 <= i < gone.len() && keyed(#[trigger] gone[i]);
            assert(gone.contains(gone[i]));
            lemma_filter_member(t.pending, old, gone[i]);
            let j = t.pending.index_of(gone[i]);
            assert(t.pending[j] == gone[i]);
        }
        if exists|i: int|
            0 <= i < t.pending.len() && (#[trigger] t.pending[i]).relay_id == row.relay_id
                && t.pending[i].destination == row.destination && t.pending[i].sequence
                == row.sequence && now - t.pending[i].created_at > limits.pending_retention_secs {
            let i = choose|i: int|
                0 <= i < t.pending.len() && (#[trigger] t.pending[i]).relay_id == row.relay_id
                    && t.pending[i].destination == row.destination && t.pending[i].sequence
                    == row.sequence && now - t.pending[i].created_at
                    > limits.pending_retention_secs;
            assert(t.pending.contains(t.pending[i]));
            lemma_filter_member(t.pending, old, t.pending[i]);
            let j = gone.index_of(t.pending[i]);
            assert(keyed(gone[j]));
        }
    }
    lemma_filter_congruent(t.receipts, |row: receipt::Row| !p(row), q);
}

/// What a device has yet to acknowledge, column by column: the messages of its
/// pairing id and direction beyond its cursor that have no target or name it.
pub proof fn devices_are_owed_what_is_beyond_their_cursor(
    t: Tables,
    key: DeviceKey,
    row: pending_message::Row,
)
    ensures
        unacknowledged(t, key)(row) <==> {
            &&& row.relay_id == key.relay_id
            &&& row.destination == key.endpoint.name()
            &&& row.sequence > t.cursor(key.relay_id, key.endpoint.name(), key.device_id)
            &&& row.target_device_id is None || row.target_device_id == Some(key.device_id)
        },
        pending_message::in_channel(key.relay_id, key.endpoint.name())(row) <==> row.relay_id
            == key.relay_id && row.destination == key.endpoint.name(),
        negative(unacknowledged(t, key))(row) <==> unacknowledged(t, key)(row) && row.sequence < 0,
        negative(pending_message::in_channel(key.relay_id, key.endpoint.name()))(row)
            <==> row.relay_id == key.relay_id && row.destination == key.endpoint.name()
            && row.sequence < 0,
{
}

/// A list that hands out rows holds one delivery for each of them and no other,
/// lowest sequence first. A row is handed out with its own id, sequence,
/// payload and target.
pub proof fn listings_hold_each_row_once(
    list: Seq<Delivery>,
    pending: Seq<pending_message::Row>,
    p: spec_fn(pending_message::Row) -> bool,
)
    ensures
        hands_out(list, pending, p) <==> {
            &&& forall|i: int, j: int|
                0 <= i < j < list.len() ==> (#[trigger] list[i]).sequence <= (
                #[trigger] list[j]).sequence
            &&& list.to_multiset() == pending.filter(p).map_values(
                |row: pending_message::Row|
                    Delivery {
                        message_id: row.message_id,
                        sequence: row.sequence as u64,
                        payload: row.payload,
                        target_device_id: row.target_device_id,
                    },
            ).to_multiset()
        },
        hands_out(list, pending, p) ==> list.len() == pending.filter(p).len(),
{
    let owed = pending.filter(p);
    let a = owed.map_values(|row: pending_message::Row| delivery(row));
    let b = owed.map_values(
        |row: pending_message::Row|
            Delivery {
                message_id: row.message_id,
                sequence: row.sequence as u64,
                payload: row.payload,
                target_device_id: row.target_device_id,
            },
    );
    assert(a =~= b);
    list.to_multiset_ensures();
    a.to_multiset_ensures();
}

/// A row is handed out with its own id, sequence, payload and target.
pub proof fn deliveries_carry_their_row(row: pending_message::Row)
    ensures
        delivery(row).message_id == row.message_id,
        row.sequence >= 0 ==> delivery(row).sequence == row.sequence,
        delivery(row).payload == row.payload,
        delivery(row).target_device_id == row.target_device_id,
{
}

/// A message in memory shows each of its parts, and the frame for it carries
/// its id, sequence and payload.
pub proof fn frames_carry_their_message(m: StoredMessage)
    ensures
        m@.message_id == m.message_id@,
        m@.sequence == m.sequence,
        m@.payload == m.payload@,
        match m.target_device_id {
            Some(target) => m@.target_device_id == Some(target@),
            None => m@.target_device_id is None,
        },
        message_frame(m@) == (ServerFrameView::Message {
            message_id: m.message_id@,
            sequence: m.sequence,
            payload: m.payload@,
        }),
{
}

/// The result of a store shows the message that goes out, if one does.
pub proof fn results_show_their_message(r: StoreResult)
    ensures
        r.delivery() == (match r.pending {
            Some(m) => Some(m@),
            None => None,
        }),
{
}

/// The arguments of a store and of a device's operations stand for themselves.
pub proof fn arguments_stand_for_themselves(
    relay_id: &str,
    endpoint: Endpoint,
    id: &str,
    payload: &Payload,
    payload_hash: Seq<char>,
    target: Option<&str>,
)
    ensures
        ({
            let m = sending(relay_id, endpoint, id, payload, payload_hash, target);
            &&& m.relay_id == relay_id@
            &&& m.source == endpoint
            &&& m.message_id == id@
            &&& m.payload == payload@
            &&& m.payload_hash == payload_hash
            &&& target matches Some(device) ==> m.target_device_id == Some(device@)
            &&& target is None ==> m.target_device_id is None
        }),
        device_key(relay_id, endpoint, id).relay_id == relay_id@,
        device_key(relay_id, endpoint, id).endpoint == endpoint,
        device_key(relay_id, endpoint, id).device_id == id@,
{
}

/// A device's row holds what it is written with, and its change is one write.
pub proof fn device_rows_hold_what_they_are_given(key: DeviceKey, cursor: i64, at: i64)
    ensures
        key.row_with(cursor, at) == (device::Row {
            relay_id: key.relay_id,
            endpoint: key.endpoint.name(),
            device_id: key.device_id,
            last_acked_sequence: cursor,
            last_seen_at: at,
        }),
        device_change(Some(key.row_with(cursor, at))) == seq![
            ChangeView::PutDevice(key.row_with(cursor, at)),
        ],
        device_change(None).len() == 0,
{
}

/// Each operation leads to the tables that its own transition gives; a store
/// that is refused changes nothing.
pub proof fn operations_lead_to_their_tables(
    limits: Limits,
    t: Tables,
    m: Sending,
    key: DeviceKey,
    sequence: u64,
    now: i64,
)
    ensures
        store_fault(limits, t, m) is Some ==> next(limits, t, Operation::Store { message: m, now })
            == t,
        store_fault(limits, t, m) is None ==> next(limits, t, Operation::Store { message: m, now })
            == after_store(t, m, now),
        next(limits, t, Operation::Register { device: key, now }) == after_register(t, key, now),
        next(limits, t, Operation::Acknowledge { device: key, sequence, now }) == after_ack(
            limits,
            t,
            key,
            sequence,
            now,
        ),
        next(limits, t, Operation::AcknowledgeHead { device: key, now }) == after_ack_head(
            limits,
            t,
            key,
            now,
        ),
        next(limits, t, Operation::Cleanup { now }) == after_cleanup(limits, t, now),
{
}

/// A run takes its operations in order, from tables without a row.
pub proof fn runs_take_their_operations_in_order(
    limits: Limits,
    t: Tables,
    ops: Seq<Operation>,
    last: Operation,
)
    ensures
        after_run(limits, t, Seq::empty()) == t,
        after_run(limits, t, ops.push(last)) == next(limits, after_run(limits, t, ops), last),
        empty_tables().counters.len() == 0,
        empty_tables().receipts.len() == 0,
        empty_tables().pending.len() == 0,
        empty_tables().devices.len() == 0,
        last matches Operation::Store { now, .. } ==> last.time() == now,
        last matches Operation::Register { now, .. } ==> last.time() == now,
        last matches Operation::Acknowledge { now, .. } ==> last.time() == now,
        last matches Operation::AcknowledgeHead { now, .. } ==> last.time() == now,
        last matches Operation::Cleanup { now } ==> last.time() == now,
{
    assert(ops.push(last).drop_last() =~= ops);
}

} // verus!
