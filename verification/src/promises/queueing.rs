//! When a message is stored, what storing it writes, and when it is refused.

use crate::config::Limits;
use crate::database::store_log;
use crate::entity::{counter, pending_message, receipt};
use crate::journal::ChangeView;
use crate::table::{first_at, lemma_filter_congruent, lemma_first, present};
use crate::tables::{
    after_store, store_delivery, store_fault, total_bytes, Delivery, Sending, StoreError, Tables,
};
use vstd::prelude::*;
use vstd::utf8::encode_utf8;

verus! {

/// The queue of a direction holds exactly the rows of its pairing id and
/// destination.
pub proof fn queues_hold_one_direction(t: Tables, relay_id: Seq<char>, destination: Seq<char>)
    ensures
        t.queue(relay_id, destination) == t.pending.filter(
            |row: pending_message::Row| row.relay_id == relay_id && row.destination == destination,
        ),
{
    lemma_filter_congruent(
        t.pending,
        pending_message::in_channel(relay_id, destination),
        |row: pending_message::Row| row.relay_id == relay_id && row.destination == destination,
    );
}

/// A well-formed message with a new id is accepted wherever there is room: its
/// direction holds fewer messages than the limit, the payload fits the byte
/// limit with what already waits, and the next sequence exists and is free.
/// How many messages went through the direction before plays no part.
pub proof fn messages_are_accepted_where_there_is_room(limits: Limits, t: Tables, m: Sending)
    requires
        0 < m.message_id.len(),
        encode_utf8(m.message_id).len() <= 256,
        m.target_device_id matches Some(target) ==> 0 < target.len() && encode_utf8(target).len()
            <= 256,
        m.payload.len() <= i64::MAX,
        forall|i: int|
            0 <= i < t.receipts.len() ==> !((#[trigger] t.receipts[i]).relay_id == m.relay_id
                && t.receipts[i].source == m.source.name() && t.receipts[i].message_id
                == m.message_id),
        t.pending.filter(
            |row: pending_message::Row|
                row.relay_id == m.relay_id && row.destination == m.source.other().name(),
        ).len() < limits.max_pending_messages,
        m.payload.len() <= limits.max_pending_bytes,
        total_bytes(
            t.pending.filter(
                |row: pending_message::Row|
                    row.relay_id == m.relay_id && row.destination == m.source.other().name(),
            ),
        ) + m.payload.len() <= limits.max_pending_bytes,
        -1 <= t.head(m.relay_id, m.source.other().name()) < i64::MAX,
        forall|i: int|
            0 <= i < t.pending.len() ==> !((#[trigger] t.pending[i]).relay_id == m.relay_id
                && t.pending[i].destination == m.source.other().name() && t.pending[i].sequence
                == t.head(m.relay_id, m.source.other().name()) + 1),
    ensures
        store_fault(limits, t, m) is None,
{
    let destination = m.source.other().name();
    lemma_filter_congruent(
        t.pending,
        pending_message::in_channel(m.relay_id, destination),
        |row: pending_message::Row|
            row.relay_id == m.relay_id && row.destination == m.source.other().name(),
    );
    assert(!present(t.receipts, receipt::keyed(m.relay_id, m.source.name(), m.message_id)));
    let next = (t.head(m.relay_id, destination) + 1) as i64;
    assert(!present(t.pending, pending_message::keyed(m.relay_id, destination, next)));
}

/// A message is refused as malformed exactly if its id or its target is empty
/// or longer than 256 bytes, or its payload has more bytes than a row can
/// count, and the first of these is named.
pub proof fn malformed_messages_are_refused(limits: Limits, t: Tables, m: Sending)
    ensures
        ({
            let fault = store_fault(limits, t, m);
            let id_fits = 0 < m.message_id.len() && encode_utf8(m.message_id).len() <= 256;
            let target_fits = match m.target_device_id {
                Some(target) => 0 < target.len() && encode_utf8(target).len() <= 256,
                None => true,
            };
            &&& fault == Some(StoreError::EmptyMessageId) <==> m.message_id.len() == 0
            &&& fault == Some(StoreError::MessageIdTooLong) <==> m.message_id.len() > 0
                && encode_utf8(m.message_id).len() > 256
            &&& fault == Some(StoreError::EmptyTarget) <==> id_fits && (
            m.target_device_id matches Some(target) && target.len() == 0)
            &&& fault == Some(StoreError::TargetTooLong) <==> id_fits && (
            m.target_device_id matches Some(target) && target.len() > 0 && encode_utf8(target).len()
                > 256)
            &&& fault == Some(StoreError::PayloadTooLarge) <==> id_fits && target_fits
                && m.payload.len() > i64::MAX
        }),
{
}

/// A well-formed message whose id has a receipt is refused as conflicting
/// exactly if the receipt names another direction or another fingerprint.
/// Otherwise it is confirmed again, and the limits of the queue play no part.
pub proof fn known_messages_are_confirmed_again(limits: Limits, t: Tables, m: Sending, i: int)
    requires
        0 < m.message_id.len(),
        encode_utf8(m.message_id).len() <= 256,
        m.target_device_id matches Some(target) ==> 0 < target.len() && encode_utf8(target).len()
            <= 256,
        m.payload.len() <= i64::MAX,
        0 <= i < t.receipts.len(),
        t.receipts[i].relay_id == m.relay_id,
        t.receipts[i].source == m.source.name(),
        t.receipts[i].message_id == m.message_id,
        forall|j: int|
            0 <= j < i ==> !((#[trigger] t.receipts[j]).relay_id == m.relay_id
                && t.receipts[j].source == m.source.name() && t.receipts[j].message_id
                == m.message_id),
    ensures
        store_fault(limits, t, m) == Some(StoreError::ConflictingPayload)
            <==> t.receipts[i].destination != m.source.other().name()
            || t.receipts[i].payload_hash != m.payload_hash,
        t.receipts[i].destination == m.source.other().name() && t.receipts[i].payload_hash
            == m.payload_hash && t.receipts[i].sequence >= 0 ==> store_fault(limits, t, m) is None,
        t.receipts[i].destination == m.source.other().name() && t.receipts[i].payload_hash
            == m.payload_hash && t.receipts[i].sequence < 0 ==> (store_fault(limits, t, m) is Some
            <==> exists|k: int|
            0 <= k < t.pending.len() && (#[trigger] t.pending[k]).relay_id == m.relay_id
                && t.pending[k].destination == m.source.other().name() && t.pending[k].sequence
                == t.receipts[i].sequence),
        t.receipts[i].destination == m.source.other().name() && t.receipts[i].payload_hash
            == m.payload_hash && store_fault(limits, t, m) is Some ==> store_fault(limits, t, m)
            == Some(StoreError::NegativeSequence),
{
    let p = receipt::keyed(m.relay_id, m.source.name(), m.message_id);
    assert(first_at(t.receipts, p, i));
    lemma_first(t.receipts, p, i);
    let q = pending_message::keyed(m.relay_id, m.source.other().name(), t.receipts[i].sequence);
    assert(present(t.pending, q) <==> exists|k: int|
        0 <= k < t.pending.len() && (#[trigger] t.pending[k]).relay_id == m.relay_id
            && t.pending[k].destination == m.source.other().name() && t.pending[k].sequence
            == t.receipts[i].sequence) by {
        if present(t.pending, q) {
            let k = choose|k: int| 0 <= k < t.pending.len() && q(#[trigger] t.pending[k]);
            assert(t.pending[k].relay_id == m.relay_id);
        }
        if exists|k: int|
            0 <= k < t.pending.len() && (#[trigger] t.pending[k]).relay_id == m.relay_id
                && t.pending[k].destination == m.source.other().name() && t.pending[k].sequence
                == t.receipts[i].sequence {
            let k = choose|k: int|
                0 <= k < t.pending.len() && (#[trigger] t.pending[k]).relay_id == m.relay_id
                    && t.pending[k].destination == m.source.other().name() && t.pending[k].sequence
                    == t.receipts[i].sequence;
            assert(q(t.pending[k]));
        }
    }
}

/// A well-formed message with a new id is refused as one too many exactly if
/// its direction holds as many messages as the limit, and as too many bytes
/// exactly if it does not and the payload with what waits exceeds that limit.
/// After that only the sequence can be in its way: none is left, the next one
/// is taken, or the direction stands below zero.
pub proof fn full_queues_are_at_a_limit(limits: Limits, t: Tables, m: Sending)
    requires
        0 < m.message_id.len(),
        encode_utf8(m.message_id).len() <= 256,
        m.target_device_id matches Some(target) ==> 0 < target.len() && encode_utf8(target).len()
            <= 256,
        m.payload.len() <= i64::MAX,
        forall|i: int|
            0 <= i < t.receipts.len() ==> !((#[trigger] t.receipts[i]).relay_id == m.relay_id
                && t.receipts[i].source == m.source.name() && t.receipts[i].message_id
                == m.message_id),
    ensures
        ({
            let fault = store_fault(limits, t, m);
            let destination = m.source.other().name();
            let queue = t.pending.filter(
                |row: pending_message::Row|
                    row.relay_id == m.relay_id && row.destination == m.source.other().name(),
            );
            let head = t.head(m.relay_id, destination);
            let full = queue.len() >= limits.max_pending_messages;
            let heavy = m.payload.len() > limits.max_pending_bytes || total_bytes(queue)
                + m.payload.len() > limits.max_pending_bytes;
            let taken = exists|i: int|
                0 <= i < t.pending.len() && (#[trigger] t.pending[i]).relay_id == m.relay_id
                    && t.pending[i].destination == destination && t.pending[i].sequence == head + 1;
            &&& fault == Some(StoreError::TooManyPending) <==> full
            &&& fault == Some(StoreError::TooManyBytes) <==> !full && heavy
            &&& fault == Some(StoreError::SequenceExhausted) <==> !full && !heavy && head
                == i64::MAX
            &&& fault == Some(StoreError::SequenceTaken) <==> !full && !heavy && head < i64::MAX
                && taken
            &&& fault == Some(StoreError::NegativeSequence) <==> !full && !heavy && !taken && head
                + 1 < 0
            &&& fault != Some(StoreError::ConflictingPayload)
        }),
{
    let destination = m.source.other().name();
    lemma_filter_congruent(
        t.pending,
        pending_message::in_channel(m.relay_id, destination),
        |row: pending_message::Row|
            row.relay_id == m.relay_id && row.destination == m.source.other().name(),
    );
    assert(!present(t.receipts, receipt::keyed(m.relay_id, m.source.name(), m.message_id)));
    let head = t.head(m.relay_id, destination);
    if head < i64::MAX {
        let q = pending_message::keyed(m.relay_id, destination, (head + 1) as i64);
        if present(t.pending, q) {
            let k = choose|k: int| 0 <= k < t.pending.len() && q(#[trigger] t.pending[k]);
            assert(t.pending[k].relay_id == m.relay_id);
        }
        if exists|i: int|
            0 <= i < t.pending.len() && (#[trigger] t.pending[i]).relay_id == m.relay_id
                && t.pending[i].destination == destination && t.pending[i].sequence == head + 1 {
            let k = choose|i: int|
                0 <= i < t.pending.len() && (#[trigger] t.pending[i]).relay_id == m.relay_id
                    && t.pending[i].destination == destination && t.pending[i].sequence == head + 1;
            assert(q(t.pending[k]));
        }
    }
}

/// A stored message with a new id gets one receipt and one place in the queue,
/// both with the sequence after the direction's last, and goes out at once.
/// Nothing else of these tables changes.
pub proof fn new_messages_get_the_next_sequence(t: Tables, m: Sending, now: i64)
    requires
        m.payload.len() <= i64::MAX,
        -1 <= t.head(m.relay_id, m.source.other().name()) < i64::MAX,
        forall|i: int|
            0 <= i < t.receipts.len() ==> !((#[trigger] t.receipts[i]).relay_id == m.relay_id
                && t.receipts[i].source == m.source.name() && t.receipts[i].message_id
                == m.message_id),
    ensures
        ({
            let after = after_store(t, m, now);
            let destination = m.source.other().name();
            let next = (t.head(m.relay_id, destination) + 1) as i64;
            let written = counter::Row {
                relay_id: m.relay_id,
                destination,
                next_sequence: next,
            };
            let receipt = receipt::Row {
                relay_id: m.relay_id,
                source: m.source.name(),
                message_id: m.message_id,
                destination,
                sequence: next,
                payload_hash: m.payload_hash,
                created_at: now,
            };
            let row = pending_message::Row {
                relay_id: m.relay_id,
                destination,
                sequence: next,
                message_id: m.message_id,
                payload: m.payload,
                payload_bytes: m.payload.len() as i64,
                created_at: now,
                target_device_id: m.target_device_id,
            };
            &&& after.devices == t.devices
            &&& after.receipts == t.receipts.push(receipt)
            &&& after.pending == t.pending.push(row)
            &&& forall|i: int|
                0 <= i < t.counters.len() && (#[trigger] t.counters[i]).relay_id == m.relay_id
                    && t.counters[i].destination == destination && (forall|j: int|
                    0 <= j < i ==> !((#[trigger] t.counters[j]).relay_id == m.relay_id
                        && t.counters[j].destination == destination)) ==> after.counters
                    == t.counters.update(i, written)
            &&& (forall|i: int|
                0 <= i < t.counters.len() ==> !((#[trigger] t.counters[i]).relay_id == m.relay_id
                    && t.counters[i].destination == destination)) ==> after.counters
                == t.counters.push(written)
            &&& store_delivery(t, m, now) == Some(
                Delivery {
                    message_id: m.message_id,
                    sequence: (t.head(m.relay_id, destination) + 1) as u64,
                    payload: m.payload,
                    target_device_id: m.target_device_id,
                },
            )
            &&& store_log(t, m, now).contains(ChangeView::PutCounter(written))
            &&& store_log(t, m, now).contains(ChangeView::PutReceipt(receipt))
            &&& store_log(t, m, now).contains(ChangeView::PutPending(row))
            &&& store_log(t, m, now).len() == 3
        }),
{
    let destination = m.source.other().name();
    let after = after_store(t, m, now);
    let p = counter::keyed(m.relay_id, destination);
    assert(!present(t.receipts, receipt::keyed(m.relay_id, m.source.name(), m.message_id)));
    let next = (t.head(m.relay_id, destination) + 1) as i64;
    let written = counter::Row { relay_id: m.relay_id, destination, next_sequence: next };
    assert forall|i: int|
        0 <= i < t.counters.len() && (#[trigger] t.counters[i]).relay_id == m.relay_id
            && t.counters[i].destination == destination && (forall|j: int|
            0 <= j < i ==> !((#[trigger] t.counters[j]).relay_id == m.relay_id
                && t.counters[j].destination == destination)) implies after.counters
        == t.counters.update(i, written) by {
        assert(first_at(t.counters, p, i));
        lemma_first(t.counters, p, i);
    }
    let log = store_log(t, m, now);
    assert(log.contains(log[0]) && log.contains(log[1]) && log.contains(log[2]));
}

/// A message whose id has a receipt changes nothing, and what goes out is the
/// row that still waits under the receipt's sequence, or nothing.
pub proof fn known_messages_change_nothing(t: Tables, m: Sending, now: i64, i: int)
    requires
        0 <= i < t.receipts.len(),
        t.receipts[i].relay_id == m.relay_id,
        t.receipts[i].source == m.source.name(),
        t.receipts[i].message_id == m.message_id,
        forall|j: int|
            0 <= j < i ==> !((#[trigger] t.receipts[j]).relay_id == m.relay_id
                && t.receipts[j].source == m.source.name() && t.receipts[j].message_id
                == m.message_id),
    ensures
        after_store(t, m, now) == t,
        store_log(t, m, now).len() == 0,
        (forall|k: int|
            0 <= k < t.pending.len() ==> !((#[trigger] t.pending[k]).relay_id == m.relay_id
                && t.pending[k].destination == m.source.other().name() && t.pending[k].sequence
                == t.receipts[i].sequence)) ==> store_delivery(t, m, now) is None,
        forall|k: int|
            0 <= k < t.pending.len() && (#[trigger] t.pending[k]).relay_id == m.relay_id
                && t.pending[k].destination == m.source.other().name() && t.pending[k].sequence
                == t.receipts[i].sequence && (forall|j: int|
                0 <= j < k ==> !((#[trigger] t.pending[j]).relay_id == m.relay_id
                    && t.pending[j].destination == m.source.other().name() && t.pending[j].sequence
                    == t.receipts[i].sequence)) ==> store_delivery(t, m, now) == Some(
                Delivery {
                    message_id: t.pending[k].message_id,
                    sequence: t.pending[k].sequence as u64,
                    payload: t.pending[k].payload,
                    target_device_id: t.pending[k].target_device_id,
                },
            ),
{
    let p = receipt::keyed(m.relay_id, m.source.name(), m.message_id);
    assert(first_at(t.receipts, p, i));
    lemma_first(t.receipts, p, i);
    let q = pending_message::keyed(m.relay_id, m.source.other().name(), t.receipts[i].sequence);
    assert forall|k: int|
        0 <= k < t.pending.len() && (#[trigger] t.pending[k]).relay_id == m.relay_id
            && t.pending[k].destination == m.source.other().name() && t.pending[k].sequence
            == t.receipts[i].sequence && (forall|j: int|
            0 <= j < k ==> !((#[trigger] t.pending[j]).relay_id == m.relay_id
                && t.pending[j].destination == m.source.other().name() && t.pending[j].sequence
                == t.receipts[i].sequence)) implies store_delivery(t, m, now) == Some(
        Delivery {
            message_id: t.pending[k].message_id,
            sequence: t.pending[k].sequence as u64,
            payload: t.pending[k].payload,
            target_device_id: t.pending[k].target_device_id,
        },
    ) by {
        assert(first_at(t.pending, q, k));
        lemma_first(t.pending, q, k);
    }
}

} // verus!
