//! The state of a relay as mathematical tables, and what each operation makes
//! of it.

use crate::config::Limits;
use crate::entity::{counter, device, pending_message, receipt};
use crate::frame::Endpoint;
use crate::ids::{id_fault, IdError};
use crate::table::{find, present, put, without};
use vstd::prelude::*;

verus! {

/// Everything that the relay keeps.
#[verifier::ext_equal]
pub struct Tables {
    pub counters: Seq<counter::Row>,
    pub receipts: Seq<receipt::Row>,
    pub pending: Seq<pending_message::Row>,
    pub devices: Seq<device::Row>,
}

/// The message of a `ClientFrame::Message` together with its sender and the
/// fingerprint of its payload.
pub struct Sending {
    pub relay_id: Seq<char>,
    pub source: Endpoint,
    pub message_id: Seq<char>,
    pub payload: Seq<u8>,
    pub payload_hash: Seq<char>,
    pub target_device_id: Option<Seq<char>>,
}

/// A pending message as it is handed out for delivery.
#[verifier::ext_equal]
pub struct Delivery {
    pub message_id: Seq<char>,
    pub sequence: u64,
    pub payload: Seq<u8>,
    pub target_device_id: Option<Seq<char>>,
}

/// `now` less `secs`, kept within the range of the clock.
pub open spec fn earlier(now: i64, secs: i64) -> i64 {
    if now - secs < i64::MIN {
        i64::MIN
    } else if now - secs > i64::MAX {
        i64::MAX
    } else {
        (now - secs) as i64
    }
}

/// Why a message is not stored.
#[derive(Clone, Copy, Debug, PartialEq, Eq, Structural)]
pub enum StoreError {
    EmptyMessageId,
    MessageIdTooLong,
    EmptyTarget,
    TargetTooLong,
    PayloadTooLarge,
    ConflictingPayload,
    TooManyPending,
    TooManyBytes,
    SequenceExhausted,
    SequenceTaken,
    NegativeSequence,
}

impl StoreError {
    /// The reason as the sender reads it.
    pub open spec fn words(self) -> Seq<char> {
        match self {
            StoreError::EmptyMessageId => "message_id must not be empty"@,
            StoreError::MessageIdTooLong => "message_id is too long"@,
            StoreError::EmptyTarget => "target_device_id must not be empty"@,
            StoreError::TargetTooLong => "target_device_id is too long"@,
            StoreError::PayloadTooLarge => "payload is too large"@,
            StoreError::ConflictingPayload => "message_id was already used with a different payload"@,
            StoreError::TooManyPending => "queue_full: pending message count limit reached"@,
            StoreError::TooManyBytes => "queue_full: pending payload byte limit reached"@,
            StoreError::SequenceExhausted => "relay sequence space exhausted"@,
            StoreError::SequenceTaken => "relay sequence is already in use"@,
            StoreError::NegativeSequence => "stored sequence is negative"@,
        }
    }

    /// The message itself is at fault: it will be refused however often it is
    /// sent. Anything else may pass, and the message may be sent again.
    pub open spec fn permanent(self) -> bool {
        match self {
            StoreError::EmptyMessageId | StoreError::MessageIdTooLong => true,
            StoreError::EmptyTarget | StoreError::TargetTooLong => true,
            StoreError::PayloadTooLarge | StoreError::ConflictingPayload => true,
            _ => false,
        }
    }

    /// Whether the message itself is at fault.
    pub fn is_permanent(&self) -> (r: bool)
        ensures
            r == self.permanent(),
    {
        match self {
            StoreError::EmptyMessageId | StoreError::MessageIdTooLong => true,
            StoreError::EmptyTarget | StoreError::TargetTooLong => true,
            StoreError::PayloadTooLarge | StoreError::ConflictingPayload => true,
            _ => false,
        }
    }

    /// The reason as the sender reads it.
    pub fn message(&self) -> (s: &'static str)
        ensures
            s@ == self.words(),
    {
        match self {
            StoreError::EmptyMessageId => "message_id must not be empty",
            StoreError::MessageIdTooLong => "message_id is too long",
            StoreError::EmptyTarget => "target_device_id must not be empty",
            StoreError::TargetTooLong => "target_device_id is too long",
            StoreError::PayloadTooLarge => "payload is too large",
            StoreError::ConflictingPayload => "message_id was already used with a different payload",
            StoreError::TooManyPending => "queue_full: pending message count limit reached",
            StoreError::TooManyBytes => "queue_full: pending payload byte limit reached",
            StoreError::SequenceExhausted => "relay sequence space exhausted",
            StoreError::SequenceTaken => "relay sequence is already in use",
            StoreError::NegativeSequence => "stored sequence is negative",
        }
    }
}

impl Sending {
    /// The wire name of the endpoint that the message goes to.
    pub open spec fn destination(self) -> Seq<char> {
        self.source.other().name()
    }
}

impl Tables {
    /// The last sequence given out for a pairing id and direction.
    pub open spec fn head(self, relay_id: Seq<char>, destination: Seq<char>) -> i64 {
        match find(self.counters, counter::keyed(relay_id, destination)) {
            Some(row) => row.next_sequence,
            None => 0,
        }
    }

    /// The last sequence that a device acknowledged.
    pub open spec fn cursor(
        self,
        relay_id: Seq<char>,
        endpoint: Seq<char>,
        device_id: Seq<char>,
    ) -> i64 {
        match find(self.devices, device::keyed(relay_id, endpoint, device_id)) {
            Some(row) => row.last_acked_sequence,
            None => 0,
        }
    }

    /// The messages that wait for one pairing id and direction.
    pub open spec fn queue(
        self,
        relay_id: Seq<char>,
        destination: Seq<char>,
    ) -> Seq<pending_message::Row> {
        self.pending.filter(pending_message::in_channel(relay_id, destination))
    }

    /// The receipt of a message that was stored before.
    pub open spec fn receipt_of(self, m: Sending) -> Option<receipt::Row> {
        find(self.receipts, receipt::keyed(m.relay_id, m.source.name(), m.message_id))
    }

    /// The waiting message with this sequence.
    pub open spec fn waiting(
        self,
        relay_id: Seq<char>,
        destination: Seq<char>,
        sequence: i64,
    ) -> Option<pending_message::Row> {
        find(self.pending, pending_message::keyed(relay_id, destination, sequence))
    }
}

/// The payload bytes of a run of messages.
pub open spec fn total_bytes(queue: Seq<pending_message::Row>) -> int
    decreases queue.len(),
{
    if queue.len() == 0 {
        0
    } else {
        total_bytes(queue.drop_last()) + queue.last().payload_bytes
    }
}

/// A pending row as it is handed out. Only rows with a sequence of zero or
/// more are.
pub open spec fn delivery(row: pending_message::Row) -> Delivery {
    Delivery {
        message_id: row.message_id,
        sequence: row.sequence as u64,
        payload: row.payload,
        target_device_id: row.target_device_id,
    }
}

/// The fault of a message id, if any.
pub open spec fn message_id_fault(message_id: Seq<char>) -> Option<StoreError> {
    match id_fault(message_id) {
        Some(IdError::Empty) => Some(StoreError::EmptyMessageId),
        Some(IdError::TooLong) => Some(StoreError::MessageIdTooLong),
        None => None,
    }
}

/// The fault of a target device id, if any.
pub open spec fn target_fault(target_device_id: Seq<char>) -> Option<StoreError> {
    match id_fault(target_device_id) {
        Some(IdError::Empty) => Some(StoreError::EmptyTarget),
        Some(IdError::TooLong) => Some(StoreError::TargetTooLong),
        None => None,
    }
}

/// The fault of a message whatever was stored before, if any.
pub open spec fn form_fault(m: Sending) -> Option<StoreError> {
    if message_id_fault(m.message_id) is Some {
        message_id_fault(m.message_id)
    } else if m.target_device_id is Some && target_fault(m.target_device_id->0) is Some {
        target_fault(m.target_device_id->0)
    } else if m.payload.len() > i64::MAX {
        Some(StoreError::PayloadTooLarge)
    } else {
        None
    }
}

/// What keeps a message with a known id from being confirmed again, if anything.
pub open spec fn retry_fault(t: Tables, m: Sending, receipt: receipt::Row) -> Option<StoreError> {
    if receipt.destination != m.destination() || receipt.payload_hash != m.payload_hash {
        Some(StoreError::ConflictingPayload)
    } else if t.waiting(m.relay_id, m.destination(), receipt.sequence) is Some && receipt.sequence
        < 0 {
        Some(StoreError::NegativeSequence)
    } else {
        None
    }
}

/// What keeps a message with a new id out of the queue, if anything.
pub open spec fn queue_fault(limits: Limits, t: Tables, m: Sending) -> Option<StoreError> {
    let queue = t.queue(m.relay_id, m.destination());
    let head = t.head(m.relay_id, m.destination());
    if queue.len() >= limits.max_pending_messages {
        Some(StoreError::TooManyPending)
    } else if m.payload.len() > limits.max_pending_bytes || total_bytes(queue) + m.payload.len()
        > limits.max_pending_bytes {
        Some(StoreError::TooManyBytes)
    } else if head == i64::MAX {
        Some(StoreError::SequenceExhausted)
    } else if t.waiting(m.relay_id, m.destination(), (head + 1) as i64) is Some {
        Some(StoreError::SequenceTaken)
    } else if head + 1 < 0 {
        Some(StoreError::NegativeSequence)
    } else {
        None
    }
}

/// Why a message is refused, if it is.
pub open spec fn store_fault(limits: Limits, t: Tables, m: Sending) -> Option<StoreError> {
    if form_fault(m) is Some {
        form_fault(m)
    } else {
        match t.receipt_of(m) {
            Some(receipt) => retry_fault(t, m, receipt),
            None => queue_fault(limits, t, m),
        }
    }
}

/// The counter row that a new message leaves.
pub open spec fn new_counter(t: Tables, m: Sending) -> counter::Row {
    counter::Row {
        relay_id: m.relay_id,
        destination: m.destination(),
        next_sequence: (t.head(m.relay_id, m.destination()) + 1) as i64,
    }
}

/// The receipt row that a new message leaves.
pub open spec fn new_receipt(t: Tables, m: Sending, now: i64) -> receipt::Row {
    receipt::Row {
        relay_id: m.relay_id,
        source: m.source.name(),
        message_id: m.message_id,
        destination: m.destination(),
        sequence: (t.head(m.relay_id, m.destination()) + 1) as i64,
        payload_hash: m.payload_hash,
        created_at: now,
    }
}

/// The pending row that a new message leaves.
pub open spec fn new_pending(t: Tables, m: Sending, now: i64) -> pending_message::Row {
    pending_message::Row {
        relay_id: m.relay_id,
        destination: m.destination(),
        sequence: (t.head(m.relay_id, m.destination()) + 1) as i64,
        message_id: m.message_id,
        payload: m.payload,
        payload_bytes: m.payload.len() as i64,
        created_at: now,
        target_device_id: m.target_device_id,
    }
}

/// The tables after a message that is not refused: a known one leaves them as
/// they are, a new one gets the next sequence of its direction, a receipt and
/// a place in the queue.
pub open spec fn after_store(t: Tables, m: Sending, now: i64) -> Tables {
    if t.receipt_of(m) is Some {
        t
    } else {
        Tables {
            counters: put(t.counters, counter::keyed(m.relay_id, m.destination()), new_counter(t, m)),
            receipts: t.receipts.push(new_receipt(t, m, now)),
            pending: t.pending.push(new_pending(t, m, now)),
            devices: t.devices,
        }
    }
}

/// What a message that is not refused hands out for live delivery: the new
/// message, or the known one while it still waits.
pub open spec fn store_delivery(t: Tables, m: Sending, now: i64) -> Option<Delivery> {
    match t.receipt_of(m) {
        Some(receipt) => match t.waiting(m.relay_id, m.destination(), receipt.sequence) {
            Some(row) => Some(delivery(row)),
            None => None,
        },
        None => Some(delivery(new_pending(t, m, now))),
    }
}

/// One device of one endpoint of one channel.
pub struct DeviceKey {
    pub relay_id: Seq<char>,
    pub endpoint: Endpoint,
    pub device_id: Seq<char>,
}

impl DeviceKey {
    pub open spec fn keyed(self) -> spec_fn(device::Row) -> bool {
        device::keyed(self.relay_id, self.endpoint.name(), self.device_id)
    }

    /// The row of this device in the table.
    pub open spec fn row(self, t: Tables) -> Option<device::Row> {
        find(t.devices, self.keyed())
    }

    /// The last sequence that this device acknowledged.
    pub open spec fn cursor(self, t: Tables) -> i64 {
        t.cursor(self.relay_id, self.endpoint.name(), self.device_id)
    }

    /// The row for this device with the given cursor and time.
    pub open spec fn row_with(self, last_acked_sequence: i64, last_seen_at: i64) -> device::Row {
        device::Row {
            relay_id: self.relay_id,
            endpoint: self.endpoint.name(),
            device_id: self.device_id,
            last_acked_sequence,
            last_seen_at,
        }
    }
}

/// The tables after the row of a device was written.
pub open spec fn with_device(t: Tables, key: DeviceKey, row: device::Row) -> Tables {
    Tables { devices: put(t.devices, key.keyed(), row), ..t }
}

/// The tables after a device connected: it is known and was seen just now, and
/// its cursor stands where it stood.
pub open spec fn after_register(t: Tables, key: DeviceKey, now: i64) -> Tables {
    with_device(t, key, key.row_with(key.cursor(t), now))
}

/// The messages that a device has yet to acknowledge: those of its direction
/// beyond its cursor that are meant for it.
pub open spec fn unacknowledged(t: Tables, key: DeviceKey) -> spec_fn(pending_message::Row) -> bool {
    |row: pending_message::Row|
        {
            &&& row.relay_id == key.relay_id
            &&& row.destination == key.endpoint.name()
            &&& row.sequence > key.cursor(t)
            &&& pending_message::meant_for(row, key.device_id)
        }
}

/// The deliveries are in the order of their sequences.
pub open spec fn in_order(deliveries: Seq<Delivery>) -> bool {
    forall|i: int, j: int|
        0 <= i < j < deliveries.len() ==> (#[trigger] deliveries[i]).sequence <= (
        #[trigger] deliveries[j]).sequence
}

/// `deliveries` hands out exactly the pending rows that satisfy `p`, each as
/// often as it occurs, in the order of their sequences.
pub open spec fn hands_out(
    deliveries: Seq<Delivery>,
    pending: Seq<pending_message::Row>,
    p: spec_fn(pending_message::Row) -> bool,
) -> bool {
    &&& in_order(deliveries)
    &&& deliveries.to_multiset() == pending.filter(p).map_values(
        |row: pending_message::Row| delivery(row),
    ).to_multiset()
}

/// The row that an acknowledgement up to `upto` writes: the cursor only moves
/// forward.
pub open spec fn acked_row(t: Tables, key: DeviceKey, upto: i64, now: i64) -> Option<device::Row> {
    match key.row(t) {
        Some(row) => if upto > row.last_acked_sequence {
            Some(key.row_with(upto, now))
        } else {
            None
        },
        None => Some(key.row_with(upto, now)),
    }
}

/// The tables after the cursor of a device moved.
pub open spec fn with_cursor(t: Tables, key: DeviceKey, row: Option<device::Row>) -> Tables {
    match row {
        Some(r) => with_device(t, key, r),
        None => t,
    }
}

/// Every device of the endpoint that was seen at `cutoff` or later has
/// acknowledged `sequence`. Where no device was, `upto` decides.
pub open spec fn passed_by_all(
    t: Tables,
    key: DeviceKey,
    cutoff: i64,
    upto: i64,
    sequence: i64,
) -> bool {
    let seen = device::active(key.relay_id, key.endpoint.name(), cutoff);
    if present(t.devices, seen) {
        forall|i: int|
            0 <= i < t.devices.len() && seen(#[trigger] t.devices[i]) ==> sequence
                <= t.devices[i].last_acked_sequence
    } else {
        sequence <= upto
    }
}

/// The messages that go when a device acknowledged up to `upto`: a broadcast
/// once every active device passed it, a targeted message once its target did.
pub open spec fn purged(
    t: Tables,
    key: DeviceKey,
    cutoff: i64,
    upto: i64,
) -> spec_fn(pending_message::Row) -> bool {
    |row: pending_message::Row|
        {
            &&& row.relay_id == key.relay_id
            &&& row.destination == key.endpoint.name()
            &&& {
                ||| row.target_device_id is None && passed_by_all(t, key, cutoff, upto, row.sequence)
                ||| row.target_device_id == Some(key.device_id) && row.sequence <= upto
            }
        }
}

/// The tables after the messages that every receiver passed were purged.
pub open spec fn after_prune(t: Tables, key: DeviceKey, cutoff: i64, upto: i64) -> Tables {
    Tables { pending: without(t.pending, purged(t, key, cutoff, upto)), ..t }
}

/// The sequence of an acknowledgement, within the range of the tables.
pub open spec fn clamped(sequence: u64) -> i64 {
    if sequence > i64::MAX {
        i64::MAX
    } else {
        sequence as i64
    }
}

/// The tables after a device acknowledged everything up to `sequence`.
pub open spec fn after_ack(
    limits: Limits,
    t: Tables,
    key: DeviceKey,
    sequence: u64,
    now: i64,
) -> Tables {
    let upto = clamped(sequence);
    after_prune(
        with_cursor(t, key, acked_row(t, key, upto, now)),
        key,
        earlier(now, limits.device_retention_secs),
        upto,
    )
}

/// The tables after a device skipped its whole backlog.
pub open spec fn after_ack_head(limits: Limits, t: Tables, key: DeviceKey, now: i64) -> Tables {
    let head = t.head(key.relay_id, key.endpoint.name());
    after_prune(
        with_device(t, key, key.row_with(head, now)),
        key,
        earlier(now, limits.device_retention_secs),
        head,
    )
}

/// The pending messages that are too old at `now`.
pub open spec fn expired_pending(
    limits: Limits,
    now: i64,
) -> spec_fn(pending_message::Row) -> bool {
    |row: pending_message::Row| row.created_at < earlier(now, limits.pending_retention_secs)
}

/// The receipts of pending messages that are too old at `now`.
pub open spec fn orphaned_receipt(
    limits: Limits,
    t: Tables,
    now: i64,
) -> spec_fn(receipt::Row) -> bool {
    |row: receipt::Row|
        present(
            t.pending.filter(expired_pending(limits, now)),
            pending_message::keyed(row.relay_id, row.destination, row.sequence),
        )
}

/// The receipts that are too old at `now`.
pub open spec fn expired_receipt(limits: Limits, now: i64) -> spec_fn(receipt::Row) -> bool {
    |row: receipt::Row| row.created_at < earlier(now, limits.receipt_retention_secs)
}

/// The receipts that a cleanup at `now` removes.
pub open spec fn removed_receipt(
    limits: Limits,
    t: Tables,
    now: i64,
) -> spec_fn(receipt::Row) -> bool {
    |row: receipt::Row|
        orphaned_receipt(limits, t, now)(row) || expired_receipt(limits, now)(row)
}

/// The devices that were not seen for too long at `now`.
pub open spec fn expired_device(limits: Limits, now: i64) -> spec_fn(device::Row) -> bool {
    |row: device::Row| row.last_seen_at < earlier(now, limits.device_retention_secs)
}

/// The tables after a cleanup at `now`: old messages go with their receipts,
/// and old receipts and old devices go by themselves.
pub open spec fn after_cleanup(limits: Limits, t: Tables, now: i64) -> Tables {
    Tables {
        counters: t.counters,
        receipts: without(t.receipts, removed_receipt(limits, t, now)),
        pending: without(t.pending, expired_pending(limits, now)),
        devices: without(t.devices, expired_device(limits, now)),
    }
}

} // verus!
