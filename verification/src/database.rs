//! The relay's store: messages that wait for acknowledgement, receipts of the
//! messages that were stored, and the devices that receive them.
//!
//! A `Database` holds rows in memory. Every operation works on any set of
//! rows that contains those of the channel it is about, and notes in its
//! journal which rows it wrote or deleted.

use crate::config::Limits;
use crate::digest::{fingerprint, payload_hash};
use crate::entity::{counter, device, pending_message, receipt};
use crate::frame::{copy_text, text_of, Endpoint, ServerFrame, ServerFrameView};
use crate::ids::{check_id, IdError};
use crate::journal::{dropped_devices, dropped_pending, dropped_receipts, Change, ChangeView};
use crate::payload::Payload;
use crate::promises::keeping::deletions_count_what_goes;
use crate::table::{first_at, lemma_first, partition, position, present, put, rows};
use crate::tables::{
    acked_row, after_ack, after_ack_head, after_cleanup, after_prune, after_register, after_store,
    clamped, delivery, earlier, expired_device, expired_pending, hands_out, in_order,
    message_id_fault, new_counter, new_pending, new_receipt, passed_by_all, purged, removed_receipt,
    store_delivery, store_fault, target_fault, total_bytes, unacknowledged, with_cursor,
    with_device, Delivery, DeviceKey, Sending, StoreError, Tables,
};
use vstd::prelude::*;

verus! {

/// A pending message as it is handed out for delivery.
#[derive(Debug, PartialEq)]
pub struct StoredMessage {
    pub message_id: String,
    pub sequence: u64,
    pub payload: Payload,
    pub target_device_id: Option<String>,
}

impl View for StoredMessage {
    type V = Delivery;

    open spec fn view(&self) -> Delivery {
        Delivery {
            message_id: self.message_id@,
            sequence: self.sequence,
            payload: self.payload@,
            target_device_id: text_of(self.target_device_id),
        }
    }
}

/// The frame that carries a delivery.
pub open spec fn message_frame(d: Delivery) -> ServerFrameView {
    ServerFrameView::Message { message_id: d.message_id, sequence: d.sequence, payload: d.payload }
}

/// A stored row cannot be handed out.
#[derive(Clone, Copy, Debug, PartialEq, Eq, Structural)]
pub enum ReadError {
    NegativeSequence,
}

impl ReadError {
    /// What is wrong with the row.
    pub fn message(&self) -> (s: &'static str)
        ensures
            s@ == "stored sequence is negative"@,
    {
        "stored sequence is negative"
    }
}

impl StoredMessage {
    /// The frame that carries the message to a device.
    pub fn into_frame(self) -> (frame: ServerFrame)
        ensures
            frame@ == message_frame(self@),
    {
        ServerFrame::Message {
            message_id: self.message_id,
            sequence: self.sequence,
            payload: self.payload,
        }
    }

    /// Takes a pending row over, unless its sequence is negative.
    pub fn from_row(row: &pending_message::Model) -> (r: Result<StoredMessage, ReadError>)
        ensures
            match r {
                Ok(message) => row.sequence >= 0 && message@ == delivery(row@),
                Err(_) => row.sequence < 0,
            },
    {
        if row.sequence < 0 {
            return Err(ReadError::NegativeSequence);
        }
        Ok(
            StoredMessage {
                message_id: row.message_id.clone(),
                sequence: row.sequence as u64,
                payload: row.payload.clone(),
                target_device_id: copy_text(&row.target_device_id),
            },
        )
    }
}

/// The outcome of a message that was not refused.
#[derive(Debug, PartialEq)]
pub struct StoreResult {
    /// The message, while it waits for acknowledgement.
    pub pending: Option<StoredMessage>,
}

impl StoreResult {
    /// The message to deliver, if any.
    pub open spec fn delivery(self) -> Option<Delivery> {
        match self.pending {
            Some(message) => Some(message@),
            None => None,
        }
    }
}

/// What a cleanup removed.
#[derive(Clone, Copy, Debug, PartialEq, Eq, Structural)]
pub struct CleanupStats {
    pub expired_pending: usize,
    pub expired_receipts: usize,
}

/// The rows that an operation works on, and the journal of what it changed.
#[derive(Debug)]
pub struct Database {
    pub limits: Limits,
    pub counters: Vec<counter::Model>,
    pub receipts: Vec<receipt::Model>,
    pub pending: Vec<pending_message::Model>,
    pub devices: Vec<device::Model>,
    pub journal: Vec<Change>,
}

impl View for Database {
    type V = Tables;

    open spec fn view(&self) -> Tables {
        Tables {
            counters: rows(self.counters@),
            receipts: rows(self.receipts@),
            pending: rows(self.pending@),
            devices: rows(self.devices@),
        }
    }
}

/// The message of these arguments.
pub open spec fn sending(
    relay_id: &str,
    source: Endpoint,
    message_id: &str,
    payload: &Payload,
    payload_hash: Seq<char>,
    target_device_id: Option<&str>,
) -> Sending {
    Sending {
        relay_id: relay_id@,
        source,
        message_id: message_id@,
        payload: payload@,
        payload_hash,
        target_device_id: match target_device_id {
            Some(target) => Some(target@),
            None => None,
        },
    }
}

/// The device of these arguments.
pub open spec fn device_key(relay_id: &str, endpoint: Endpoint, device_id: &str) -> DeviceKey {
    DeviceKey { relay_id: relay_id@, endpoint, device_id: device_id@ }
}

/// Accepts exactly the ids that a message may have.
pub fn validate_message_id(message_id: &str) -> (r: Result<(), StoreError>)
    ensures
        match r {
            Ok(()) => message_id_fault(message_id@) is None,
            Err(e) => message_id_fault(message_id@) == Some(e),
        },
{
    match check_id(message_id) {
        Ok(()) => Ok(()),
        Err(IdError::Empty) => Err(StoreError::EmptyMessageId),
        Err(IdError::TooLong) => Err(StoreError::MessageIdTooLong),
    }
}

/// Accepts exactly the ids that a target device may have.
pub fn validate_target_device_id(device_id: &str) -> (r: Result<(), StoreError>)
    ensures
        match r {
            Ok(()) => target_fault(device_id@) is None,
            Err(e) => target_fault(device_id@) == Some(e),
        },
{
    match check_id(device_id) {
        Ok(()) => Ok(()),
        Err(IdError::Empty) => Err(StoreError::EmptyTarget),
        Err(IdError::TooLong) => Err(StoreError::TargetTooLong),
    }
}

/// `now` less `secs`, kept within the range of the clock. Rows from before that
/// time are too old.
pub fn cutoff(now: i64, secs: i64) -> (r: i64)
    ensures
        r == earlier(now, secs),
{
    match now.checked_sub(secs) {
        Some(t) => t,
        None => if secs > 0 {
            i64::MIN
        } else {
            i64::MAX
        },
    }
}

impl Database {
    /// The journal of the changes since the rows were read.
    pub open spec fn log(&self) -> Seq<ChangeView> {
        rows(self.journal@)
    }

    /// A database over rows that were read, with an empty journal.
    pub fn open(
        limits: Limits,
        counters: Vec<counter::Model>,
        receipts: Vec<receipt::Model>,
        pending: Vec<pending_message::Model>,
        devices: Vec<device::Model>,
    ) -> (db: Database)
        ensures
            db.limits == limits,
            db@ == (Tables {
                counters: rows(counters@),
                receipts: rows(receipts@),
                pending: rows(pending@),
                devices: rows(devices@),
            }),
            db.log() == Seq::<ChangeView>::empty(),
    {
        let db = Database { limits, counters, receipts, pending, devices, journal: Vec::new() };
        proof {
            assert(db.log() =~= Seq::<ChangeView>::empty());
        }
        db
    }

    /// Hands over the journal and starts an empty one.
    pub fn take_journal(&mut self) -> (changes: Vec<Change>)
        ensures
            rows(changes@) == old(self).log(),
            final(self).log() == Seq::<ChangeView>::empty(),
            final(self)@ == old(self)@,
            final(self).limits == old(self).limits,
    {
        let mut changes: Vec<Change> = Vec::new();
        std::mem::swap(&mut changes, &mut self.journal);
        proof {
            assert(self.log() =~= Seq::<ChangeView>::empty());
        }
        changes
    }

    /// The number of messages and of payload bytes that wait in one direction.
    fn totals(&self, relay_id: &String, destination: &String) -> (r: (usize, i128))
        ensures
            r.0 == self@.queue(relay_id@, destination@).len(),
            r.1 == total_bytes(self@.queue(relay_id@, destination@)),
    {
        let ghost all = self@.pending;
        let ghost p = pending_message::in_channel(relay_id@, destination@);
        let mut count: usize = 0;
        let mut bytes: i128 = 0;
        let mut i: usize = 0;
        proof {
            assert(all.take(0).filter(p) =~= Seq::empty());
        }
        while i < self.pending.len()
            invariant
                i <= self.pending.len(),
                all == self@.pending,
                p == pending_message::in_channel(relay_id@, destination@),
                count <= i,
                count == all.take(i as int).filter(p).len(),
                bytes == total_bytes(all.take(i as int).filter(p)),
                -(0x8000_0000_0000_0000 * i) <= bytes <= 0x7fff_ffff_ffff_ffff * i,
            decreases self.pending.len() - i,
        {
            let row = &self.pending[i];
            proof {
                assert(all.take(i + 1) =~= all.take(i as int).push(row@));
                let before = all.take(i as int).filter(p);
                all.take(i as int).lemma_filter_push(row@, p);
                assert(before.push(row@).drop_last() =~= before);
                assert(i <= 0xffff_ffff_ffff_ffff);
            }
            if row.relay_id == *relay_id && row.destination == *destination {
                count = count + 1;
                bytes = bytes + row.payload_bytes as i128;
            }
            i = i + 1;
        }
        proof {
            assert(all.take(all.len() as int) =~= all);
        }
        (count, bytes)
    }

    /// The receipt of a message that was stored before.
    fn receipt_of(&self, relay_id: &String, source: &String, message_id: &String) -> (r: Option<
        usize,
    >)
        ensures
            match r {
                Some(i) => i < self.receipts@.len() && first_at(
                    self@.receipts,
                    receipt::keyed(relay_id@, source@, message_id@),
                    i as int,
                ),
                None => !present(self@.receipts, receipt::keyed(relay_id@, source@, message_id@)),
            },
    {
        let ghost p = receipt::keyed(relay_id@, source@, message_id@);
        let test = |row: &receipt::Model| -> (b: bool)
            ensures b == p(row@)
        {
            row.relay_id == *relay_id && row.source == *source && row.message_id == *message_id
        };
        position(&self.receipts, test, Ghost(p))
    }

    /// The waiting message with this sequence.
    fn waiting(&self, relay_id: &String, destination: &String, sequence: i64) -> (r: Option<usize>)
        ensures
            match r {
                Some(i) => i < self.pending@.len() && first_at(
                    self@.pending,
                    pending_message::keyed(relay_id@, destination@, sequence),
                    i as int,
                ),
                None => !present(
                    self@.pending,
                    pending_message::keyed(relay_id@, destination@, sequence),
                ),
            },
    {
        let ghost p = pending_message::keyed(relay_id@, destination@, sequence);
        let test = |row: &pending_message::Model| -> (b: bool)
            ensures b == p(row@)
        {
            row.relay_id == *relay_id && row.destination == *destination && row.sequence == sequence
        };
        position(&self.pending, test, Ghost(p))
    }

    /// The counter of one direction.
    fn counter_of(&self, relay_id: &String, destination: &String) -> (r: Option<usize>)
        ensures
            match r {
                Some(i) => i < self.counters@.len() && first_at(
                    self@.counters,
                    counter::keyed(relay_id@, destination@),
                    i as int,
                ),
                None => !present(self@.counters, counter::keyed(relay_id@, destination@)),
            },
    {
        let ghost p = counter::keyed(relay_id@, destination@);
        let test = |row: &counter::Model| -> (b: bool)
            ensures b == p(row@)
        {
            row.relay_id == *relay_id && row.destination == *destination
        };
        position(&self.counters, test, Ghost(p))
    }

    /// The row of one device.
    fn device_of(&self, relay_id: &String, endpoint: &String, device_id: &String) -> (r: Option<
        usize,
    >)
        ensures
            match r {
                Some(i) => i < self.devices@.len() && first_at(
                    self@.devices,
                    device::keyed(relay_id@, endpoint@, device_id@),
                    i as int,
                ),
                None => !present(self@.devices, device::keyed(relay_id@, endpoint@, device_id@)),
            },
    {
        let ghost p = device::keyed(relay_id@, endpoint@, device_id@);
        let test = |row: &device::Model| -> (b: bool)
            ensures b == p(row@)
        {
            row.relay_id == *relay_id && row.endpoint == *endpoint && row.device_id == *device_id
        };
        position(&self.devices, test, Ghost(p))
    }

    /// The last sequence given out in one direction.
    fn head(&self, relay_id: &String, destination: &String) -> (head: i64)
        ensures
            head == self@.head(relay_id@, destination@),
    {
        match self.counter_of(relay_id, destination) {
            Some(i) => {
                proof {
                    lemma_first(
                        self@.counters,
                        counter::keyed(relay_id@, destination@),
                        i as int,
                    );
                }
                self.counters[i].next_sequence
            },
            None => 0,
        }
    }

    /// Stores a message for the opposite endpoint, or confirms again one that
    /// was stored before with the same payload.
    pub fn store(
        &mut self,
        relay_id: &str,
        source: Endpoint,
        message_id: &str,
        payload: &Payload,
        target_device_id: Option<&str>,
        now: i64,
    ) -> (r: Result<StoreResult, StoreError>)
        ensures
            final(self).limits == old(self).limits,
            ({
                let m = sending(
                    relay_id,
                    source,
                    message_id,
                    payload,
                    fingerprint(payload@),
                    target_device_id,
                );
                let t = old(self)@;
                match r {
                    Ok(result) => {
                        &&& store_fault(old(self).limits, t, m) is None
                        &&& final(self)@ == after_store(t, m, now)
                        &&& final(self).log() == old(self).log() + store_log(t, m, now)
                        &&& result.delivery() == store_delivery(t, m, now)
                    },
                    Err(e) => {
                        &&& store_fault(old(self).limits, t, m) == Some(e)
                        &&& final(self)@ == t
                        &&& final(self).log() == old(self).log()
                    },
                }
            }),
    {
        let hash = payload_hash(payload.as_bytes());
        self.store_hashed(relay_id, source, message_id, payload, hash, target_device_id, now)
    }

    /// Stores a message whose payload has this fingerprint.
    pub fn store_hashed(
        &mut self,
        relay_id: &str,
        source: Endpoint,
        message_id: &str,
        payload: &Payload,
        payload_hash: String,
        target_device_id: Option<&str>,
        now: i64,
    ) -> (r: Result<StoreResult, StoreError>)
        ensures
            final(self).limits == old(self).limits,
            ({
                let m = sending(
                    relay_id,
                    source,
                    message_id,
                    payload,
                    payload_hash@,
                    target_device_id,
                );
                let t = old(self)@;
                match r {
                    Ok(result) => {
                        &&& store_fault(old(self).limits, t, m) is None
                        &&& final(self)@ == after_store(t, m, now)
                        &&& final(self).log() == old(self).log() + store_log(t, m, now)
                        &&& result.delivery() == store_delivery(t, m, now)
                    },
                    Err(e) => {
                        &&& store_fault(old(self).limits, t, m) == Some(e)
                        &&& final(self)@ == t
                        &&& final(self).log() == old(self).log()
                    },
                }
            }),
    {
        let ghost t = self@;
        let ghost m = sending(
            relay_id,
            source,
            message_id,
            payload,
            payload_hash@,
            target_device_id,
        );
        if let Err(e) = validate_message_id(message_id) {
            return Err(e);
        }
        if let Some(target) = target_device_id {
            if let Err(e) = validate_target_device_id(target) {
                return Err(e);
            }
        }
        if payload.len() as u64 > i64::MAX as u64 {
            return Err(StoreError::PayloadTooLarge);
        }
        let payload_bytes: i64 = payload.len() as i64;
        let relay_id = relay_id.to_owned();
        let message_id = message_id.to_owned();
        let destination = source.opposite().as_str().to_owned();
        let source = source.as_str().to_owned();
        let known = self.receipt_of(&relay_id, &source, &message_id);
        if let Some(i) = known {
            proof {
                lemma_first(t.receipts, receipt::keyed(relay_id@, source@, message_id@), i as int);
            }
            if self.receipts[i].destination != destination || self.receipts[i].payload_hash != payload_hash {
                return Err(StoreError::ConflictingPayload);
            }
            let sequence = self.receipts[i].sequence;
            let pending = match self.waiting(&relay_id, &destination, sequence) {
                Some(k) => {
                    proof {
                        lemma_first(
                            t.pending,
                            pending_message::keyed(relay_id@, destination@, sequence),
                            k as int,
                        );
                    }
                    match StoredMessage::from_row(&self.pending[k]) {
                        Ok(message) => Some(message),
                        Err(_) => return Err(StoreError::NegativeSequence),
                    }
                },
                None => None,
            };
            return Ok(StoreResult { pending });
        }
        let (count, bytes) = self.totals(&relay_id, &destination);
        if count as i128 >= self.limits.max_pending_messages as i128 {
            return Err(StoreError::TooManyPending);
        }
        if payload_bytes > self.limits.max_pending_bytes || bytes > self.limits.max_pending_bytes as i128
            - payload_bytes as i128 {
            return Err(StoreError::TooManyBytes);
        }
        let head = self.head(&relay_id, &destination);
        if head == i64::MAX {
            return Err(StoreError::SequenceExhausted);
        }
        let sequence: i64 = head + 1;
        if self.waiting(&relay_id, &destination, sequence).is_some() {
            return Err(StoreError::SequenceTaken);
        }
        if sequence < 0 {
            return Err(StoreError::NegativeSequence);
        }
        self.put_counter(
            counter::Model {
                relay_id: relay_id.clone(),
                destination: destination.clone(),
                next_sequence: sequence,
            },
        );
        let receipt = receipt::Model {
            relay_id: relay_id.clone(),
            source,
            message_id: message_id.clone(),
            destination: destination.clone(),
            sequence,
            payload_hash,
            created_at: now,
        };
        self.add_receipt(receipt);
        let pending = pending_message::Model {
            relay_id,
            destination,
            sequence,
            message_id: message_id.clone(),
            payload: payload.clone(),
            payload_bytes,
            created_at: now,
            target_device_id: owned(target_device_id),
        };
        let message = StoredMessage {
            message_id,
            sequence: sequence as u64,
            payload: payload.clone(),
            target_device_id: owned(target_device_id),
        };
        self.add_pending(pending);
        proof {
            assert(self.log() =~= old(self).log() + store_log(t, m, now));
        }
        Ok(StoreResult { pending: Some(message) })
    }

    /// Writes the counter of one direction.
    fn put_counter(&mut self, row: counter::Model)
        ensures
            final(self).limits == old(self).limits,
            final(self)@ == (Tables {
                counters: put(old(self)@.counters, counter::same_key(row@), row@),
                ..old(self)@
            }),
            final(self).log() == old(self).log().push(ChangeView::PutCounter(row@)),
    {
        let ghost p = counter::same_key(row@);
        let copy = row.clone();
        match self.counter_of(&row.relay_id, &row.destination) {
            Some(i) => {
                proof {
                    lemma_first(self@.counters, p, i as int);
                }
                self.counters.set(i, row);
            },
            None => {
                self.counters.push(row);
            },
        }
        self.journal.push(Change::PutCounter(copy));
        proof {
            assert(self@ =~= (Tables {
                counters: put(old(self)@.counters, p, row@),
                ..old(self)@
            }));
            assert(self.log() =~= old(self).log().push(ChangeView::PutCounter(row@)));
        }
    }

    /// Writes the row of one device.
    fn put_device(&mut self, row: device::Model)
        ensures
            final(self).limits == old(self).limits,
            final(self)@ == (Tables {
                devices: put(old(self)@.devices, device::same_key(row@), row@),
                ..old(self)@
            }),
            final(self).log() == old(self).log().push(ChangeView::PutDevice(row@)),
    {
        let ghost p = device::same_key(row@);
        let copy = row.clone();
        match self.device_of(&row.relay_id, &row.endpoint, &row.device_id) {
            Some(i) => {
                proof {
                    lemma_first(self@.devices, p, i as int);
                }
                self.devices.set(i, row);
            },
            None => {
                self.devices.push(row);
            },
        }
        self.journal.push(Change::PutDevice(copy));
        proof {
            assert(self@ =~= (Tables { devices: put(old(self)@.devices, p, row@), ..old(self)@ }));
            assert(self.log() =~= old(self).log().push(ChangeView::PutDevice(row@)));
        }
    }

    /// Appends a receipt.
    fn add_receipt(&mut self, row: receipt::Model)
        ensures
            final(self).limits == old(self).limits,
            final(self)@ == (Tables { receipts: old(self)@.receipts.push(row@), ..old(self)@ }),
            final(self).log() == old(self).log().push(ChangeView::PutReceipt(row@)),
    {
        let copy = row.clone();
        self.receipts.push(row);
        self.journal.push(Change::PutReceipt(copy));
        proof {
            assert(self@ =~= (Tables { receipts: old(self)@.receipts.push(row@), ..old(self)@ }));
            assert(self.log() =~= old(self).log().push(ChangeView::PutReceipt(row@)));
        }
    }

    /// Appends a pending message.
    fn add_pending(&mut self, row: pending_message::Model)
        ensures
            final(self).limits == old(self).limits,
            final(self)@ == (Tables { pending: old(self)@.pending.push(row@), ..old(self)@ }),
            final(self).log() == old(self).log().push(ChangeView::PutPending(row@)),
    {
        let copy = row.clone();
        self.pending.push(row);
        self.journal.push(Change::PutPending(copy));
        proof {
            assert(self@ =~= (Tables { pending: old(self)@.pending.push(row@), ..old(self)@ }));
            assert(self.log() =~= old(self).log().push(ChangeView::PutPending(row@)));
        }
    }

    /// Makes a device known, or notes that it was seen again. Returns its
    /// acknowledgement cursor.
    pub fn register_device(
        &mut self,
        relay_id: &str,
        endpoint: Endpoint,
        device_id: &str,
        now: i64,
    ) -> (last_acked: i64)
        ensures
            final(self).limits == old(self).limits,
            ({
                let key = device_key(relay_id, endpoint, device_id);
                &&& last_acked == key.cursor(old(self)@)
                &&& final(self)@ == after_register(old(self)@, key, now)
                &&& final(self).log() == old(self).log().push(
                    ChangeView::PutDevice(key.row_with(last_acked, now)),
                )
            }),
    {
        let relay_id = relay_id.to_owned();
        let endpoint = endpoint.as_str().to_owned();
        let device_id = device_id.to_owned();
        let last_acked = self.cursor(&relay_id, &endpoint, &device_id);
        self.put_device(
            device::Model {
                relay_id,
                endpoint,
                device_id,
                last_acked_sequence: last_acked,
                last_seen_at: now,
            },
        );
        last_acked
    }

    /// Hands out the pending rows that satisfy the predicate `p` that `test`
    /// decides, in the order of their sequences.
    fn listing<F: Fn(&pending_message::Model) -> bool>(
        &self,
        test: F,
        Ghost(p): Ghost<spec_fn(pending_message::Row) -> bool>,
    ) -> (r: Result<Vec<StoredMessage>, ReadError>)
        requires
            forall|row: &pending_message::Model| #[trigger] call_requires(test, (row,)),
            forall|row: &pending_message::Model, b: bool| #[trigger]
                call_ensures(test, (row,), b) ==> b == p(row@),
        ensures
            match r {
                Ok(messages) => {
                    &&& !present(self@.pending, negative(p))
                    &&& hands_out(rows(messages@), self@.pending, p)
                },
                Err(_) => present(self@.pending, negative(p)),
            },
    {
        let ghost all = self@.pending;
        let ghost hand = |row: pending_message::Row| delivery(row);
        let mut messages: Vec<StoredMessage> = Vec::new();
        let mut i: usize = 0;
        proof {
            assert(all.take(0).filter(p).map_values(hand) =~= Seq::empty());
            assert(rows(messages@) =~= Seq::empty());
        }
        while i < self.pending.len()
            invariant
                i <= self.pending.len(),
                all == self@.pending,
                hand == (|row: pending_message::Row| delivery(row)),
                forall|row: &pending_message::Model| #[trigger] call_requires(test, (row,)),
                forall|row: &pending_message::Model, b: bool| #[trigger]
                    call_ensures(test, (row,), b) ==> b == p(row@),
                forall|j: int| 0 <= j < i ==> !negative(p)(#[trigger] all[j]),
                in_order(rows(messages@)),
                rows(messages@).to_multiset() == all.take(i as int).filter(p).map_values(
                    hand,
                ).to_multiset(),
            decreases self.pending.len() - i,
        {
            let row = &self.pending[i];
            proof {
                assert(all.take(i + 1) =~= all.take(i as int).push(row@));
                all.take(i as int).lemma_filter_push(row@, p);
                assert(row@ == all[i as int]);
            }
            if test(row) {
                match StoredMessage::from_row(row) {
                    Ok(message) => {
                        proof {
                            let before = all.take(i as int).filter(p);
                            assert(before.push(row@).map_values(hand) =~= before.map_values(
                                hand,
                            ).push(message@));
                            before.map_values(hand).to_multiset_ensures();
                        }
                        insert_in_order(&mut messages, message);
                    },
                    Err(e) => {
                        proof {
                            assert(negative(p)(all[i as int]));
                        }
                        return Err(e);
                    },
                }
            }
            i = i + 1;
        }
        proof {
            assert(all.take(all.len() as int) =~= all);
        }
        Ok(messages)
    }

    /// The messages that wait for one endpoint, in the order of their sequences.
    pub fn pending(&self, relay_id: &str, destination: Endpoint) -> (r: Result<
        Vec<StoredMessage>,
        ReadError,
    >)
        ensures
            ({
                let p = pending_message::in_channel(relay_id@, destination.name());
                match r {
                    Ok(messages) => {
                        &&& !present(self@.pending, negative(p))
                        &&& hands_out(rows(messages@), self@.pending, p)
                    },
                    Err(_) => present(self@.pending, negative(p)),
                }
            }),
    {
        let ghost p = pending_message::in_channel(relay_id@, destination.name());
        let relay_id = relay_id.to_owned();
        let destination = destination.as_str().to_owned();
        let test = |row: &pending_message::Model| -> (b: bool)
            ensures b == p(row@)
        {
            row.relay_id == relay_id && row.destination == destination
        };
        self.listing(test, Ghost(p))
    }

    /// The messages that a device has yet to acknowledge, in the order of
    /// their sequences.
    pub fn pending_for_device(
        &self,
        relay_id: &str,
        destination: Endpoint,
        device_id: &str,
    ) -> (r: Result<Vec<StoredMessage>, ReadError>)
        ensures
            ({
                let p = unacknowledged(self@, device_key(relay_id, destination, device_id));
                match r {
                    Ok(messages) => {
                        &&& !present(self@.pending, negative(p))
                        &&& hands_out(rows(messages@), self@.pending, p)
                    },
                    Err(_) => present(self@.pending, negative(p)),
                }
            }),
    {
        let ghost p = unacknowledged(self@, device_key(relay_id, destination, device_id));
        let relay_id = relay_id.to_owned();
        let destination = destination.as_str().to_owned();
        let device_id = device_id.to_owned();
        let last_acked = self.cursor(&relay_id, &destination, &device_id);
        let test = |row: &pending_message::Model| -> (b: bool)
            ensures b == p(row@)
        {
            row.relay_id == relay_id && row.destination == destination && row.sequence > last_acked
                && is_meant_for(row, &device_id)
        };
        self.listing(test, Ghost(p))
    }

    /// Moves the cursor of a device forward to `sequence` and purges the
    /// messages that all their receivers passed. Returns how many were purged.
    pub fn acknowledge(
        &mut self,
        relay_id: &str,
        destination: Endpoint,
        device_id: &str,
        sequence: u64,
        now: i64,
    ) -> (purged_rows: u64)
        ensures
            final(self).limits == old(self).limits,
            ({
                let key = device_key(relay_id, destination, device_id);
                let upto = clamped(sequence);
                let row = acked_row(old(self)@, key, upto, now);
                let t = with_cursor(old(self)@, key, row);
                let gone = t.pending.filter(
                    purged(t, key, earlier(now, old(self).limits.device_retention_secs), upto),
                );
                &&& final(self)@ == after_ack(old(self).limits, old(self)@, key, sequence, now)
                &&& purged_rows == gone.len()
                &&& purged_rows + final(self)@.pending.len() == old(self)@.pending.len()
                &&& final(self).log() == old(self).log() + device_change(row) + dropped_pending(gone)
            }),
    {
        let ghost key = device_key(relay_id, destination, device_id);
        let upto: i64 = if sequence > i64::MAX as u64 {
            i64::MAX
        } else {
            sequence as i64
        };
        let relay_id = relay_id.to_owned();
        let endpoint = destination.as_str().to_owned();
        let device_id = device_id.to_owned();
        let moves = match self.device_of(&relay_id, &endpoint, &device_id) {
            Some(i) => {
                proof {
                    lemma_first(self@.devices, key.keyed(), i as int);
                }
                upto > self.devices[i].last_acked_sequence
            },
            None => true,
        };
        let ghost row = acked_row(old(self)@, key, upto, now);
        if moves {
            self.put_device(
                device::Model {
                    relay_id: relay_id.clone(),
                    endpoint: endpoint.clone(),
                    device_id: device_id.clone(),
                    last_acked_sequence: upto,
                    last_seen_at: now,
                },
            );
            proof {
                assert(self.log() =~= old(self).log() + device_change(row));
            }
        } else {
            proof {
                assert(self.log() =~= old(self).log() + device_change(row));
            }
        }
        self.prune(&relay_id, &endpoint, &device_id, upto, now, Ghost(key))
    }

    /// Moves the cursor of a device to the last sequence given out, so that it
    /// skips its backlog, and purges the messages that all their receivers
    /// passed. Returns how many were purged.
    pub fn acknowledge_head(
        &mut self,
        relay_id: &str,
        destination: Endpoint,
        device_id: &str,
        now: i64,
    ) -> (purged_rows: u64)
        ensures
            final(self).limits == old(self).limits,
            ({
                let key = device_key(relay_id, destination, device_id);
                let head = old(self)@.head(relay_id@, destination.name());
                let row = key.row_with(head, now);
                let t = with_device(old(self)@, key, row);
                let gone = t.pending.filter(
                    purged(t, key, earlier(now, old(self).limits.device_retention_secs), head),
                );
                &&& final(self)@ == after_ack_head(old(self).limits, old(self)@, key, now)
                &&& purged_rows == gone.len()
                &&& purged_rows + final(self)@.pending.len() == old(self)@.pending.len()
                &&& final(self).log() == old(self).log() + device_change(Some(row))
                    + dropped_pending(gone)
            }),
    {
        let ghost key = device_key(relay_id, destination, device_id);
        let relay_id = relay_id.to_owned();
        let endpoint = destination.as_str().to_owned();
        let device_id = device_id.to_owned();
        let head = self.head(&relay_id, &endpoint);
        self.put_device(
            device::Model {
                relay_id: relay_id.clone(),
                endpoint: endpoint.clone(),
                device_id: device_id.clone(),
                last_acked_sequence: head,
                last_seen_at: now,
            },
        );
        proof {
            assert(self.log() =~= old(self).log() + device_change(Some(key.row_with(head, now))));
        }
        self.prune(&relay_id, &endpoint, &device_id, head, now, Ghost(key))
    }

    /// The lowest cursor among the devices of an endpoint that were seen at
    /// `since` or later.
    fn lowest_cursor(&self, relay_id: &String, endpoint: &String, since: i64) -> (r: Option<i64>)
        ensures
            ({
                let seen = device::active(relay_id@, endpoint@, since);
                match r {
                    Some(low) => {
                        &&& exists|i: int|
                            0 <= i < self@.devices.len() && seen(#[trigger] self@.devices[i])
                                && self@.devices[i].last_acked_sequence == low
                        &&& forall|i: int|
                            0 <= i < self@.devices.len() && seen(#[trigger] self@.devices[i])
                                ==> low <= self@.devices[i].last_acked_sequence
                    },
                    None => !present(self@.devices, seen),
                }
            }),
    {
        let ghost seen = device::active(relay_id@, endpoint@, since);
        let mut low: Option<i64> = None;
        let mut i: usize = 0;
        while i < self.devices.len()
            invariant
                i <= self.devices.len(),
                seen == device::active(relay_id@, endpoint@, since),
                match low {
                    Some(n) => {
                        &&& exists|j: int|
                            0 <= j < i && seen(#[trigger] self@.devices[j])
                                && self@.devices[j].last_acked_sequence == n
                        &&& forall|j: int|
                            0 <= j < i && seen(#[trigger] self@.devices[j]) ==> n
                                <= self@.devices[j].last_acked_sequence
                    },
                    None => forall|j: int| 0 <= j < i ==> !seen(#[trigger] self@.devices[j]),
                },
            decreases self.devices.len() - i,
        {
            let row = &self.devices[i];
            proof {
                assert(self@.devices[i as int] == row@);
            }
            if row.relay_id == *relay_id && row.endpoint == *endpoint && row.last_seen_at >= since {
                let n = row.last_acked_sequence;
                low = match low {
                    Some(m) => if m <= n {
                        Some(m)
                    } else {
                        Some(n)
                    },
                    None => Some(n),
                };
            }
            i = i + 1;
        }
        low
    }

    /// Purges the messages that all their receivers passed.
    fn prune(
        &mut self,
        relay_id: &String,
        endpoint: &String,
        device_id: &String,
        upto: i64,
        now: i64,
        Ghost(key): Ghost<DeviceKey>,
    ) -> (purged_rows: u64)
        requires
            relay_id@ == key.relay_id,
            endpoint@ == key.endpoint.name(),
            device_id@ == key.device_id,
        ensures
            final(self).limits == old(self).limits,
            ({
                let since = earlier(now, old(self).limits.device_retention_secs);
                let gone = old(self)@.pending.filter(purged(old(self)@, key, since, upto));
                &&& final(self)@ == after_prune(old(self)@, key, since, upto)
                &&& purged_rows == gone.len()
                &&& purged_rows + final(self)@.pending.len() == old(self)@.pending.len()
                &&& final(self).log() == old(self).log() + dropped_pending(gone)
            }),
    {
        let ghost t = self@;
        let since = cutoff(now, self.limits.device_retention_secs);
        let ghost p = purged(t, key, since, upto);
        proof {
            deletions_count_what_goes(t.pending, p);
        }
        let floor = match self.lowest_cursor(relay_id, endpoint, since) {
            Some(low) => low,
            None => upto,
        };
        proof {
            assert forall|sequence: i64|
                #[trigger] passed_by_all(t, key, since, upto, sequence) == (sequence <= floor) by {
                let seen = device::active(relay_id@, endpoint@, since);
                if present(t.devices, seen) {
                    let k = choose|k: int|
                        0 <= k < t.devices.len() && seen(#[trigger] t.devices[k])
                            && t.devices[k].last_acked_sequence == floor;
                    assert(seen(t.devices[k]));
                }
            }
        }
        let mut table: Vec<pending_message::Model> = Vec::new();
        std::mem::swap(&mut table, &mut self.pending);
        let test = |row: &pending_message::Model| -> (b: bool)
            ensures b == p(row@)
        {
            row.relay_id == *relay_id && row.destination == *endpoint && match &row.target_device_id {
                Some(target) => *target == *device_id && row.sequence <= upto,
                None => row.sequence <= floor,
            }
        };
        let (gone, kept) = partition(table, test, Ghost(p));
        self.pending = kept;
        let count: usize = gone.len();
        self.note_dropped_pending(gone);
        count as u64
    }

    /// Notes in the journal that these pending messages are gone.
    fn note_dropped_pending(&mut self, gone: Vec<pending_message::Model>)
        ensures
            final(self).limits == old(self).limits,
            final(self)@ == old(self)@,
            final(self).log() == old(self).log() + dropped_pending(rows(gone@)),
    {
        proof {
            assert(dropped_pending(rows(gone@).take(0)) =~= Seq::empty());
            assert(self.log() =~= old(self).log() + dropped_pending(rows(gone@).take(0)));
        }
        for row in it: gone.into_iter()
            invariant
                it.seq() == gone@,
                self.limits == old(self).limits,
                self@ == old(self)@,
                self.log() == old(self).log() + dropped_pending(rows(gone@).take(it.index() as int)),
        {
            let ghost prior = self.log();
            let ghost value = row@;
            self.journal.push(Change::DropPending(row.into_key()));
            proof {
                let front = rows(gone@).take(it.index() as int);
                assert(rows(gone@).take(it.index() + 1) =~= front.push(value));
                assert(dropped_pending(front.push(value)) =~= dropped_pending(front).push(
                    ChangeView::DropPending(pending_message::key_of(value)),
                ));
                assert(self.log() =~= prior.push(ChangeView::DropPending(pending_message::key_of(value))));
            }
        }
        proof {
            assert(rows(gone@).take(gone@.len() as int) =~= rows(gone@));
        }
    }

    /// Notes in the journal that these receipts are gone.
    fn note_dropped_receipts(&mut self, gone: Vec<receipt::Model>)
        ensures
            final(self).limits == old(self).limits,
            final(self)@ == old(self)@,
            final(self).log() == old(self).log() + dropped_receipts(rows(gone@)),
    {
        proof {
            assert(dropped_receipts(rows(gone@).take(0)) =~= Seq::empty());
            assert(self.log() =~= old(self).log() + dropped_receipts(rows(gone@).take(0)));
        }
        for row in it: gone.into_iter()
            invariant
                it.seq() == gone@,
                self.limits == old(self).limits,
                self@ == old(self)@,
                self.log() == old(self).log() + dropped_receipts(rows(gone@).take(it.index() as int)),
        {
            let ghost prior = self.log();
            let ghost value = row@;
            self.journal.push(Change::DropReceipt(row.into_key()));
            proof {
                let front = rows(gone@).take(it.index() as int);
                assert(rows(gone@).take(it.index() + 1) =~= front.push(value));
                assert(dropped_receipts(front.push(value)) =~= dropped_receipts(front).push(
                    ChangeView::DropReceipt(receipt::key_of(value)),
                ));
                assert(self.log() =~= prior.push(ChangeView::DropReceipt(receipt::key_of(value))));
            }
        }
        proof {
            assert(rows(gone@).take(gone@.len() as int) =~= rows(gone@));
        }
    }

    /// Notes in the journal that these devices are gone.
    fn note_dropped_devices(&mut self, gone: Vec<device::Model>)
        ensures
            final(self).limits == old(self).limits,
            final(self)@ == old(self)@,
            final(self).log() == old(self).log() + dropped_devices(rows(gone@)),
    {
        proof {
            assert(dropped_devices(rows(gone@).take(0)) =~= Seq::empty());
            assert(self.log() =~= old(self).log() + dropped_devices(rows(gone@).take(0)));
        }
        for row in it: gone.into_iter()
            invariant
                it.seq() == gone@,
                self.limits == old(self).limits,
                self@ == old(self)@,
                self.log() == old(self).log() + dropped_devices(rows(gone@).take(it.index() as int)),
        {
            let ghost prior = self.log();
            let ghost value = row@;
            self.journal.push(Change::DropDevice(row.into_key()));
            proof {
                let front = rows(gone@).take(it.index() as int);
                assert(rows(gone@).take(it.index() + 1) =~= front.push(value));
                assert(dropped_devices(front.push(value)) =~= dropped_devices(front).push(
                    ChangeView::DropDevice(device::key_of(value)),
                ));
                assert(self.log() =~= prior.push(ChangeView::DropDevice(device::key_of(value))));
            }
        }
        proof {
            assert(rows(gone@).take(gone@.len() as int) =~= rows(gone@));
        }
    }

    /// Removes the messages that waited too long together with their receipts,
    /// the receipts that are too old, and the devices that stayed away too long.
    pub fn cleanup(&mut self, now: i64) -> (stats: CleanupStats)
        ensures
            final(self).limits == old(self).limits,
            ({
                let t = old(self)@;
                let limits = old(self).limits;
                let pending = t.pending.filter(expired_pending(limits, now));
                let receipts = t.receipts.filter(removed_receipt(limits, t, now));
                let devices = t.devices.filter(expired_device(limits, now));
                &&& final(self)@ == after_cleanup(limits, t, now)
                &&& stats.expired_pending == pending.len()
                &&& stats.expired_receipts == receipts.len()
                &&& stats.expired_pending + final(self)@.pending.len() == t.pending.len()
                &&& stats.expired_receipts + final(self)@.receipts.len() == t.receipts.len()
                &&& final(self).log() == old(self).log() + dropped_receipts(receipts)
                    + dropped_pending(pending) + dropped_devices(devices)
            }),
    {
        let ghost t = self@;
        let limits = self.limits;
        let pending_cutoff = cutoff(now, limits.pending_retention_secs);
        let receipt_cutoff = cutoff(now, limits.receipt_retention_secs);
        let device_cutoff = cutoff(now, limits.device_retention_secs);

        let ghost p = expired_pending(limits, now);
        let mut pending: Vec<pending_message::Model> = Vec::new();
        std::mem::swap(&mut pending, &mut self.pending);
        let too_old = |row: &pending_message::Model| -> (b: bool)
            ensures b == p(row@)
        {
            row.created_at < pending_cutoff
        };
        let (expired, kept) = partition(pending, too_old, Ghost(p));
        self.pending = kept;

        let ghost q = removed_receipt(limits, t, now);
        proof {
            deletions_count_what_goes(t.pending, p);
            deletions_count_what_goes(t.receipts, q);
        }
        let mut receipts: Vec<receipt::Model> = Vec::new();
        std::mem::swap(&mut receipts, &mut self.receipts);
        let obsolete = |row: &receipt::Model| -> (b: bool)
            ensures b == q(row@)
        {
            row.created_at < receipt_cutoff || contains_message(
                &expired,
                &row.relay_id,
                &row.destination,
                row.sequence,
            )
        };
        let (removed, kept) = partition(receipts, obsolete, Ghost(q));
        self.receipts = kept;

        let ghost d = expired_device(limits, now);
        let mut devices: Vec<device::Model> = Vec::new();
        std::mem::swap(&mut devices, &mut self.devices);
        let gone = |row: &device::Model| -> (b: bool)
            ensures b == d(row@)
        {
            row.last_seen_at < device_cutoff
        };
        let (away, kept) = partition(devices, gone, Ghost(d));
        self.devices = kept;

        let stats = CleanupStats {
            expired_pending: expired.len(),
            expired_receipts: removed.len(),
        };
        self.note_dropped_receipts(removed);
        self.note_dropped_pending(expired);
        self.note_dropped_devices(away);
        stats
    }

    /// The last sequence that a device acknowledged.
    fn cursor(&self, relay_id: &String, endpoint: &String, device_id: &String) -> (r: i64)
        ensures
            r == self@.cursor(relay_id@, endpoint@, device_id@),
    {
        match self.device_of(relay_id, endpoint, device_id) {
            Some(i) => {
                proof {
                    lemma_first(
                        self@.devices,
                        device::keyed(relay_id@, endpoint@, device_id@),
                        i as int,
                    );
                }
                self.devices[i].last_acked_sequence
            },
            None => 0,
        }
    }
}

/// The rows that satisfy `p` but cannot be handed out.
pub open spec fn negative(
    p: spec_fn(pending_message::Row) -> bool,
) -> spec_fn(pending_message::Row) -> bool {
    |row: pending_message::Row| p(row) && row.sequence < 0
}

/// The change that writes a device row, if one is written.
pub open spec fn device_change(row: Option<device::Row>) -> Seq<ChangeView> {
    match row {
        Some(r) => seq![ChangeView::PutDevice(r)],
        None => Seq::empty(),
    }
}

/// Whether a message goes to a device.
fn is_meant_for(row: &pending_message::Model, device_id: &String) -> (b: bool)
    ensures
        b == pending_message::meant_for(row@, device_id@),
{
    match &row.target_device_id {
        Some(target) => *target == *device_id,
        None => true,
    }
}

/// Whether the message with this key is among `messages`.
fn contains_message(
    messages: &Vec<pending_message::Model>,
    relay_id: &String,
    destination: &String,
    sequence: i64,
) -> (b: bool)
    ensures
        b == present(
            rows(messages@),
            pending_message::keyed(relay_id@, destination@, sequence),
        ),
{
    let ghost p = pending_message::keyed(relay_id@, destination@, sequence);
    let test = |row: &pending_message::Model| -> (b: bool)
        ensures b == p(row@)
    {
        row.sequence == sequence && row.relay_id == *relay_id && row.destination == *destination
    };
    position(messages, test, Ghost(p)).is_some()
}

/// Puts a message behind those with a sequence that is not higher.
fn insert_in_order(messages: &mut Vec<StoredMessage>, message: StoredMessage)
    requires
        in_order(rows(old(messages)@)),
    ensures
        in_order(rows(final(messages)@)),
        rows(final(messages)@).to_multiset() == rows(old(messages)@).to_multiset().insert(message@),
{
    let ghost before = rows(messages@);
    let mut at: usize = messages.len();
    while at > 0 && messages[at - 1].sequence > message.sequence
        invariant
            at <= messages.len(),
            before == rows(messages@),
            forall|j: int| at <= j < before.len() ==> (#[trigger] before[j]).sequence > message.sequence,
        decreases at,
    {
        at = at - 1;
        proof {
            assert(before[at as int] == messages@[at as int]@);
        }
    }
    messages.insert(at, message);
    proof {
        assert(rows(messages@) =~= before.insert(at as int, message@));
        vstd::seq_lib::to_multiset_insert(before, at as int, message@);
        if at > 0 {
            assert(before[at - 1].sequence <= message.sequence);
        }
    }
}

/// An owned copy of an optional text.
fn owned(s: Option<&str>) -> (r: Option<String>)
    ensures
        text_of(r) == (match s {
            Some(t) => Some(t@),
            None => None,
        }),
{
    match s {
        Some(t) => Some(t.to_owned()),
        None => None,
    }
}

/// The changes of a message that is not refused.
pub open spec fn store_log(t: Tables, m: Sending, now: i64) -> Seq<ChangeView> {
    if t.receipt_of(m) is Some {
        Seq::empty()
    } else {
        seq![
            ChangeView::PutCounter(new_counter(t, m)),
            ChangeView::PutReceipt(new_receipt(t, m, now)),
            ChangeView::PutPending(new_pending(t, m, now)),
        ]
    }
}

} // verus!
