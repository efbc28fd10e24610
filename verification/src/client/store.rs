//! What a client keeps: the messages that the relay has yet to confirm, and how
//! far it has received.

use crate::frame::{copy_text, text_of, ClientFrame, ClientFrameView};
use crate::ids::id_fault;
use crate::payload::Payload;
use crate::table::{
    lemma_filter_congruent, lemma_filter_filter, lemma_filter_member, partition, rows, without,
};
use crate::text::{decimal, decimal_digits, joined};
use vstd::prelude::*;
use vstd::utf8::encode_utf8;

verus! {

/// A delivery does not follow the one before it.
#[derive(Clone, Copy, Debug, PartialEq, Eq, Structural)]
pub struct SequenceGap {
    pub expected: u64,
    pub received: u64,
}

impl SequenceGap {
    pub open spec fn words(self) -> Seq<char> {
        "relay message sequence gap: expected "@ + decimal_digits(self.expected as nat)
            + ", received "@ + decimal_digits(self.received as nat)
    }

    /// The gap in words.
    pub fn message(&self) -> (s: String)
        ensures
            s@ == self.words(),
    {
        let mut s = joined("relay message sequence gap: expected ", decimal(self.expected).as_str());
        s.append(", received ");
        s.append(decimal(self.received).as_str());
        s
    }
}

/// Whether a delivery is new to a client that has received up to
/// `last_received`: the first one is, a later one is if it follows the last.
pub open spec fn is_new(last_received: Option<u64>, sequence: u64) -> bool {
    match last_received {
        None => true,
        Some(last) => sequence == last + 1,
    }
}

/// The delivery skips the one that should come next.
pub open spec fn leaves_gap(last_received: Option<u64>, sequence: u64) -> bool {
    match last_received {
        None => false,
        Some(last) => sequence > last + 1,
    }
}

/// Sequence gate shared by all clients: the first observed sequence is adopted
/// as the baseline (the relay's counter outlives this client's cursor),
/// duplicates are dropped, and gaps indicate a relay bug or a tampered cursor,
/// so they are hard errors.
pub fn is_new_sequence(last_received: Option<u64>, sequence: u64) -> (r: Result<bool, SequenceGap>)
    ensures
        match r {
            Ok(new) => !leaves_gap(last_received, sequence) && new == is_new(
                last_received,
                sequence,
            ),
            Err(gap) => {
                &&& leaves_gap(last_received, sequence)
                &&& last_received == Some((gap.expected - 1) as u64)
                &&& gap.expected > 0
                &&& gap.received == sequence
            },
        },
        match last_received {
            None => r == Ok::<bool, SequenceGap>(true),
            Some(last) => {
                &&& sequence <= last ==> r == Ok::<bool, SequenceGap>(false)
                &&& sequence == last + 1 ==> r == Ok::<bool, SequenceGap>(true)
                &&& sequence > last + 1 ==> (r matches Err(gap) && gap.expected == last + 1
                    && gap.received == sequence)
            },
        },
{
    let last = match last_received {
        None => return Ok(true),
        Some(last) => last,
    };
    if sequence <= last {
        return Ok(false);
    }
    let expected: u64 = last + 1;
    if sequence != expected {
        return Err(SequenceGap { expected, received: sequence });
    }
    Ok(true)
}

/// One outbound message awaiting `stored` from the relay.
#[derive(Debug, PartialEq)]
pub struct OutboundMessage {
    pub message_id: String,
    pub payload: Payload,
    pub target_device_id: Option<String>,
}

/// The value of an outbound message.
pub struct Outbound {
    pub message_id: Seq<char>,
    pub payload: Seq<u8>,
    pub target_device_id: Option<Seq<char>>,
}

impl View for OutboundMessage {
    type V = Outbound;

    open spec fn view(&self) -> Outbound {
        Outbound {
            message_id: self.message_id@,
            payload: self.payload@,
            target_device_id: text_of(self.target_device_id),
        }
    }
}

impl Clone for OutboundMessage {
    fn clone(&self) -> (r: OutboundMessage)
        ensures
            r@ == self@,
    {
        OutboundMessage {
            message_id: self.message_id.clone(),
            payload: self.payload.clone(),
            target_device_id: copy_text(&self.target_device_id),
        }
    }
}

/// The frame that carries an outbound message.
pub open spec fn outbound_frame(message: Outbound) -> ClientFrameView {
    ClientFrameView::Message {
        message_id: message.message_id,
        payload: message.payload,
        target_device_id: message.target_device_id,
    }
}

impl OutboundMessage {
    /// The frame that carries the message to the relay.
    pub fn into_frame(self) -> (frame: ClientFrame)
        ensures
            frame@ == outbound_frame(self@),
    {
        ClientFrame::Message {
            message_id: self.message_id,
            payload: self.payload,
            target_device_id: self.target_device_id,
        }
    }
}

/// The message with this id.
pub open spec fn with_id(message_id: Seq<char>) -> spec_fn(Outbound) -> bool {
    |message: Outbound| message.message_id == message_id
}

/// A lower-case hexadecimal digit.
pub open spec fn is_hex_digit(c: char) -> bool {
    '0' <= c <= '9' || 'a' <= c <= 'f'
}

/// The text of a random UUID: 32 lower-case hexadecimal digits in groups of 8,
/// 4, 4, 4 and 12, with the version and variant digits of a random one.
pub open spec fn is_uuid_text(id: Seq<char>) -> bool {
    &&& id.len() == 36
    &&& forall|i: int|
        0 <= i < 36 ==> if i == 8 || i == 13 || i == 18 || i == 23 {
            #[trigger] id[i] == '-'
        } else {
            is_hex_digit(id[i])
        }
    &&& id[14] == '4'
    &&& id[19] == '8' || id[19] == '9' || id[19] == 'a' || id[19] == 'b'
}

/// Calls `uuid::Uuid::new_v4` and takes the text of the UUID. Claimed: the text
/// is that of a random UUID. Which one is left to chance, so nothing is claimed
/// of two calls.
#[verifier::external_body]
fn random_uuid() -> (id: String)
    ensures
        is_uuid_text(id@),
{
    uuid::Uuid::new_v4().to_string()
}

/// A text has at most four bytes per character.
proof fn lemma_encoded_len(s: Seq<char>)
    ensures
        encode_utf8(s).len() <= 4 * s.len(),
    decreases s.len(),
{
    if s.len() > 0 {
        lemma_encoded_len(s.drop_first());
    }
}

/// The relay accepts the ids that a client makes up.
pub proof fn generated_ids_are_accepted(id: Seq<char>)
    requires
        is_uuid_text(id),
    ensures
        id_fault(id) is None,
{
    lemma_encoded_len(id);
}

/// The receive cursor of a store never moves back.
#[derive(Clone, Copy, Debug, PartialEq, Eq, Structural)]
pub struct CursorMovedBack;

impl CursorMovedBack {
    pub fn message(&self) -> (s: &'static str)
        ensures
            s@ == "receive cursor moved backwards"@,
    {
        "receive cursor moved backwards"
    }
}

/// Non-durable in-memory store. Payloads queued while offline survive
/// reconnects but not process restarts; prefer a durable store in production.
#[derive(Debug)]
pub struct MemoryStore {
    outbox: Vec<OutboundMessage>,
    last_received: Option<u64>,
}

/// The value of a store.
#[verifier::ext_equal]
pub struct StoreView {
    pub outbox: Seq<Outbound>,
    pub last_received: Option<u64>,
}

impl View for MemoryStore {
    type V = StoreView;

    closed spec fn view(&self) -> StoreView {
        StoreView { outbox: rows(self.outbox@), last_received: self.last_received }
    }
}

impl StoreView {
    /// The store after a message was queued.
    pub open spec fn enqueued(self, message: Outbound) -> StoreView {
        StoreView { outbox: self.outbox.push(message), ..self }
    }

    /// The store after a message was taken out.
    pub open spec fn removed(self, message_id: Seq<char>) -> StoreView {
        StoreView { outbox: without(self.outbox, with_id(message_id)), ..self }
    }
}

impl MemoryStore {
    /// A store that has neither sent nor received anything.
    pub fn new() -> (store: MemoryStore)
        ensures
            store@ == (StoreView { outbox: Seq::empty(), last_received: None }),
    {
        let store = MemoryStore { outbox: Vec::new(), last_received: None };
        proof {
            assert(rows(store.outbox@) =~= Seq::empty());
        }
        store
    }

    /// Queues a message under an id that is made up for it, and returns the id.
    pub fn enqueue(&mut self, payload: Payload, target_device_id: Option<String>) -> (id: String)
        ensures
            is_uuid_text(id@),
            final(self)@ == old(self)@.enqueued(
                Outbound {
                    message_id: id@,
                    payload: payload@,
                    target_device_id: text_of(target_device_id),
                },
            ),
    {
        let id = random_uuid();
        self.enqueue_as(id.clone(), payload, target_device_id);
        id
    }

    /// Queues a message under the given id.
    pub fn enqueue_as(
        &mut self,
        message_id: String,
        payload: Payload,
        target_device_id: Option<String>,
    )
        ensures
            final(self)@ == old(self)@.enqueued(
                Outbound {
                    message_id: message_id@,
                    payload: payload@,
                    target_device_id: text_of(target_device_id),
                },
            ),
    {
        let ghost before = self@;
        let message = OutboundMessage { message_id, payload, target_device_id };
        let ghost value = message@;
        self.outbox.push(message);
        proof {
            assert(rows(self.outbox@) =~= before.outbox.push(value));
        }
    }

    /// All messages that have not yet been confirmed `stored`.
    pub fn outbox(&self) -> (messages: Vec<OutboundMessage>)
        ensures
            rows(messages@) == self@.outbox,
    {
        let mut messages: Vec<OutboundMessage> = Vec::new();
        let mut i: usize = 0;
        proof {
            assert(rows(messages@) =~= self@.outbox.take(0));
        }
        while i < self.outbox.len()
            invariant
                i <= self.outbox@.len(),
                self@.outbox == rows(self.outbox@),
                rows(messages@) == self@.outbox.take(i as int),
            decreases self.outbox@.len() - i,
        {
            let ghost copied = rows(messages@);
            messages.push(self.outbox[i].clone());
            i = i + 1;
            proof {
                assert(rows(messages@) =~= copied.push(self@.outbox[i - 1]));
                assert(self@.outbox.take(i as int) =~= self@.outbox.take(i - 1).push(
                    self@.outbox[i - 1],
                ));
            }
        }
        proof {
            assert(self@.outbox.take(i as int) =~= self@.outbox);
        }
        messages
    }

    /// Takes a message out after the relay answered for it. An unknown id
    /// changes nothing.
    pub fn remove_from_outbox(&mut self, message_id: &str)
        ensures
            final(self)@ == old(self)@.removed(message_id@),
    {
        let id = message_id.to_owned();
        let ghost p = with_id(message_id@);
        let test = |message: &OutboundMessage| -> (b: bool)
            ensures b == p(message@)
        {
            message.message_id == id
        };
        let mut outbox: Vec<OutboundMessage> = Vec::new();
        std::mem::swap(&mut outbox, &mut self.outbox);
        let parts = partition(outbox, test, Ghost(p));
        self.outbox = parts.1;
    }

    /// The highest in-order sequence that was processed.
    pub fn last_received(&self) -> (r: Option<u64>)
        ensures
            r == self@.last_received,
    {
        self.last_received
    }

    /// Records a processed sequence.
    pub fn mark_received(&mut self, sequence: u64) -> (r: Result<(), CursorMovedBack>)
        ensures
            match r {
                Ok(()) => {
                    &&& old(self)@.last_received matches Some(last) ==> sequence > last
                    &&& final(self)@ == (StoreView {
                        last_received: Some(sequence),
                        ..old(self)@
                    })
                },
                Err(_) => {
                    &&& old(self)@.last_received matches Some(last) && sequence <= last
                    &&& final(self)@ == old(self)@
                },
            },
    {
        if let Some(last) = self.last_received {
            if sequence <= last {
                return Err(CursorMovedBack);
            }
        }
        self.last_received = Some(sequence);
        Ok(())
    }
}

/// A message stays in the outbox until the relay answers for it: taking
/// another one out leaves it there.
pub proof fn outbox_keeps_other_messages(
    store: StoreView,
    message: Outbound,
    message_id: Seq<char>,
)
    requires
        store.outbox.contains(message),
    ensures
        store.removed(message_id).outbox.contains(message) <==> message.message_id != message_id,
{
    let p = with_id(message_id);
    lemma_filter_member(store.outbox, |m: Outbound| !p(m), message);
}

/// The relay may answer twice: taking a message out again changes nothing.
pub proof fn repeated_removals_change_nothing(store: StoreView, message_id: Seq<char>)
    ensures
        store.removed(message_id).removed(message_id) == store.removed(message_id),
{
    let p = with_id(message_id);
    let keep = |m: Outbound| !p(m);
    lemma_filter_filter(store.outbox, keep, keep);
    lemma_filter_congruent(store.outbox, |m: Outbound| keep(m) && keep(m), keep);
}

/// The sequences that a client accepts from a run of deliveries, in order, up
/// to the first gap.
pub open spec fn accepted(last_received: Option<u64>, arrivals: Seq<u64>) -> Seq<u64>
    decreases arrivals.len(),
{
    if arrivals.len() == 0 || leaves_gap(last_received, arrivals[0]) {
        Seq::empty()
    } else if is_new(last_received, arrivals[0]) {
        seq![arrivals[0]] + accepted(Some(arrivals[0]), arrivals.drop_first())
    } else {
        accepted(last_received, arrivals.drop_first())
    }
}

/// Whatever arrives, and however often, a client accepts consecutive
/// sequences, each once, and continues where it stood.
pub proof fn accepted_sequences_are_consecutive(last_received: Option<u64>, arrivals: Seq<u64>)
    ensures
        ({
            let s = accepted(last_received, arrivals);
            &&& s.len() > 0 && last_received is Some ==> s[0] == last_received->0 + 1
            &&& forall|i: int, j: int|
                0 <= i < j < s.len() ==> (#[trigger] s[j]) - (#[trigger] s[i]) == j - i
        }),
    decreases arrivals.len(),
{
    if arrivals.len() > 0 && !leaves_gap(last_received, arrivals[0]) {
        if is_new(last_received, arrivals[0]) {
            let rest = accepted(Some(arrivals[0]), arrivals.drop_first());
            accepted_sequences_are_consecutive(Some(arrivals[0]), arrivals.drop_first());
            let s = accepted(last_received, arrivals);
            assert forall|i: int, j: int| 0 <= i < j < s.len() implies (#[trigger] s[j]) - (
            #[trigger] s[i]) == j - i by {
                assert(s[j] == rest[j - 1]);
                if i == 0 {
                    if j > 1 {
                        assert(rest[j - 1] - rest[0] == j - 1);
                    }
                } else {
                    assert(s[i] == rest[i - 1]);
                }
            }
        } else {
            accepted_sequences_are_consecutive(last_received, arrivals.drop_first());
        }
    }
}

} // verus!
