//! The decisions of a reliable relay client.
//!
//! The client owns the parts of the delivery contract that the relay cannot:
//! an outbox that retries until the relay answers, a cumulative receive cursor
//! with duplicate suppression, reconnection with exponential backoff, and
//! session preemption. What is here decides; whoever holds the socket and the
//! store acts on it.

pub mod store;
pub mod transport;

use crate::frame::{text_of, ClientFrame, ClientFrameView, ServerFrame, ServerFrameView};
use crate::hub::replacement_notice;
use crate::payload::Payload;
use crate::table::{lemma_filter_member, lemma_push_member, rows};
use crate::text::{begins_with, contains, joined, occurs_at, occurs_in, starts_with};
use store::{
    is_new, is_new_sequence, leaves_gap, outbound_frame, Outbound, OutboundMessage, SequenceGap,
};
use transport::{ack_head_address, append_ack_head};
use vstd::prelude::*;

verus! {

/// Delay before the first reconnection attempt, in seconds.
pub const MIN_RECONNECT_SECS: u64 = 1;

/// Ceiling for the exponential reconnection backoff, in seconds.
pub const MAX_RECONNECT_SECS: u64 = 30;

/// What a client does about a frame.
#[derive(Debug)]
pub enum Action {
    /// The relay accepted the connection: tell the application, and send what
    /// the outbox holds.
    Start,
    /// Take the message out of the outbox.
    Confirmed { message_id: String },
    /// Take the message out of the outbox, and tell the application why the
    /// relay refused it.
    Rejected { message_id: String, reason: String },
    /// Hand the payload to the application, and go on with `on_delivered`.
    Deliver { sequence: u64, payload: Payload },
    /// Record the sequence, and go on with `on_recorded`.
    Record { sequence: u64 },
    /// Acknowledge a sequence that is recorded.
    Acknowledge { sequence: u64 },
    /// Give the connection up.
    Fail { error: String },
}

/// The value of an action.
pub enum ActionView {
    Start,
    Confirmed { message_id: Seq<char> },
    Rejected { message_id: Seq<char>, reason: Seq<char> },
    Deliver { sequence: u64, payload: Seq<u8> },
    Record { sequence: u64 },
    Acknowledge { sequence: u64 },
    Fail { error: Seq<char> },
}

impl View for Action {
    type V = ActionView;

    open spec fn view(&self) -> ActionView {
        match self {
            Action::Start => ActionView::Start,
            Action::Confirmed { message_id } => ActionView::Confirmed { message_id: message_id@ },
            Action::Rejected { message_id, reason } => ActionView::Rejected {
                message_id: message_id@,
                reason: reason@,
            },
            Action::Deliver { sequence, payload } => ActionView::Deliver {
                sequence: *sequence,
                payload: payload@,
            },
            Action::Record { sequence } => ActionView::Record { sequence: *sequence },
            Action::Acknowledge { sequence } => ActionView::Acknowledge { sequence: *sequence },
            Action::Fail { error } => ActionView::Fail { error: error@ },
        }
    }
}

/// The error that an error frame ends a connection with.
pub open spec fn relay_error(message: Seq<char>) -> Seq<char> {
    if begins_with(message, "connection_replaced:"@) {
        "connection_replaced: "@ + message
    } else {
        "relay rejected a frame: "@ + message
    }
}

/// What a client that has received up to `last_received` does about a frame.
pub open spec fn action_for(last_received: Option<u64>, frame: ServerFrameView) -> ActionView {
    match frame {
        ServerFrameView::Ready { .. } => ActionView::Start,
        ServerFrameView::Stored { message_id } => ActionView::Confirmed { message_id },
        ServerFrameView::Rejected { message_id, reason } => ActionView::Rejected {
            message_id,
            reason,
        },
        ServerFrameView::Message { sequence, payload, .. } => if leaves_gap(
            last_received,
            sequence,
        ) {
            ActionView::Fail {
                error: (SequenceGap {
                    expected: (last_received->0 + 1) as u64,
                    received: sequence,
                }).words(),
            }
        } else if is_new(last_received, sequence) {
            ActionView::Deliver { sequence, payload }
        } else {
            ActionView::Acknowledge { sequence }
        },
        ServerFrameView::Error { message } => ActionView::Fail { error: relay_error(message) },
    }
}

/// What a client does after it tried to record a sequence: it acknowledges the
/// sequence, or gives the connection up where recording failed.
pub open spec fn after_record(sequence: u64, error: Option<Seq<char>>) -> ActionView {
    match error {
        None => ActionView::Acknowledge { sequence },
        Some(error) => ActionView::Fail { error },
    }
}

/// All that a client does about a frame, in order. `error` is what recording
/// the sequence fails with, if it is recorded and fails.
pub open spec fn course(
    last_received: Option<u64>,
    frame: ServerFrameView,
    error: Option<Seq<char>>,
) -> Seq<ActionView> {
    let first = action_for(last_received, frame);
    match first {
        ActionView::Deliver { sequence, .. } => seq![
            first,
            ActionView::Record { sequence },
            after_record(sequence, error),
        ],
        _ => seq![first],
    }
}

/// How far a client has received after that.
pub open spec fn recorded(
    last_received: Option<u64>,
    frame: ServerFrameView,
    error: Option<Seq<char>>,
) -> Option<u64> {
    match action_for(last_received, frame) {
        ActionView::Deliver { sequence, .. } => if error is None {
            Some(sequence)
        } else {
            last_received
        },
        _ => last_received,
    }
}

/// The messages of an outbox that were not sent on this connection, each id
/// once.
pub open spec fn unsent(sent: Seq<Seq<char>>, outbox: Seq<Outbound>) -> Seq<Outbound>
    decreases outbox.len(),
{
    if outbox.len() == 0 {
        Seq::empty()
    } else {
        let front = unsent(sent, outbox.drop_last());
        let id = outbox.last().message_id;
        if sent.contains(id) || ids_of(front).contains(id) {
            front
        } else {
            front.push(outbox.last())
        }
    }
}

/// The ids of messages.
pub open spec fn ids_of(messages: Seq<Outbound>) -> Seq<Seq<char>> {
    messages.map_values(|m: Outbound| m.message_id)
}

/// The frames of messages.
pub open spec fn frames_of(messages: Seq<Outbound>) -> Seq<ClientFrameView> {
    messages.map_values(|m: Outbound| outbound_frame(m))
}

/// The texts of strings.
pub open spec fn texts_of(strings: Seq<String>) -> Seq<Seq<char>> {
    strings.map_values(|s: String| s@)
}

/// One connection to the relay.
#[derive(Debug)]
pub struct Connection {
    ready: bool,
    sent: Vec<String>,
}

/// The value of a connection: whether the relay accepted it, and the ids of the
/// messages that were sent on it and not answered yet.
#[verifier::ext_equal]
pub struct ConnectionView {
    pub ready: bool,
    pub sent: Seq<Seq<char>>,
}

impl View for Connection {
    type V = ConnectionView;

    closed spec fn view(&self) -> ConnectionView {
        ConnectionView { ready: self.ready, sent: texts_of(self.sent@) }
    }
}

/// The ids that are not this one.
pub open spec fn other_than(message_id: Seq<char>) -> spec_fn(Seq<char>) -> bool {
    |id: Seq<char>| id != message_id
}

impl ConnectionView {
    /// The connection after a frame.
    pub open spec fn after(self, frame: ServerFrameView) -> ConnectionView {
        match frame {
            ServerFrameView::Ready { .. } => ConnectionView { ready: true, ..self },
            ServerFrameView::Stored { message_id } => self.forgetting(message_id),
            ServerFrameView::Rejected { message_id, .. } => self.forgetting(message_id),
            _ => self,
        }
    }

    /// The connection after a message was answered.
    pub open spec fn forgetting(self, message_id: Seq<char>) -> ConnectionView {
        ConnectionView { sent: self.sent.filter(other_than(message_id)), ..self }
    }

    /// The messages that go out when the outbox is flushed.
    pub open spec fn due(self, outbox: Seq<Outbound>) -> Seq<Outbound> {
        unsent(self.sent, outbox)
    }

    /// The connection after the outbox was flushed.
    pub open spec fn flushed(self, outbox: Seq<Outbound>) -> ConnectionView {
        ConnectionView { sent: self.sent + ids_of(self.due(outbox)), ..self }
    }
}

impl Connection {
    /// A connection on which nothing was sent or received.
    pub fn new() -> (c: Connection)
        ensures
            c@ == (ConnectionView { ready: false, sent: Seq::empty() }),
    {
        let c = Connection { ready: false, sent: Vec::new() };
        proof {
            assert(texts_of(c.sent@) =~= Seq::empty());
        }
        c
    }

    /// Whether the relay accepted the connection.
    pub fn is_ready(&self) -> (r: bool)
        ensures
            r == self@.ready,
    {
        self.ready
    }

    /// Takes a frame in and says what is to be done about it.
    pub fn on_frame(&mut self, frame: ServerFrame, last_received: Option<u64>) -> (action: Action)
        ensures
            action@ == action_for(last_received, frame@),
            final(self)@ == old(self)@.after(frame@),
    {
        match frame {
            ServerFrame::Ready { .. } => {
                self.ready = true;
                Action::Start
            },
            ServerFrame::Stored { message_id } => {
                self.forget(&message_id);
                Action::Confirmed { message_id }
            },
            ServerFrame::Rejected { message_id, reason } => {
                self.forget(&message_id);
                Action::Rejected { message_id, reason }
            },
            ServerFrame::Message { sequence, payload, .. } => match is_new_sequence(
                last_received,
                sequence,
            ) {
                Ok(true) => Action::Deliver { sequence, payload },
                Ok(false) => Action::Acknowledge { sequence },
                Err(gap) => Action::Fail { error: gap.message() },
            },
            ServerFrame::Error { message } => Action::Fail { error: error_text(message.as_str()) },
        }
    }

    /// Says what follows once the payload of this sequence was handed over.
    pub fn on_delivered(&self, sequence: u64) -> (action: Action)
        ensures
            action@ == (ActionView::Record { sequence }),
    {
        Action::Record { sequence }
    }

    /// Says what follows once it was tried to record this sequence. `error` is
    /// what that failed with, if it did.
    pub fn on_recorded(&self, sequence: u64, error: Option<String>) -> (action: Action)
        ensures
            action@ == after_record(sequence, text_of(error)),
    {
        match error {
            None => Action::Acknowledge { sequence },
            Some(error) => Action::Fail { error },
        }
    }

    /// Allows a message to be sent again.
    fn forget(&mut self, message_id: &String)
        ensures
            final(self)@ == old(self)@.forgetting(message_id@),
    {
        let ghost before = self@;
        let ghost keep = other_than(message_id@);
        let mut sent: Vec<String> = Vec::new();
        let mut i: usize = 0;
        proof {
            assert(before.sent.take(0).filter(keep) =~= Seq::empty());
            assert(texts_of(sent@) =~= Seq::empty());
        }
        while i < self.sent.len()
            invariant
                i <= self.sent@.len(),
                before.sent == texts_of(self.sent@),
                self@ == before,
                keep == other_than(message_id@),
                texts_of(sent@) == before.sent.take(i as int).filter(keep),
            decreases self.sent@.len() - i,
        {
            let ghost kept = texts_of(sent@);
            proof {
                let id = self.sent@[i as int]@;
                assert(before.sent[i as int] == id);
                assert(before.sent.take(i + 1) =~= before.sent.take(i as int).push(id));
                before.sent.take(i as int).lemma_filter_push(id, keep);
            }
            if self.sent[i] != *message_id {
                sent.push(self.sent[i].clone());
                proof {
                    assert(texts_of(sent@) =~= kept.push(self.sent@[i as int]@));
                }
            }
            i = i + 1;
        }
        proof {
            assert(before.sent.take(i as int) =~= before.sent);
        }
        self.sent = sent;
    }

    /// Whether a message is on its way.
    fn is_sent(&self, message_id: &String) -> (r: bool)
        ensures
            r == self@.sent.contains(message_id@),
    {
        let mut i: usize = 0;
        while i < self.sent.len()
            invariant
                i <= self.sent@.len(),
                self@.sent == texts_of(self.sent@),
                forall|k: int| 0 <= k < i ==> #[trigger] self@.sent[k] != message_id@,
            decreases self.sent@.len() - i,
        {
            proof {
                assert(self@.sent[i as int] == self.sent@[i as int]@);
            }
            if self.sent[i] == *message_id {
                return true;
            }
            i = i + 1;
        }
        false
    }

    /// The frames to send when messages were queued: those of a flush once the
    /// relay accepted the connection, and none before.
    pub fn on_notify(&mut self, outbox: Vec<OutboundMessage>) -> (frames: Vec<ClientFrame>)
        ensures
            rows(frames@) == if old(self)@.ready {
                frames_of(old(self)@.due(rows(outbox@)))
            } else {
                Seq::empty()
            },
            final(self)@ == if old(self)@.ready {
                old(self)@.flushed(rows(outbox@))
            } else {
                old(self)@
            },
    {
        if self.ready {
            self.flush_outbox(outbox)
        } else {
            let frames: Vec<ClientFrame> = Vec::new();
            proof {
                assert(rows(frames@) =~= Seq::empty());
            }
            frames
        }
    }

    /// The frames to send for an outbox: every message that was not sent on
    /// this connection, in the order of the outbox.
    pub fn flush_outbox(&mut self, outbox: Vec<OutboundMessage>) -> (frames: Vec<ClientFrame>)
        ensures
            rows(frames@) == frames_of(old(self)@.due(rows(outbox@))),
            final(self)@ == old(self)@.flushed(rows(outbox@)),
    {
        let ghost before = self@;
        let ghost all = rows(outbox@);
        let mut frames: Vec<ClientFrame> = Vec::new();
        proof {
            assert(rows(frames@) =~= frames_of(Seq::empty()));
            assert(before.sent + ids_of(Seq::empty()) =~= before.sent);
            assert(unsent(before.sent, all.take(0)) =~= Seq::empty());
        }
        for message in it: outbox.into_iter()
            invariant
                it.seq() == outbox@,
                all == rows(outbox@),
                self@.ready == before.ready,
                rows(frames@) == frames_of(unsent(before.sent, all.take(it.index() as int))),
                self@.sent == before.sent + ids_of(unsent(before.sent, all.take(it.index() as int))),
        {
            let ghost k = it.index() as int;
            let ghost value = message@;
            let ghost front = unsent(before.sent, all.take(k));
            let ghost now_sent = self@.sent;
            let ghost so_far = rows(frames@);
            proof {
                assert(all[k] == value);
                assert(all.take(k + 1).drop_last() =~= all.take(k));
                assert(all.take(k + 1).last() == value);
                lemma_in_either(before.sent, ids_of(front), value.message_id);
            }
            if !self.is_sent(&message.message_id) {
                let id = message.message_id.clone();
                self.sent.push(id);
                frames.push(message.into_frame());
                proof {
                    assert(texts_of(self.sent@) =~= now_sent.push(value.message_id));
                    assert(ids_of(front.push(value)) =~= ids_of(front).push(value.message_id));
                    assert(now_sent.push(value.message_id) =~= before.sent + ids_of(
                        front.push(value),
                    ));
                    assert(rows(frames@) =~= so_far.push(outbound_frame(value)));
                    assert(frames_of(front.push(value)) =~= frames_of(front).push(
                        outbound_frame(value),
                    ));
                }
            }
        }
        proof {
            assert(all.take(all.len() as int) =~= all);
        }
        frames
    }
}

/// What occurs in one list followed by another.
proof fn lemma_in_either(a: Seq<Seq<char>>, b: Seq<Seq<char>>, id: Seq<char>)
    ensures
        (a + b).contains(id) == (a.contains(id) || b.contains(id)),
{
    if a.contains(id) {
        let i = a.index_of(id);
        assert((a + b)[i] == id);
    }
    if b.contains(id) {
        let i = b.index_of(id);
        assert((a + b)[a.len() + i] == id);
    }
    if (a + b).contains(id) {
        let i = (a + b).index_of(id);
        if i < a.len() {
            assert(a[i] == id);
        } else {
            assert(b[i - a.len()] == id);
        }
    }
}

/// The error that an error frame ends a connection with.
fn error_text(message: &str) -> (s: String)
    ensures
        s@ == relay_error(message@),
{
    if starts_with(message, "connection_replaced:") {
        joined("connection_replaced: ", message)
    } else {
        joined("relay rejected a frame: ", message)
    }
}

/// What a client does after a connection ended.
#[derive(Clone, Copy, Debug, PartialEq, Eq, Structural)]
pub enum Verdict {
    /// Another connection of the device took over: stop for good.
    Preempted,
    /// The application closed the client.
    Closed,
    /// Connect again after so many seconds.
    Reconnect { delay_secs: u64 },
}

/// A client across its connections.
#[derive(Debug)]
pub struct Client {
    url: String,
    ack_head: bool,
    closed: bool,
    delay_secs: u64,
}

/// The value of a client.
pub struct ClientView {
    pub url: Seq<char>,
    /// The next connection skips the backlog.
    pub ack_head: bool,
    pub closed: bool,
    /// The delay before the next reconnection attempt.
    pub delay_secs: u64,
}

impl View for Client {
    type V = ClientView;

    closed spec fn view(&self) -> ClientView {
        ClientView {
            url: self.url@,
            ack_head: self.ack_head,
            closed: self.closed,
            delay_secs: self.delay_secs,
        }
    }
}

/// Twice the delay, up to the ceiling.
pub open spec fn doubled(delay_secs: u64) -> u64 {
    if 2 * delay_secs > MAX_RECONNECT_SECS {
        MAX_RECONNECT_SECS
    } else {
        (2 * delay_secs) as u64
    }
}

impl ClientView {
    /// The delay lies within its bounds.
    pub open spec fn well_formed(self) -> bool {
        MIN_RECONNECT_SECS <= self.delay_secs <= MAX_RECONNECT_SECS
    }

    /// The delay before the next attempt: it starts over once a connection was
    /// accepted.
    pub open spec fn pause(self, was_connected: bool) -> u64 {
        if was_connected {
            MIN_RECONNECT_SECS
        } else {
            self.delay_secs
        }
    }

    /// What follows a connection that ended, with an error or without.
    pub open spec fn verdict(self, error: Option<Seq<char>>, was_connected: bool) -> Verdict {
        if error matches Some(text) && occurs_in(text, "connection_replaced"@) {
            Verdict::Preempted
        } else if self.closed {
            Verdict::Closed
        } else {
            Verdict::Reconnect { delay_secs: self.pause(was_connected) }
        }
    }

    /// The client after a connection ended.
    pub open spec fn after(self, error: Option<Seq<char>>, was_connected: bool) -> ClientView {
        if self.verdict(error, was_connected) is Reconnect {
            ClientView { delay_secs: doubled(self.pause(was_connected)), ..self }
        } else {
            self
        }
    }
}

impl Client {
    /// A client that has not connected yet.
    pub fn new(url: String) -> (c: Client)
        ensures
            c@ == (ClientView {
                url: url@,
                ack_head: false,
                closed: false,
                delay_secs: MIN_RECONNECT_SECS,
            }),
            c@.well_formed(),
    {
        Client::new_with_ack_head(url, false)
    }

    /// A client that has not connected yet and may skip its backlog.
    pub fn new_with_ack_head(url: String, ack_head: bool) -> (c: Client)
        ensures
            c@ == (ClientView {
                url: url@,
                ack_head,
                closed: false,
                delay_secs: MIN_RECONNECT_SECS,
            }),
            c@.well_formed(),
    {
        Client { url, ack_head, closed: false, delay_secs: MIN_RECONNECT_SECS }
    }

    /// Notes that the application closed the client.
    pub fn close(&mut self)
        ensures
            final(self)@ == (ClientView { closed: true, ..old(self)@ }),
    {
        self.closed = true;
    }

    /// Whether the application closed the client.
    pub fn is_closed(&self) -> (r: bool)
        ensures
            r == self@.closed,
    {
        self.closed
    }

    /// Where to connect next.
    pub fn connect_url(&self) -> (url: String)
        ensures
            url@ == if self@.ack_head {
                ack_head_address(self@.url)
            } else {
                self@.url
            },
    {
        if self.ack_head {
            append_ack_head(self.url.as_str())
        } else {
            self.url.clone()
        }
    }

    /// Notes that a connection was opened: the backlog is skipped once only.
    pub fn opened(&mut self)
        ensures
            final(self)@ == (ClientView { ack_head: false, ..old(self)@ }),
    {
        self.ack_head = false;
    }

    /// Notes that a connection ended, and says what follows.
    pub fn ended(&mut self, error: Option<&str>, was_connected: bool) -> (verdict: Verdict)
        requires
            old(self)@.well_formed(),
        ensures
            ({
                let text = match error {
                    Some(text) => Some(text@),
                    None => None,
                };
                &&& verdict == old(self)@.verdict(text, was_connected)
                &&& final(self)@ == old(self)@.after(text, was_connected)
                &&& final(self)@.well_formed()
            }),
    {
        if let Some(text) = error {
            if contains(text, "connection_replaced") {
                return Verdict::Preempted;
            }
        }
        if self.closed {
            return Verdict::Closed;
        }
        let delay_secs: u64 = if was_connected {
            MIN_RECONNECT_SECS
        } else {
            self.delay_secs
        };
        self.delay_secs = if 2 * delay_secs > MAX_RECONNECT_SECS {
            MAX_RECONNECT_SECS
        } else {
            2 * delay_secs
        };
        Verdict::Reconnect { delay_secs }
    }
}

/// What a client does about a delivery. A new one is handed over once, then
/// recorded, and acknowledged last, unless recording failed. A repeated one is
/// acknowledged only. One that leaves a gap ends the connection, and nothing of
/// it is handed over, recorded or acknowledged.
pub proof fn deliveries_take_their_course(
    last_received: Option<u64>,
    message_id: Seq<char>,
    sequence: u64,
    payload: Seq<u8>,
    error: Option<Seq<char>>,
)
    ensures
        ({
            let frame = ServerFrameView::Message { message_id, sequence, payload };
            let steps = course(last_received, frame, error);
            if leaves_gap(last_received, sequence) {
                steps.len() == 1 && steps[0] is Fail
            } else if is_new(last_received, sequence) {
                steps == seq![
                    ActionView::Deliver { sequence, payload },
                    ActionView::Record { sequence },
                    match error {
                        None => ActionView::Acknowledge { sequence },
                        Some(error) => ActionView::Fail { error },
                    },
                ]
            } else {
                steps == seq![ActionView::Acknowledge { sequence }]
            }
        }),
{
}

/// An acknowledgement is sent only for what is recorded: the sequence was
/// recorded before the frame came, or it was handed over and recorded on the
/// way to the acknowledgement.
pub proof fn acknowledgements_follow_the_record(
    last_received: Option<u64>,
    frame: ServerFrameView,
    error: Option<Seq<char>>,
    i: int,
    sequence: u64,
)
    requires
        0 <= i < course(last_received, frame, error).len(),
        course(last_received, frame, error)[i] == (ActionView::Acknowledge { sequence }),
    ensures
        recorded(last_received, frame, error) matches Some(last) && sequence <= last,
        ({
            ||| last_received matches Some(last) && sequence <= last
            ||| {
                let steps = course(last_received, frame, error);
                &&& i == 2
                &&& steps[0] matches ActionView::Deliver { sequence: handed, .. } && handed
                    == sequence
                &&& steps[1] == ActionView::Record { sequence }
                &&& error is None
            }
        }),
{
}

/// A frame that came in, and what recording its sequence failed with, if it was
/// recorded and failed.
pub struct Arrival {
    pub frame: ServerFrameView,
    pub error: Option<Seq<char>>,
}

/// How far a client has received after a run of arrivals, first to last.
pub open spec fn received(last_received: Option<u64>, arrivals: Seq<Arrival>) -> Option<u64>
    decreases arrivals.len(),
{
    if arrivals.len() == 0 {
        last_received
    } else {
        let arrival = arrivals.last();
        recorded(received(last_received, arrivals.drop_last()), arrival.frame, arrival.error)
    }
}

/// Whatever arrives, every sequence that a client ever acknowledged is recorded.
pub proof fn acknowledged_sequences_are_recorded(
    last_received: Option<u64>,
    arrivals: Seq<Arrival>,
    k: int,
    i: int,
    sequence: u64,
)
    requires
        0 <= k < arrivals.len(),
        ({
            let before = received(last_received, arrivals.take(k));
            let steps = course(before, arrivals[k].frame, arrivals[k].error);
            0 <= i < steps.len() && steps[i] == (ActionView::Acknowledge { sequence })
        }),
    ensures
        received(last_received, arrivals) matches Some(last) && sequence <= last,
    decreases arrivals.len(),
{
    let front = arrivals.drop_last();
    if k == arrivals.len() - 1 {
        assert(arrivals.take(k) =~= front);
        acknowledgements_follow_the_record(
            received(last_received, front),
            arrivals[k].frame,
            arrivals[k].error,
            i,
            sequence,
        );
    } else {
        assert(front.take(k) =~= arrivals.take(k));
        assert(front[k] == arrivals[k]);
        acknowledged_sequences_are_recorded(last_received, front, k, i, sequence);
    }
}

/// The ids of the messages due are those of the outbox that were not sent, each
/// once.
pub proof fn flushes_send_what_is_not_sent(
    sent: Seq<Seq<char>>,
    outbox: Seq<Outbound>,
    id: Seq<char>,
)
    ensures
        ids_of(unsent(sent, outbox)).contains(id) <==> ids_of(outbox).contains(id)
            && !sent.contains(id),
        ids_of(unsent(sent, outbox)).no_duplicates(),
    decreases outbox.len(),
{
    if outbox.len() > 0 {
        let rest = outbox.drop_last();
        let front = unsent(sent, rest);
        let last = outbox.last();
        flushes_send_what_is_not_sent(sent, rest, id);
        assert(ids_of(outbox) =~= ids_of(rest).push(last.message_id));
        assert(ids_of(front.push(last)) =~= ids_of(front).push(last.message_id));
        lemma_push_member(ids_of(rest), last.message_id, id);
        lemma_push_member(ids_of(front), last.message_id, id);
        if !sent.contains(last.message_id) && !ids_of(front).contains(last.message_id) {
            let ids = ids_of(front).push(last.message_id);
            assert forall|i: int, j: int|
                0 <= i < ids.len() && 0 <= j < ids.len() && i != j implies ids[i] != ids[j] by {
                if i < front.len() {
                    assert(ids[i] == ids_of(front)[i]);
                    assert(ids_of(front).contains(ids_of(front)[i]));
                }
                if j < front.len() {
                    assert(ids[j] == ids_of(front)[j]);
                    assert(ids_of(front).contains(ids_of(front)[j]));
                }
            }
        }
        if sent.contains(last.message_id) || ids_of(front).contains(last.message_id) {
            if id == last.message_id && ids_of(front).contains(last.message_id) {
                flushes_send_what_is_not_sent(sent, rest, last.message_id);
            }
        }
    }
}

/// The messages due stand in the order of the outbox: each is the first there
/// with its id.
pub proof fn flushes_keep_the_order(sent: Seq<Seq<char>>, outbox: Seq<Outbound>) -> (places: Seq<
    int,
>)
    ensures
        places.len() == unsent(sent, outbox).len(),
        forall|i: int| #![trigger places[i]]
            0 <= i < places.len() ==> 0 <= places[i] < outbox.len() && outbox[places[i]] == unsent(
                sent,
                outbox,
            )[i],
        forall|i: int, k: int| #![trigger places[i], outbox[k]]
            0 <= i < places.len() && 0 <= k < places[i] ==> outbox[k].message_id
                != outbox[places[i]].message_id,
        forall|i: int, j: int|
            0 <= i < j < places.len() ==> (#[trigger] places[i]) < (#[trigger] places[j]),
    decreases outbox.len(),
{
    if outbox.len() == 0 {
        Seq::empty()
    } else {
        let rest = outbox.drop_last();
        let front = unsent(sent, rest);
        let last = outbox.last();
        let places = flushes_keep_the_order(sent, rest);
        assert forall|k: int| 0 <= k < rest.len() implies #[trigger] outbox[k] == rest[k] by {}
        if sent.contains(last.message_id) || ids_of(front).contains(last.message_id) {
            assert forall|i: int, k: int| #![trigger places[i], outbox[k]]
                0 <= i < places.len() && 0 <= k < places[i] implies outbox[k].message_id
                != outbox[places[i]].message_id by {
                assert(rest[k].message_id != rest[places[i]].message_id);
            }
            places
        } else {
            let n = outbox.len() - 1;
            let all = places.push(n);
            assert forall|i: int, k: int| #![trigger all[i], outbox[k]]
                0 <= i < all.len() && 0 <= k < all[i] implies outbox[k].message_id
                != outbox[all[i]].message_id by {
                if i < places.len() {
                    assert(all[i] == places[i]);
                    assert(rest[k].message_id != rest[places[i]].message_id);
                } else if outbox[k].message_id == last.message_id {
                    assert(ids_of(rest)[k] == last.message_id);
                    flushes_send_what_is_not_sent(sent, rest, last.message_id);
                }
            }
            assert forall|i: int| #![trigger all[i]] 0 <= i < all.len() implies 0 <= all[i]
                < outbox.len() && outbox[all[i]] == unsent(sent, outbox)[i] by {
                if i < places.len() {
                    assert(all[i] == places[i]);
                    assert(rest[places[i]] == front[i]);
                }
            }
            all
        }
    }
}

/// After a flush the whole outbox counts as sent, besides what was sent before.
pub proof fn flushes_mark_the_outbox_as_sent(
    connection: ConnectionView,
    outbox: Seq<Outbound>,
    id: Seq<char>,
)
    ensures
        connection.flushed(outbox).sent.contains(id) <==> connection.sent.contains(id) || ids_of(
            outbox,
        ).contains(id),
{
    flushes_send_what_is_not_sent(connection.sent, outbox, id);
    lemma_in_either(connection.sent, ids_of(connection.due(outbox)), id);
}

/// A new connection resends the whole outbox.
pub proof fn new_connections_resend_the_outbox(outbox: Seq<Outbound>, message: Outbound)
    requires
        outbox.contains(message),
    ensures
        ({
            let fresh = ConnectionView { ready: true, sent: Seq::empty() };
            ids_of(fresh.due(outbox)).contains(message.message_id)
        }),
{
    let i = outbox.index_of(message);
    assert(ids_of(outbox)[i] == message.message_id);
    flushes_send_what_is_not_sent(Seq::empty(), outbox, message.message_id);
}

/// Flushing again sends nothing twice on one connection.
pub proof fn repeated_flushes_send_nothing(connection: ConnectionView, outbox: Seq<Outbound>)
    ensures
        connection.flushed(outbox).due(outbox) == Seq::<Outbound>::empty(),
{
    let again = connection.flushed(outbox).due(outbox);
    let due = connection.due(outbox);
    if again.len() > 0 {
        let id = again[0].message_id;
        assert(ids_of(again)[0] == id);
        flushes_send_what_is_not_sent(connection.flushed(outbox).sent, outbox, id);
        flushes_send_what_is_not_sent(connection.sent, outbox, id);
        lemma_in_either(connection.sent, ids_of(due), id);
    }
    assert(again =~= Seq::empty());
}

/// A message that was answered and queued again is sent again.
pub proof fn answered_messages_can_be_sent_again(
    connection: ConnectionView,
    message_id: Seq<char>,
    outbox: Seq<Outbound>,
)
    requires
        ids_of(outbox).contains(message_id),
    ensures
        ids_of(connection.forgetting(message_id).due(outbox)).contains(message_id),
{
    lemma_filter_member(connection.sent, other_than(message_id), message_id);
    flushes_send_what_is_not_sent(connection.forgetting(message_id).sent, outbox, message_id);
}

/// A refused message does not end the connection.
pub proof fn refusals_do_not_end_the_connection(
    last_received: Option<u64>,
    message_id: Seq<char>,
    reason: Seq<char>,
)
    ensures
        !(action_for(
            last_received,
            ServerFrameView::Rejected { message_id, reason },
        ) is Fail),
{
}

/// An error frame takes nothing out of the outbox: the connection ends, and the
/// messages are sent again on the next one.
pub proof fn errors_leave_the_outbox_alone(
    connection: ConnectionView,
    last_received: Option<u64>,
    message: Seq<char>,
)
    ensures
        action_for(last_received, ServerFrameView::Error { message }) is Fail,
        connection.after(ServerFrameView::Error { message }) == connection,
{
}

/// The relay's notice that another connection took over stops the client for
/// good.
pub proof fn replaced_clients_stop(
    client: ClientView,
    last_received: Option<u64>,
    was_connected: bool,
)
    ensures
        action_for(last_received, replacement_notice()) matches ActionView::Fail { error }
            && client.verdict(Some(error), was_connected) is Preempted,
{
    reveal_strlit("connection_replaced: another connection opened for this device");
    reveal_strlit("connection_replaced:");
    reveal_strlit("connection_replaced: ");
    reveal_strlit("connection_replaced");
    let message = "connection_replaced: another connection opened for this device"@;
    assert(message.subrange(0, "connection_replaced:"@.len() as int) =~= "connection_replaced:"@);
    let error = "connection_replaced: "@ + message;
    assert(error.subrange(0, "connection_replaced"@.len() as int) =~= "connection_replaced"@);
    assert(occurs_at(error, "connection_replaced"@, 0));
}

/// The delay of a client after so many attempts in a row that failed.
pub open spec fn delay_after(failures: nat) -> u64
    decreases failures,
{
    if failures == 0 {
        MIN_RECONNECT_SECS
    } else {
        doubled(delay_after((failures - 1) as nat))
    }
}

/// The backoff doubles with every attempt that fails, never beyond the ceiling.
pub proof fn backoff_doubles_up_to_the_ceiling(failures: nat)
    ensures
        MIN_RECONNECT_SECS <= delay_after(failures) <= MAX_RECONNECT_SECS,
        delay_after(failures + 1) >= delay_after(failures),
        delay_after(failures + 1) == 2 * delay_after(failures) || delay_after(failures + 1)
            == MAX_RECONNECT_SECS,
        failures >= 5 ==> delay_after(failures) == MAX_RECONNECT_SECS,
    decreases failures,
{
    reveal_with_fuel(delay_after, 7);
    if failures > 0 {
        backoff_doubles_up_to_the_ceiling((failures - 1) as nat);
    }
}

/// A client that keeps failing to connect waits as the backoff says, and one
/// that was connected starts over with the shortest delay.
pub proof fn failing_clients_back_off(client: ClientView, failures: nat, error: Option<Seq<char>>)
    requires
        !client.closed,
        client.delay_secs == delay_after(failures),
        error matches Some(text) ==> !occurs_in(text, "connection_replaced"@),
    ensures
        client.verdict(error, false) == (Verdict::Reconnect { delay_secs: delay_after(failures) }),
        client.after(error, false).delay_secs == delay_after(failures + 1),
        client.verdict(error, true) == (Verdict::Reconnect { delay_secs: delay_after(0) }),
        client.after(error, true).delay_secs == delay_after(1),
{
    reveal_with_fuel(delay_after, 2);
}

} // verus!
