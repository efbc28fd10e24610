//! How the relay serves a connection: whom it admits, what it makes of what a
//! client sends, and what it answers.

use crate::config::Limits;
use crate::database::{message_frame, negative, CleanupStats, Database};
use crate::digest::fingerprint;
use crate::entity::pending_message;
use crate::frame::{
    copy_text, endpoints_are_paired, text_of, ClientFrame, ClientFrameView, Endpoint, ServerFrame,
    ServerFrameView,
};
use crate::hub::{
    greeting, of_device, receives, to_each, token_of, Hub, HubView, Outgoing, OutgoingView,
};
use crate::ids::{check_id, id_fault, IdError};
use crate::journal::ChangeView;
use crate::operation::{changes, next, Operation};
use crate::table::{lemma_filter_member, lemma_found, lemma_push_member, present, rows};
use crate::tables::{
    after_store, delivery, form_fault, hands_out, new_pending, store_delivery, store_fault,
    total_bytes, unacknowledged, Delivery, DeviceKey, Sending, StoreError, Tables,
};
use crate::text::{begins_with, is_ignoring_case, joined, lowered};
use vstd::prelude::*;

verus! {

/// The largest WebSocket message that is read.
pub const MAX_MESSAGE_BYTES: usize = 10_485_760;

/// What a client asks for when it connects.
#[derive(Debug, PartialEq)]
pub struct ConnectQuery {
    pub id: String,
    pub endpoint: Endpoint,
    pub device_id: String,
    /// Skip the backlog.
    pub ack_head: bool,
}

/// Why a client may not connect.
#[derive(Clone, Copy, Debug, PartialEq, Eq, Structural)]
pub enum ConnectError {
    EmptyId,
    IdTooLong,
    EmptyDeviceId,
    DeviceIdTooLong,
}

impl ConnectError {
    pub open spec fn words(self) -> Seq<char> {
        match self {
            ConnectError::EmptyId => "id must not be empty"@,
            ConnectError::IdTooLong => "id is too long"@,
            ConnectError::EmptyDeviceId => "device_id must not be empty"@,
            ConnectError::DeviceIdTooLong => "device_id is too long"@,
        }
    }

    /// The reason as the client reads it.
    pub fn message(&self) -> (s: &'static str)
        ensures
            s@ == self.words(),
    {
        match self {
            ConnectError::EmptyId => "id must not be empty",
            ConnectError::IdTooLong => "id is too long",
            ConnectError::EmptyDeviceId => "device_id must not be empty",
            ConnectError::DeviceIdTooLong => "device_id is too long",
        }
    }
}

/// What is wrong with a pairing id and a device id, if anything.
pub open spec fn connection_fault(id: Seq<char>, device_id: Seq<char>) -> Option<ConnectError> {
    match (id_fault(id), id_fault(device_id)) {
        (Some(IdError::Empty), _) => Some(ConnectError::EmptyId),
        (Some(IdError::TooLong), _) => Some(ConnectError::IdTooLong),
        (None, Some(IdError::Empty)) => Some(ConnectError::EmptyDeviceId),
        (None, Some(IdError::TooLong)) => Some(ConnectError::DeviceIdTooLong),
        (None, None) => None,
    }
}

/// Accepts exactly the clients with a usable pairing id and device id.
pub fn validate_connection(query: &ConnectQuery) -> (r: Result<(), ConnectError>)
    ensures
        match r {
            Ok(()) => connection_fault(query.id@, query.device_id@) is None,
            Err(e) => connection_fault(query.id@, query.device_id@) == Some(e),
        },
{
    match check_id(query.id.as_str()) {
        Err(IdError::Empty) => return Err(ConnectError::EmptyId),
        Err(IdError::TooLong) => return Err(ConnectError::IdTooLong),
        Ok(()) => {},
    }
    match check_id(query.device_id.as_str()) {
        Err(IdError::Empty) => Err(ConnectError::EmptyDeviceId),
        Err(IdError::TooLong) => Err(ConnectError::DeviceIdTooLong),
        Ok(()) => Ok(()),
    }
}

/// The truth value of a query parameter.
pub open spec fn flag_value(text: Seq<char>) -> Option<bool> {
    let word = lowered(text);
    if word == "true"@ || word == "1"@ || word == "yes"@ {
        Some(true)
    } else if word == "false"@ || word == "0"@ || word == "no"@ || word == ""@ {
        Some(false)
    } else {
        None
    }
}

/// Reads the truth value of a query parameter, in any case of its letters.
pub fn parse_flag(text: &str) -> (r: Result<bool, String>)
    ensures
        match r {
            Ok(value) => flag_value(text@) == Some(value),
            Err(message) => flag_value(text@) is None && message@ == "invalid boolean: "@ + text@,
        },
{
    proof {
        lemma_flag_words();
    }
    if is_ignoring_case(text, "true") || is_ignoring_case(text, "1") || is_ignoring_case(
        text,
        "yes",
    ) {
        Ok(true)
    } else if is_ignoring_case(text, "false") || is_ignoring_case(text, "0") || is_ignoring_case(
        text,
        "no",
    ) || is_ignoring_case(text, "") {
        Ok(false)
    } else {
        Err(joined("invalid boolean: ", text))
    }
}

/// No word stands for both truth values.
proof fn lemma_flag_words()
    ensures
        "false"@ != "true"@,
{
    reveal_strlit("true");
    reveal_strlit("false");
    assert("false"@.len() != "true"@.len());
}

/// The steps that a connection is admitted in.
#[derive(Clone, Copy, Debug, PartialEq, Eq, Structural)]
pub enum AdmissionStep {
    /// The device is registered.
    Register,
    /// The device skips its backlog.
    AcknowledgeHead,
    /// The backlog is read.
    ReadPending,
    /// The connection is live.
    Attach,
}

/// Why a connection is not admitted: a step of its admission failed.
#[derive(Clone, Copy, Debug, PartialEq, Eq, Structural)]
pub enum Refusal {
    RegistrationFailed,
    AcknowledgeHeadFailed,
    ReadFailed,
}

impl Refusal {
    pub open spec fn words(self) -> Seq<char> {
        match self {
            Refusal::RegistrationFailed => "relay_storage_unavailable: device registration failed"@,
            Refusal::AcknowledgeHeadFailed => "relay_storage_unavailable: acknowledge head failed"@,
            Refusal::ReadFailed =>
                "relay_storage_unavailable: pending messages could not be read"@,
        }
    }

    /// The reason as the client reads it.
    pub fn message(&self) -> (s: &'static str)
        ensures
            s@ == self.words(),
    {
        match self {
            Refusal::RegistrationFailed => "relay_storage_unavailable: device registration failed",
            Refusal::AcknowledgeHeadFailed => "relay_storage_unavailable: acknowledge head failed",
            Refusal::ReadFailed => "relay_storage_unavailable: pending messages could not be read",
        }
    }

    /// The last frame of a connection that is not admitted.
    pub fn into_frame(self) -> (frame: ServerFrame)
        ensures
            frame@ == (ServerFrameView::Error { message: self.words() }),
    {
        ServerFrame::Error { message: self.message().to_owned() }
    }
}

impl AdmissionStep {
    /// What follows a step that succeeded. The backlog is skipped where the
    /// client asked for it, and an attached connection stays attached.
    pub open spec fn successor(self, ack_head: bool) -> AdmissionStep {
        match self {
            AdmissionStep::Register => if ack_head {
                AdmissionStep::AcknowledgeHead
            } else {
                AdmissionStep::ReadPending
            },
            AdmissionStep::AcknowledgeHead => AdmissionStep::ReadPending,
            AdmissionStep::ReadPending => AdmissionStep::Attach,
            AdmissionStep::Attach => AdmissionStep::Attach,
        }
    }

    /// What the failure of a step means for the connection.
    pub open spec fn refusal(self) -> Option<Refusal> {
        match self {
            AdmissionStep::Register => Some(Refusal::RegistrationFailed),
            AdmissionStep::AcknowledgeHead => Some(Refusal::AcknowledgeHeadFailed),
            AdmissionStep::ReadPending => Some(Refusal::ReadFailed),
            AdmissionStep::Attach => None,
        }
    }

    /// The next step of an admission, or the refusal.
    pub fn after(self, succeeded: bool, ack_head: bool) -> (r: Result<AdmissionStep, Refusal>)
        ensures
            r == if succeeded || self.refusal() is None {
                Ok::<AdmissionStep, Refusal>(self.successor(ack_head))
            } else {
                Err::<AdmissionStep, Refusal>(self.refusal()->0)
            },
    {
        match self {
            AdmissionStep::Register => if !succeeded {
                Err(Refusal::RegistrationFailed)
            } else if ack_head {
                Ok(AdmissionStep::AcknowledgeHead)
            } else {
                Ok(AdmissionStep::ReadPending)
            },
            AdmissionStep::AcknowledgeHead => if succeeded {
                Ok(AdmissionStep::ReadPending)
            } else {
                Err(Refusal::AcknowledgeHeadFailed)
            },
            AdmissionStep::ReadPending => if succeeded {
                Ok(AdmissionStep::Attach)
            } else {
                Err(Refusal::ReadFailed)
            },
            AdmissionStep::Attach => Ok(AdmissionStep::Attach),
        }
    }
}

/// A connection that was admitted.
#[derive(Debug, PartialEq)]
pub struct Session {
    pub relay_id: String,
    pub endpoint: Endpoint,
    pub device_id: String,
    pub token: u64,
}

/// The value of a session.
pub struct SessionView {
    pub device: DeviceKey,
    pub token: u64,
}

impl View for Session {
    type V = SessionView;

    open spec fn view(&self) -> SessionView {
        SessionView {
            device: DeviceKey {
                relay_id: self.relay_id@,
                endpoint: self.endpoint,
                device_id: self.device_id@,
            },
            token: self.token,
        }
    }
}

/// Attaches a device whose admission got this far: reads its backlog and makes
/// its connection live. Returns the session and the frames that go out, or the
/// refusal where the backlog cannot be read.
pub fn attach(database: &Database, hub: &mut Hub, query: ConnectQuery) -> (r: Result<
    (Session, Vec<Outgoing>),
    Refusal,
>)
    requires
        old(hub)@.last_token < u64::MAX,
    ensures
        old(hub)@.well_formed() ==> final(hub)@.well_formed(),
        ({
            let device = DeviceKey {
                relay_id: query.id@,
                endpoint: query.endpoint,
                device_id: query.device_id@,
            };
            let open = unacknowledged(database@, device);
            let unreadable = present(database@.pending, negative(open));
            match r {
                Ok((session, out)) => {
                    &&& !unreadable
                    &&& session@.device == device
                    &&& session@.token == old(hub)@.last_token + 1
                    &&& final(hub)@ == old(hub)@.registered(device)
                    &&& exists|replay: Seq<Delivery>|
                        {
                            &&& #[trigger] hands_out(replay, database@.pending, open)
                            &&& rows(out@) == old(hub)@.notices(device) + greeting(
                                session.token,
                                query.endpoint,
                                replay,
                            )
                        }
                },
                Err(e) => {
                    &&& unreadable
                    &&& e == Refusal::ReadFailed
                    &&& final(hub)@ == old(hub)@
                },
            }
        }),
{
    let pending = match database.pending_for_device(
        query.id.as_str(),
        query.endpoint,
        query.device_id.as_str(),
    ) {
        Ok(pending) => pending,
        Err(_) => return Err(Refusal::ReadFailed),
    };
    let ghost replay = rows(pending@);
    let (token, out) = hub.register(
        query.id.as_str(),
        query.endpoint,
        query.device_id.as_str(),
        pending,
    );
    let session = Session {
        relay_id: query.id,
        endpoint: query.endpoint,
        device_id: query.device_id,
        token,
    };
    Ok((session, out))
}

/// What was read from a connection.
#[derive(Debug)]
pub enum Inbound {
    /// The read failed.
    Failed,
    /// The peer is gone.
    Ended,
    /// Nothing came for longer than the idle timeout.
    Silent,
    /// The peer closes the connection.
    Close,
    /// A ping or a pong.
    Heartbeat,
    /// A binary message.
    Binary,
    /// A text message that is a frame.
    Frame(ClientFrame),
    /// A text message that is no frame, with the reason.
    Invalid(String),
}

/// What the relay does next with a connection.
#[derive(Debug)]
pub enum Reaction {
    Disconnect,
    Ignore,
    Reply(ServerFrame),
    Serve(ClientFrame),
}

/// What is to be done about a message, where the connection is still current
/// or not. A connection that was replaced is dropped whatever it sends.
pub fn react(inbound: Inbound, current: bool) -> (r: Reaction)
    ensures
        match inbound {
            Inbound::Failed | Inbound::Ended | Inbound::Silent => r is Disconnect,
            Inbound::Close => r is Disconnect,
            Inbound::Heartbeat | Inbound::Binary => if current {
                r is Ignore
            } else {
                r is Disconnect
            },
            Inbound::Frame(frame) => if current {
                r == Reaction::Serve(frame)
            } else {
                r is Disconnect
            },
            Inbound::Invalid(reason) => if current {
                r matches Reaction::Reply(frame) && frame@ == (ServerFrameView::Error {
                    message: "invalid frame: "@ + reason@,
                })
            } else {
                r is Disconnect
            },
        },
{
    match inbound {
        Inbound::Failed | Inbound::Ended | Inbound::Silent | Inbound::Close => Reaction::Disconnect,
        _ if !current => Reaction::Disconnect,
        Inbound::Heartbeat | Inbound::Binary => Reaction::Ignore,
        Inbound::Frame(frame) => Reaction::Serve(frame),
        Inbound::Invalid(reason) => Reaction::Reply(
            ServerFrame::Error { message: joined("invalid frame: ", reason.as_str()) },
        ),
    }
}

/// The message of a frame.
pub open spec fn sent_by(
    session: SessionView,
    message_id: Seq<char>,
    payload: Seq<u8>,
    target_device_id: Option<Seq<char>>,
) -> Sending {
    Sending {
        relay_id: session.device.relay_id,
        source: session.device.endpoint,
        message_id,
        payload,
        payload_hash: fingerprint(payload),
        target_device_id,
    }
}

/// The operation that a frame asks for.
pub open spec fn operation_of(session: SessionView, frame: ClientFrameView, now: i64) -> Operation {
    match frame {
        ClientFrameView::Message { message_id, payload, target_device_id } => Operation::Store {
            message: sent_by(session, message_id, payload, target_device_id),
            now,
        },
        ClientFrameView::Ack { sequence } => Operation::Acknowledge {
            device: session.device,
            sequence,
            now,
        },
    }
}

/// Where a delivery goes: to the connections of the opposite endpoint that it
/// is meant for.
pub open spec fn forwarded(hub: HubView, session: SessionView, d: Option<Delivery>) -> Seq<
    OutgoingView,
> {
    match d {
        Some(d) => to_each(
            hub.live.filter(
                receives(
                    session.device.relay_id,
                    session.device.endpoint.other(),
                    d.target_device_id,
                ),
            ),
            message_frame(d),
        ),
        None => Seq::empty(),
    }
}

/// The answer to a message that is refused. One that is refused for good is
/// rejected, so that its sender gives it up. Any other refusal is an error, and
/// the sender keeps the message for another attempt.
pub open spec fn refusal_frame(message_id: Seq<char>, e: StoreError) -> ServerFrameView {
    if e.permanent() {
        ServerFrameView::Rejected { message_id, reason: e.words() }
    } else {
        ServerFrameView::Error { message: e.words() }
    }
}

/// The answer to a message that is refused.
fn refused(message_id: String, e: StoreError) -> (frame: ServerFrame)
    ensures
        frame@ == refusal_frame(message_id@, e),
{
    let reason = e.message().to_owned();
    if e.is_permanent() {
        ServerFrame::Rejected { message_id, reason }
    } else {
        ServerFrame::Error { message: reason }
    }
}

/// The frames that go out for a frame. A stored message is confirmed to its
/// sender and forwarded, a refused one is answered with the reason, and an
/// acknowledgement has no answer.
pub open spec fn answers(
    limits: Limits,
    t: Tables,
    hub: HubView,
    session: SessionView,
    frame: ClientFrameView,
    now: i64,
) -> Seq<OutgoingView> {
    match frame {
        ClientFrameView::Message { message_id, payload, target_device_id } => {
            let m = sent_by(session, message_id, payload, target_device_id);
            match store_fault(limits, t, m) {
                Some(e) => seq![
                    OutgoingView { token: session.token, frame: refusal_frame(message_id, e) },
                ],
                None => seq![
                    OutgoingView {
                        token: session.token,
                        frame: ServerFrameView::Stored { message_id },
                    },
                ] + forwarded(hub, session, store_delivery(t, m, now)),
            }
        },
        ClientFrameView::Ack { .. } => Seq::empty(),
    }
}

/// Serves a frame of an admitted connection, and returns the frames that go
/// out once its changes are on disk.
pub fn serve_frame(
    database: &mut Database,
    hub: &Hub,
    session: &Session,
    frame: ClientFrame,
    now: i64,
) -> (out: Vec<Outgoing>)
    ensures
        final(database).limits == old(database).limits,
        final(database)@ == next(
            old(database).limits,
            old(database)@,
            operation_of(session@, frame@, now),
        ),
        final(database).log() == old(database).log() + changes(
            old(database).limits,
            old(database)@,
            operation_of(session@, frame@, now),
        ),
        rows(out@) == answers(
            old(database).limits,
            old(database)@,
            hub@,
            session@,
            frame@,
            now,
        ),
{
    let ghost log = database.log();
    let mut out: Vec<Outgoing> = Vec::new();
    match frame {
        ClientFrame::Message { message_id, payload, target_device_id } => {
            let ghost m = sent_by(session@, message_id@, payload@, text_of(target_device_id));
            let target: Option<&str> = match &target_device_id {
                Some(target) => Some(target.as_str()),
                None => None,
            };
            let stored = database.store(
                session.relay_id.as_str(),
                session.endpoint,
                message_id.as_str(),
                &payload,
                target,
                now,
            );
            match stored {
                Ok(result) => {
                    let ghost confirmed = OutgoingView {
                        token: session.token,
                        frame: ServerFrameView::Stored { message_id: message_id@ },
                    };
                    out.push(
                        Outgoing { token: session.token, frame: ServerFrame::Stored { message_id } },
                    );
                    assert(rows(out@) =~= seq![confirmed]);
                    if let Some(pending) = result.pending {
                        let ghost d = pending@;
                        let target = copy_text(&pending.target_device_id);
                        let forward = pending.into_frame();
                        let mut more = hub.send_to_endpoint(
                            session.relay_id.as_str(),
                            session.endpoint.opposite(),
                            match &target {
                                Some(target) => Some(target.as_str()),
                                None => None,
                            },
                            &forward,
                        );
                        let ghost tail = rows(more@);
                        assert(tail == forwarded(hub@, session@, Some(d)));
                        out.append(&mut more);
                        assert(rows(out@) =~= seq![confirmed] + tail);
                    } else {
                        assert(seq![confirmed] + Seq::<OutgoingView>::empty() =~= seq![confirmed]);
                    }
                },
                Err(e) => {
                    let ghost answer = OutgoingView {
                        token: session.token,
                        frame: refusal_frame(message_id@, e),
                    };
                    out.push(Outgoing { token: session.token, frame: refused(message_id, e) });
                    assert(rows(out@) =~= seq![answer]);
                    assert(log + Seq::<ChangeView>::empty() =~= log);
                },
            }
        },
        ClientFrame::Ack { sequence } => {
            let _ = database.acknowledge(
                session.relay_id.as_str(),
                session.endpoint,
                session.device_id.as_str(),
                sequence,
                now,
            );
            assert(rows(out@) =~= Seq::empty());
        },
    }
    out
}

/// Whether a cleanup removed anything worth a line in the log.
pub fn report_cleanup(stats: CleanupStats) -> (r: bool)
    ensures
        r == (stats.expired_pending > 0 || stats.expired_receipts > 0),
{
    stats.expired_pending > 0 || stats.expired_receipts > 0
}

/// The sender of a message gets one answer, on its own connection: that the
/// message is stored, or that it is refused and why. Nothing else that goes out
/// for the message comes back to the sender.
pub proof fn senders_get_one_answer(
    limits: Limits,
    t: Tables,
    hub: HubView,
    session: SessionView,
    message_id: Seq<char>,
    payload: Seq<u8>,
    target_device_id: Option<Seq<char>>,
    now: i64,
)
    requires
        hub.well_formed(),
        hub.current(session.device, session.token),
    ensures
        ({
            let m = sent_by(session, message_id, payload, target_device_id);
            let frame = ClientFrameView::Message { message_id, payload, target_device_id };
            let out = answers(limits, t, hub, session, frame, now);
            &&& out.len() > 0
            &&& out[0].token == session.token
            &&& out[0].frame == match store_fault(limits, t, m) {
                Some(e) => refusal_frame(message_id, e),
                None => ServerFrameView::Stored { message_id },
            }
            &&& forall|i: int| 1 <= i < out.len() ==> (#[trigger] out[i]).token != session.token
        }),
{
    let m = sent_by(session, message_id, payload, target_device_id);
    let frame = ClientFrameView::Message { message_id, payload, target_device_id };
    let out = answers(limits, t, hub, session, frame, now);
    if store_fault(limits, t, m) is None {
        let d = store_delivery(t, m, now);
        let more = forwarded(hub, session, d);
        assert forall|i: int| 1 <= i < out.len() implies (#[trigger] out[i]).token
            != session.token by {
            assert(out[i] == more[i - 1]);
            let p = receives(
                session.device.relay_id,
                session.device.endpoint.other(),
                d->0.target_device_id,
            );
            let chosen = hub.live.filter(p);
            let live = chosen[i - 1];
            assert(chosen.contains(live));
            lemma_filter_member(hub.live, p, live);
            let a = hub.live.index_of(live);
            lemma_found(hub.live, of_device(session.device));
            let own = hub.connection(session.device)->0;
            let b = hub.live.index_of(own);
            endpoints_are_paired(session.device.endpoint);
            if a < b {
                assert(!token_of()(hub.live[a])(hub.live[b]));
            } else if b < a {
                assert(!token_of()(hub.live[b])(hub.live[a]));
            }
        }
    }
}

/// A message that may be accepted later is not rejected: a full queue, for
/// one, is an error, and the sender keeps the message.
pub proof fn full_queues_reject_nothing(
    limits: Limits,
    t: Tables,
    hub: HubView,
    session: SessionView,
    message_id: Seq<char>,
    payload: Seq<u8>,
    target_device_id: Option<Seq<char>>,
    now: i64,
)
    requires
        ({
            let m = sent_by(session, message_id, payload, target_device_id);
            let queue = t.queue(m.relay_id, m.destination());
            &&& form_fault(m) is None
            &&& t.receipt_of(m) is None
            &&& queue.len() >= limits.max_pending_messages || total_bytes(queue) + payload.len()
                > limits.max_pending_bytes
        }),
    ensures
        ({
            let frame = ClientFrameView::Message { message_id, payload, target_device_id };
            let out = answers(limits, t, hub, session, frame, now);
            &&& out.len() == 1
            &&& out[0].token == session.token
            &&& out[0].frame matches ServerFrameView::Error { message } && begins_with(
                message,
                "queue_full:"@,
            )
        }),
{
    reveal_strlit("queue_full:");
    reveal_strlit("queue_full: pending message count limit reached");
    reveal_strlit("queue_full: pending payload byte limit reached");
    let a = "queue_full: pending message count limit reached"@;
    let b = "queue_full: pending payload byte limit reached"@;
    assert(a.subrange(0, "queue_full:"@.len() as int) =~= "queue_full:"@);
    assert(b.subrange(0, "queue_full:"@.len() as int) =~= "queue_full:"@);
}

/// A refused message changes nothing and goes to nobody.
pub proof fn refused_messages_leave_no_trace(
    limits: Limits,
    t: Tables,
    hub: HubView,
    session: SessionView,
    message_id: Seq<char>,
    payload: Seq<u8>,
    target_device_id: Option<Seq<char>>,
    now: i64,
)
    requires
        store_fault(limits, t, sent_by(session, message_id, payload, target_device_id)) is Some,
    ensures
        ({
            let frame = ClientFrameView::Message { message_id, payload, target_device_id };
            let op = operation_of(session, frame, now);
            &&& next(limits, t, op) == t
            &&& changes(limits, t, op) == Seq::<ChangeView>::empty()
            &&& answers(limits, t, hub, session, frame, now).len() == 1
        }),
{
}

/// What is forwarded waits in the tables until it is acknowledged: a device
/// that misses the forwarded frame reads the message later, with the same
/// sequence.
pub proof fn forwarded_messages_are_kept(limits: Limits, t: Tables, m: Sending, now: i64)
    requires
        store_fault(limits, t, m) is None,
        store_delivery(t, m, now) is Some,
    ensures
        exists|row: pending_message::Row|
            {
                &&& #[trigger] after_store(t, m, now).pending.contains(row)
                &&& row.relay_id == m.relay_id
                &&& row.destination == m.destination()
                &&& store_delivery(t, m, now) == Some(delivery(row))
            },
{
    match t.receipt_of(m) {
        Some(receipt) => {
            let p = pending_message::keyed(m.relay_id, m.destination(), receipt.sequence);
            lemma_found(t.pending, p);
            let row = t.waiting(m.relay_id, m.destination(), receipt.sequence)->0;
            assert(after_store(t, m, now).pending.contains(row));
        },
        None => {
            let row = new_pending(t, m, now);
            lemma_push_member(t.pending, row, row);
            assert(after_store(t, m, now).pending.contains(row));
        },
    }
}

/// An admission passes through its steps in order: the device is registered
/// first, its backlog is skipped where the client asked for it and only there,
/// and the connection is live only after the backlog was read.
pub proof fn admissions_run_in_order(ack_head: bool)
    ensures
        ({
            let second = AdmissionStep::Register.successor(ack_head);
            let third = second.successor(ack_head);
            &&& ack_head ==> second is AcknowledgeHead && third is ReadPending
            &&& !ack_head ==> second is ReadPending && third is Attach
            &&& third.successor(ack_head) is Attach
        }),
{
}

} // verus!
