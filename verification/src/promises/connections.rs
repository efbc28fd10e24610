//! Who is connected, and which frames go out to whom.

use crate::config::Limits;
use crate::database::message_frame;
use crate::digest::fingerprint;
use crate::frame::{ClientFrame, ClientFrameView, Endpoint, ServerFrame, ServerFrameView};
use crate::hub::{
    device_of, greeting, of_device, receives, to_each, token_of, HubView, Live, LiveConnection,
    Outgoing, OutgoingView,
};
use crate::operation::Operation;
use crate::server::{
    answers, connection_fault, flag_value, forwarded, operation_of, refusal_frame, sent_by,
    AdmissionStep, ConnectError, Refusal, Session, SessionView,
};
use crate::table::{first_at, lemma_filter_congruent, lemma_filter_member, lemma_first, present};
use crate::tables::{store_delivery, store_fault, Delivery, DeviceKey, Sending, StoreError, Tables};
use crate::text::lowered;
use vstd::prelude::*;
use vstd::utf8::encode_utf8;

verus! {

/// A new connection is sent its whole backlog: `ready`, and then for each
/// delivery one frame with its id, sequence and payload, in the given order.
pub proof fn greetings_hold_the_whole_backlog(
    token: u64,
    endpoint: Endpoint,
    backlog: Seq<Delivery>,
)
    ensures
        greeting(token, endpoint, backlog).len() == 1 + backlog.len(),
        greeting(token, endpoint, backlog)[0] == (OutgoingView {
            token,
            frame: ServerFrameView::Ready { endpoint },
        }),
        forall|i: int|
            0 <= i < backlog.len() ==> #[trigger] greeting(token, endpoint, backlog)[i + 1] == (
            OutgoingView {
                token,
                frame: ServerFrameView::Message {
                    message_id: backlog[i].message_id,
                    sequence: backlog[i].sequence,
                    payload: backlog[i].payload,
                },
            }),
{
    let frames = backlog.map_values(
        |d: Delivery| OutgoingView { token, frame: message_frame(d) },
    );
    assert forall|i: int| 0 <= i < backlog.len() implies #[trigger] greeting(
        token,
        endpoint,
        backlog,
    )[i + 1] == (OutgoingView {
        token,
        frame: ServerFrameView::Message {
            message_id: backlog[i].message_id,
            sequence: backlog[i].sequence,
            payload: backlog[i].payload,
        },
    }) by {
        assert(frames[i] == (OutgoingView { token, frame: message_frame(backlog[i]) }));
    }
}

/// A frame for an endpoint goes to exactly the live connections of that pairing
/// id and endpoint, and where it has a target only to that device, once each
/// and in their order.
pub proof fn frames_reach_exactly_their_receivers(
    hub: HubView,
    relay_id: Seq<char>,
    endpoint: Endpoint,
    target: Option<Seq<char>>,
    frame: ServerFrameView,
)
    ensures
        to_each(hub.live.filter(receives(relay_id, endpoint, target)), frame) == hub.live.filter(
            |live: Live|
                live.device.relay_id == relay_id && live.device.endpoint == endpoint && (
                match target {
                    Some(device_id) => live.device.device_id == device_id,
                    None => true,
                }),
        ).map_values(|live: Live| OutgoingView { token: live.token, frame }),
{
    lemma_filter_congruent(
        hub.live,
        receives(relay_id, endpoint, target),
        |live: Live|
            live.device.relay_id == relay_id && live.device.endpoint == endpoint && (
            match target {
                Some(device_id) => live.device.device_id == device_id,
                None => true,
            }),
    );
}

/// Every frame that goes out for a message, but for the answer to its sender,
/// goes to a live connection of the sender's pairing id on the opposite
/// endpoint, and where the message has a target to that device.
pub proof fn answers_stay_within_the_channel(
    limits: Limits,
    t: Tables,
    hub: HubView,
    session: SessionView,
    frame: ClientFrameView,
    now: i64,
    i: int,
)
    requires
        0 < i < answers(limits, t, hub, session, frame, now).len(),
    ensures
        exists|live: Live|
            {
                &&& #[trigger] hub.live.contains(live)
                &&& live.token == answers(limits, t, hub, session, frame, now)[i].token
                &&& live.device.relay_id == session.device.relay_id
                &&& live.device.endpoint != session.device.endpoint
                &&& frame matches ClientFrameView::Message { message_id, payload, target_device_id }
                    && (store_delivery(
                    t,
                    sent_by(session, message_id, payload, target_device_id),
                    now,
                ) matches Some(d) && match d.target_device_id {
                    Some(target) => live.device.device_id == target,
                    None => true,
                })
            },
{
    let out = answers(limits, t, hub, session, frame, now);
    match frame {
        ClientFrameView::Message { message_id, payload, target_device_id } => {
            let m = sent_by(session, message_id, payload, target_device_id);
            let sent = forwarded(hub, session, store_delivery(t, m, now));
            assert(out[i] == sent[i - 1]);
            let d = store_delivery(t, m, now)->0;
            let p = receives(
                session.device.relay_id,
                session.device.endpoint.other(),
                d.target_device_id,
            );
            let to = hub.live.filter(p);
            let live = to[i - 1];
            assert(to.contains(live));
            lemma_filter_member(hub.live, p, live);
            assert(to.map_values(
                |live: Live| OutgoingView { token: live.token, frame: message_frame(d) },
            )[i - 1] == (OutgoingView { token: live.token, frame: message_frame(d) }));
            assert(hub.live.contains(live));
        },
        ClientFrameView::Ack { .. } => {},
    }
}

/// A live device is sent a message that is stored exactly if it is on the
/// sender's pairing id, on the opposite endpoint, and the message has no target
/// or names it. The sender is told that the message is stored first.
pub proof fn stored_messages_go_to_their_receivers(
    limits: Limits,
    t: Tables,
    hub: HubView,
    session: SessionView,
    message_id: Seq<char>,
    payload: Seq<u8>,
    target_device_id: Option<Seq<char>>,
    now: i64,
    d: Delivery,
)
    requires
        store_fault(limits, t, sent_by(session, message_id, payload, target_device_id)) is None,
        store_delivery(t, sent_by(session, message_id, payload, target_device_id), now) == Some(d),
    ensures
        answers(
            limits,
            t,
            hub,
            session,
            ClientFrameView::Message { message_id, payload, target_device_id },
            now,
        ) == seq![
            OutgoingView { token: session.token, frame: ServerFrameView::Stored { message_id } },
        ] + hub.live.filter(
            |live: Live|
                live.device.relay_id == session.device.relay_id && live.device.endpoint
                    != session.device.endpoint && (match d.target_device_id {
                    Some(device_id) => live.device.device_id == device_id,
                    None => true,
                }),
        ).map_values(
            |live: Live|
                OutgoingView {
                    token: live.token,
                    frame: ServerFrameView::Message {
                        message_id: d.message_id,
                        sequence: d.sequence,
                        payload: d.payload,
                    },
                },
        ),
{
    let p = receives(session.device.relay_id, session.device.endpoint.other(), d.target_device_id);
    let q = |live: Live|
        live.device.relay_id == session.device.relay_id && live.device.endpoint
            != session.device.endpoint && (match d.target_device_id {
            Some(device_id) => live.device.device_id == device_id,
            None => true,
        });
    lemma_filter_congruent(hub.live, p, q);
    let to = hub.live.filter(q);
    let a = to.map_values(|live: Live| OutgoingView { token: live.token, frame: message_frame(d) });
    let b = to.map_values(
        |live: Live|
            OutgoingView {
                token: live.token,
                frame: ServerFrameView::Message {
                    message_id: d.message_id,
                    sequence: d.sequence,
                    payload: d.payload,
                },
            },
    );
    assert(a =~= b);
}

/// The other frames have one answer or none: a message that is stored and no
/// longer waits is confirmed, a refused one is answered with the reason, and an
/// acknowledgement is not answered.
pub proof fn other_frames_are_answered_to_the_sender(
    limits: Limits,
    t: Tables,
    hub: HubView,
    session: SessionView,
    message_id: Seq<char>,
    payload: Seq<u8>,
    target_device_id: Option<Seq<char>>,
    sequence: u64,
    now: i64,
)
    ensures
        ({
            let m = sent_by(session, message_id, payload, target_device_id);
            let out = answers(
                limits,
                t,
                hub,
                session,
                ClientFrameView::Message { message_id, payload, target_device_id },
                now,
            );
            &&& store_fault(limits, t, m) is None && store_delivery(t, m, now) is None ==> out
                == seq![
                OutgoingView {
                    token: session.token,
                    frame: ServerFrameView::Stored { message_id },
                },
            ]
            &&& store_fault(limits, t, m) matches Some(e) ==> out == seq![
                OutgoingView { token: session.token, frame: refusal_frame(message_id, e) },
            ]
        }),
        answers(limits, t, hub, session, ClientFrameView::Ack { sequence }, now).len() == 0,
{
}

/// A refused message is rejected for good exactly if its id, its target or its
/// payload is at fault; any other refusal leaves it to be sent again.
pub proof fn refusals_tell_faults_from_full_queues(message_id: Seq<char>, e: StoreError)
    ensures
        match e {
            StoreError::EmptyMessageId
            | StoreError::MessageIdTooLong
            | StoreError::EmptyTarget
            | StoreError::TargetTooLong
            | StoreError::PayloadTooLarge
            | StoreError::ConflictingPayload => refusal_frame(message_id, e) == (
            ServerFrameView::Rejected { message_id, reason: e.words() }),
            StoreError::TooManyPending
            | StoreError::TooManyBytes
            | StoreError::SequenceExhausted
            | StoreError::SequenceTaken
            | StoreError::NegativeSequence => refusal_frame(message_id, e) == (
            ServerFrameView::Error { message: e.words() }),
        },
        e.permanent() <==> refusal_frame(message_id, e) is Rejected,
{
}

/// What the sender of a refused message reads.
pub proof fn refusals_have_their_words(e: StoreError)
    ensures
        match e {
            StoreError::EmptyMessageId => e.words() == "message_id must not be empty"@,
            StoreError::MessageIdTooLong => e.words() == "message_id is too long"@,
            StoreError::EmptyTarget => e.words() == "target_device_id must not be empty"@,
            StoreError::TargetTooLong => e.words() == "target_device_id is too long"@,
            StoreError::PayloadTooLarge => e.words() == "payload is too large"@,
            StoreError::ConflictingPayload => e.words()
                == "message_id was already used with a different payload"@,
            StoreError::TooManyPending => e.words()
                == "queue_full: pending message count limit reached"@,
            StoreError::TooManyBytes => e.words()
                == "queue_full: pending payload byte limit reached"@,
            StoreError::SequenceExhausted => e.words() == "relay sequence space exhausted"@,
            StoreError::SequenceTaken => e.words() == "relay sequence is already in use"@,
            StoreError::NegativeSequence => e.words() == "stored sequence is negative"@,
        },
{
}

/// A frame of a session is served for its own device: a message is stored as
/// the session's own, and an acknowledgement moves its own cursor.
pub proof fn frames_are_served_for_their_session(
    session: SessionView,
    message_id: Seq<char>,
    payload: Seq<u8>,
    target_device_id: Option<Seq<char>>,
    sequence: u64,
    now: i64,
)
    ensures
        operation_of(
            session,
            ClientFrameView::Message { message_id, payload, target_device_id },
            now,
        ) == (Operation::Store {
            message: Sending {
                relay_id: session.device.relay_id,
                source: session.device.endpoint,
                message_id,
                payload,
                payload_hash: fingerprint(payload),
                target_device_id,
            },
            now,
        }),
        operation_of(session, ClientFrameView::Ack { sequence }, now) == (Operation::Acknowledge {
            device: session.device,
            sequence,
            now,
        }),
        sent_by(session, message_id, payload, target_device_id) == (Sending {
            relay_id: session.device.relay_id,
            source: session.device.endpoint,
            message_id,
            payload,
            payload_hash: fingerprint(payload),
            target_device_id,
        }),
{
}

/// A device without a connection gets one at the end of the list, under a token
/// that was not given out before, and nobody is told.
pub proof fn new_devices_are_added(hub: HubView, device: DeviceKey)
    requires
        hub.last_token < u64::MAX,
        forall|i: int| 0 <= i < hub.live.len() ==> (#[trigger] hub.live[i]).device != device,
    ensures
        hub.registered(device).last_token == hub.last_token + 1,
        hub.registered(device).live == hub.live.push(
            Live { device, token: (hub.last_token + 1) as u64 },
        ),
        hub.notices(device).len() == 0,
        forall|token: u64| !(#[trigger] hub.current(device, token)),
        forall|token: u64| #[trigger] hub.removed(device, token) == hub,
{
    assert(!present(hub.live, of_device(device)));
}

/// A device with a connection has it replaced in its place, and the old one
/// alone is told. The connection is current under its own token and no other,
/// and is removed under that token and no other.
pub proof fn known_devices_are_replaced(hub: HubView, device: DeviceKey, i: int)
    requires
        hub.last_token < u64::MAX,
        0 <= i < hub.live.len(),
        hub.live[i].device == device,
        forall|j: int|
            0 <= j < hub.live.len() && j != i ==> (#[trigger] hub.live[j]).device != device,
    ensures
        hub.registered(device).last_token == hub.last_token + 1,
        hub.registered(device).live == hub.live.update(
            i,
            Live { device, token: (hub.last_token + 1) as u64 },
        ),
        hub.notices(device) == seq![
            OutgoingView {
                token: hub.live[i].token,
                frame: ServerFrameView::Error {
                    message: "connection_replaced: another connection opened for this device"@,
                },
            },
        ],
        forall|token: u64| #[trigger] hub.current(device, token) <==> token == hub.live[i].token,
        forall|token: u64| #[trigger]
            hub.removed(device, token) == if token == hub.live[i].token {
                HubView { live: hub.live.remove(i), last_token: hub.last_token }
            } else {
                hub
            },
{
    let p = of_device(device);
    assert(first_at(hub.live, p, i));
    lemma_first(hub.live, p, i);
    lemma_filter_one(hub.live, |live: Live| !p(live), i);
}

/// Filtering out the one item at `i` removes it.
proof fn lemma_filter_one<A>(s: Seq<A>, keep: spec_fn(A) -> bool, i: int)
    requires
        0 <= i < s.len(),
        !keep(s[i]),
        forall|j: int| 0 <= j < s.len() && j != i ==> keep(#[trigger] s[j]),
    ensures
        s.filter(keep) == s.remove(i),
    decreases s.len(),
{
    reveal(Seq::filter);
    let front = s.drop_last();
    if i == s.len() - 1 {
        lemma_filter_all(front, keep);
        assert(s.remove(i) =~= front);
    } else {
        assert forall|j: int| 0 <= j < front.len() && j != i implies keep(#[trigger] front[j]) by {
            assert(front[j] == s[j]);
        }
        lemma_filter_one(front, keep, i);
        assert(keep(s[s.len() - 1]));
        assert(s.remove(i) =~= front.remove(i).push(s.last()));
    }
}

/// Filtering by what every item satisfies keeps them all.
proof fn lemma_filter_all<A>(s: Seq<A>, keep: spec_fn(A) -> bool)
    requires
        forall|j: int| 0 <= j < s.len() ==> keep(#[trigger] s[j]),
    ensures
        s.filter(keep) == s,
    decreases s.len(),
{
    reveal(Seq::filter);
    if s.len() > 0 {
        let front = s.drop_last();
        assert forall|j: int| 0 <= j < front.len() implies keep(#[trigger] front[j]) by {
            assert(front[j] == s[j]);
        }
        lemma_filter_all(front, keep);
        assert(keep(s[s.len() - 1]));
        assert(s =~= front.push(s.last()));
    }
}

/// Connections, sessions and outgoing frames show each of their parts.
pub proof fn connections_show_their_parts(c: LiveConnection, s: Session, o: Outgoing)
    ensures
        c@.device.relay_id == c.relay_id@,
        c@.device.endpoint == c.endpoint,
        c@.device.device_id == c.device_id@,
        c@.token == c.token,
        s@.device.relay_id == s.relay_id@,
        s@.device.endpoint == s.endpoint,
        s@.device.device_id == s.device_id@,
        s@.token == s.token,
        o@.token == o.token,
        o@.frame == o.frame@,
{
}

/// Frames show each of their parts.
pub proof fn frames_show_their_parts(s: ServerFrame, c: ClientFrame)
    ensures
        match s {
            ServerFrame::Ready { endpoint } => s@ == (ServerFrameView::Ready { endpoint }),
            ServerFrame::Stored { message_id } => s@ == (ServerFrameView::Stored {
                message_id: message_id@,
            }),
            ServerFrame::Rejected { message_id, reason } => s@ == (ServerFrameView::Rejected {
                message_id: message_id@,
                reason: reason@,
            }),
            ServerFrame::Message { message_id, sequence, payload } => s@ == (
            ServerFrameView::Message { message_id: message_id@, sequence, payload: payload@ }),
            ServerFrame::Error { message } => s@ == (ServerFrameView::Error { message: message@ }),
        },
        match c {
            ClientFrame::Message { message_id, payload, target_device_id } => c@ == (
            ClientFrameView::Message {
                message_id: message_id@,
                payload: payload@,
                target_device_id: match target_device_id {
                    Some(target) => Some(target@),
                    None => None,
                },
            }),
            ClientFrame::Ack { sequence } => c@ == (ClientFrameView::Ack { sequence }),
        },
{
}

/// A connection is refused exactly if one of its two ids is empty or longer
/// than 256 bytes, the pairing id first.
pub proof fn connections_need_two_ids(id: Seq<char>, device_id: Seq<char>)
    ensures
        ({
            let fault = connection_fault(id, device_id);
            let id_fits = 0 < id.len() && encode_utf8(id).len() <= 256;
            &&& fault == Some(ConnectError::EmptyId) <==> id.len() == 0
            &&& fault == Some(ConnectError::IdTooLong) <==> id.len() > 0 && encode_utf8(id).len()
                > 256
            &&& fault == Some(ConnectError::EmptyDeviceId) <==> id_fits && device_id.len() == 0
            &&& fault == Some(ConnectError::DeviceIdTooLong) <==> id_fits && device_id.len() > 0
                && encode_utf8(device_id).len() > 256
            &&& fault is None <==> id_fits && 0 < device_id.len() && encode_utf8(device_id).len()
                <= 256
        }),
{
}

/// What a refused connection reads.
pub proof fn refused_connections_have_their_words(e: ConnectError, r: Refusal)
    ensures
        match e {
            ConnectError::EmptyId => e.words() == "id must not be empty"@,
            ConnectError::IdTooLong => e.words() == "id is too long"@,
            ConnectError::EmptyDeviceId => e.words() == "device_id must not be empty"@,
            ConnectError::DeviceIdTooLong => e.words() == "device_id is too long"@,
        },
        match r {
            Refusal::RegistrationFailed => r.words()
                == "relay_storage_unavailable: device registration failed"@,
            Refusal::AcknowledgeHeadFailed => r.words()
                == "relay_storage_unavailable: acknowledge head failed"@,
            Refusal::ReadFailed => r.words()
                == "relay_storage_unavailable: pending messages could not be read"@,
        },
{
}

/// A flag is on for `true`, `1` and `yes`, off for `false`, `0`, `no` and
/// nothing, whatever the case of its letters, and anything else is no flag.
pub proof fn flags_are_words(text: Seq<char>)
    ensures
        ({
            let on = lowered(text) == "true"@ || lowered(text) == "1"@ || lowered(text) == "yes"@;
            let off = lowered(text) == "false"@ || lowered(text) == "0"@ || lowered(text) == "no"@
                || text.len() == 0;
            &&& flag_value(text) == Some(true) <==> on
            &&& flag_value(text) == Some(false) <==> off
            &&& flag_value(text) is None <==> !on && !off
        }),
{
    reveal_strlit("true");
    reveal_strlit("1");
    reveal_strlit("yes");
    reveal_strlit("false");
    reveal_strlit("0");
    reveal_strlit("no");
    reveal_strlit("");
    assert(lowered(text).len() == text.len());
    assert(lowered(text) == ""@ <==> text.len() == 0) by {
        if text.len() == 0 {
            assert(lowered(text) =~= ""@);
        }
    }
    if lowered(text) == "1"@ {
        assert(lowered(text)[0] == '1');
    }
    if lowered(text) == "true"@ {
        assert(lowered(text).len() == 4);
    }
    if lowered(text) == "yes"@ {
        assert(lowered(text).len() == 3);
    }
    if lowered(text) == "0"@ {
        assert(lowered(text)[0] == '0');
    }
}

/// A connection is registered, skips its backlog if it asked to, has its
/// backlog read, and is attached; whatever fails on the way is what refuses it.
pub proof fn connections_are_taken_in_step_by_step(step: AdmissionStep, ack_head: bool)
    ensures
        match step {
            AdmissionStep::Register => {
                &&& step.successor(ack_head) == if ack_head {
                    AdmissionStep::AcknowledgeHead
                } else {
                    AdmissionStep::ReadPending
                }
                &&& step.refusal() == Some(Refusal::RegistrationFailed)
            },
            AdmissionStep::AcknowledgeHead => {
                &&& step.successor(ack_head) == AdmissionStep::ReadPending
                &&& step.refusal() == Some(Refusal::AcknowledgeHeadFailed)
            },
            AdmissionStep::ReadPending => {
                &&& step.successor(ack_head) == AdmissionStep::Attach
                &&& step.refusal() == Some(Refusal::ReadFailed)
            },
            AdmissionStep::Attach => {
                &&& step.successor(ack_head) == AdmissionStep::Attach
                &&& step.refusal() is None
            },
        },
{
}

/// A hub is well formed exactly if no two connections are of one device or have
/// one token, and no token is beyond the last that was given out.
pub proof fn well_formed_hubs_hold_devices_once(hub: HubView)
    ensures
        hub.well_formed() <==> {
            &&& forall|i: int, j: int|
                0 <= i < j < hub.live.len() ==> (#[trigger] hub.live[i]).device != (
                #[trigger] hub.live[j]).device && hub.live[i].token != hub.live[j].token
            &&& forall|i: int|
                0 <= i < hub.live.len() ==> (#[trigger] hub.live[i]).token <= hub.last_token
        },
{
    if hub.well_formed() {
        assert forall|i: int, j: int| 0 <= i < j < hub.live.len() implies (
        #[trigger] hub.live[i]).device != (#[trigger] hub.live[j]).device && hub.live[i].token
            != hub.live[j].token by {
            assert(!device_of()(hub.live[i])(hub.live[j]));
            assert(!token_of()(hub.live[i])(hub.live[j]));
        }
    }
}

} // verus!
