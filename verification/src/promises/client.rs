//! What a client does with a frame, sends of its outbox, and makes of a
//! connection that ended.

use crate::client::{
    action_for, after_record, flushes_send_what_is_not_sent, frames_of, ids_of, other_than,
    relay_error, Action, ActionView, ClientView, ConnectionView, Verdict,
};
use crate::client::store::{
    is_new, leaves_gap, outbound_frame, with_id, Outbound, OutboundMessage, SequenceGap, StoreView,
};
use crate::client::transport::{ack_head_address, endpoint_address};
use crate::frame::{ClientFrameView, Endpoint, ServerFrameView};
use crate::table::lemma_filter_congruent;
use crate::text::{decimal_digits, occurs_at, occurs_in};
use vstd::prelude::*;

verus! {

/// A sequence at or below the last one that was received is a repetition: it is
/// neither new nor a gap, and the client acknowledges it again.
pub proof fn repeated_deliveries_are_tolerated(
    last: u64,
    message_id: Seq<char>,
    sequence: u64,
    payload: Seq<u8>,
)
    requires
        sequence <= last,
    ensures
        !leaves_gap(Some(last), sequence),
        !is_new(Some(last), sequence),
        action_for(Some(last), ServerFrameView::Message { message_id, sequence, payload }) == (
        ActionView::Acknowledge { sequence }),
{
}

/// The sequence after the last one, or any sequence where none was received
/// yet, is new, and the client hands its payload on.
pub proof fn next_deliveries_are_handed_on(
    last: Option<u64>,
    message_id: Seq<char>,
    sequence: u64,
    payload: Seq<u8>,
)
    requires
        last matches Some(last) ==> sequence == last + 1,
    ensures
        !leaves_gap(last, sequence),
        is_new(last, sequence),
        action_for(last, ServerFrameView::Message { message_id, sequence, payload }) == (
        ActionView::Deliver { sequence, payload }),
{
}

/// A sequence beyond the next one leaves a gap: it is not new, and the client
/// fails with the two sequences.
pub proof fn gaps_end_the_connection(
    last: u64,
    message_id: Seq<char>,
    sequence: u64,
    payload: Seq<u8>,
)
    requires
        sequence > last + 1,
    ensures
        leaves_gap(Some(last), sequence),
        !is_new(Some(last), sequence),
        action_for(Some(last), ServerFrameView::Message { message_id, sequence, payload }) == (
        ActionView::Fail {
            error: "relay message sequence gap: expected "@ + decimal_digits((last + 1) as nat)
                + ", received "@ + decimal_digits(sequence as nat),
        }),
{
}

/// What the client makes of every other frame.
pub proof fn other_frames_have_one_action(
    last: Option<u64>,
    endpoint: Endpoint,
    message_id: Seq<char>,
    reason: Seq<char>,
)
    ensures
        action_for(last, ServerFrameView::Ready { endpoint }) == ActionView::Start,
        action_for(last, ServerFrameView::Stored { message_id }) == (ActionView::Confirmed {
            message_id,
        }),
        action_for(last, ServerFrameView::Rejected { message_id, reason }) == (
        ActionView::Rejected { message_id, reason }),
        action_for(last, ServerFrameView::Error { message: reason }) == (ActionView::Fail {
            error: relay_error(reason),
        }),
{
}

/// A sequence that is recorded is acknowledged, and one that could not be
/// recorded ends the connection with the reason.
pub proof fn records_are_acknowledged(sequence: u64, error: Seq<char>)
    ensures
        after_record(sequence, None) == (ActionView::Acknowledge { sequence }),
        after_record(sequence, Some(error)) == (ActionView::Fail { error }),
{
}

/// The text of a gap names the sequence that was due and the one that came.
pub proof fn gaps_name_both_sequences(gap: SequenceGap)
    ensures
        gap.words() == "relay message sequence gap: expected "@ + decimal_digits(
            gap.expected as nat,
        ) + ", received "@ + decimal_digits(gap.received as nat),
{
}

/// The error of a replaced connection says so first, any other error says that
/// the relay refused a frame, and both keep the relay's words.
pub proof fn errors_keep_the_words_of_the_relay(message: Seq<char>)
    ensures
        message.len() >= 20 && message.subrange(0, 20) == "connection_replaced:"@ ==> relay_error(
            message,
        ) == "connection_replaced: "@ + message,
        message.len() < 20 || message.subrange(0, 20) != "connection_replaced:"@ ==> relay_error(
            message,
        ) == "relay rejected a frame: "@ + message,
{
    reveal_strlit("connection_replaced:");
}

/// Actions show each of their parts.
pub proof fn actions_show_their_parts(action: Action)
    ensures
        match action {
            Action::Start => action@ == ActionView::Start,
            Action::Confirmed { message_id } => action@ == (ActionView::Confirmed {
                message_id: message_id@,
            }),
            Action::Rejected { message_id, reason } => action@ == (ActionView::Rejected {
                message_id: message_id@,
                reason: reason@,
            }),
            Action::Deliver { sequence, payload } => action@ == (ActionView::Deliver {
                sequence,
                payload: payload@,
            }),
            Action::Record { sequence } => action@ == (ActionView::Record { sequence }),
            Action::Acknowledge { sequence } => action@ == (ActionView::Acknowledge { sequence }),
            Action::Fail { error } => action@ == (ActionView::Fail { error: error@ }),
        },
{
}

/// An outbound message shows each of its parts, and its frame carries them.
pub proof fn outbound_messages_keep_their_parts(m: OutboundMessage)
    ensures
        m@.message_id == m.message_id@,
        m@.payload == m.payload@,
        match m.target_device_id {
            Some(target) => m@.target_device_id == Some(target@),
            None => m@.target_device_id is None,
        },
        outbound_frame(m@) == (ClientFrameView::Message {
            message_id: m@.message_id,
            payload: m@.payload,
            target_device_id: m@.target_device_id,
        }),
{
}

/// What a flush sends is built message by message: the last message of the
/// outbox is sent exactly if its id was not sent on this connection and no
/// earlier message of the outbox has it.
pub proof fn flushes_send_each_id_once(
    connection: ConnectionView,
    outbox: Seq<Outbound>,
    last: Outbound,
)
    ensures
        connection.due(Seq::empty()).len() == 0,
        connection.due(outbox.push(last)) == if connection.sent.contains(last.message_id)
            || exists|i: int|
            0 <= i < outbox.len() && (#[trigger] outbox[i]).message_id == last.message_id {
            connection.due(outbox)
        } else {
            connection.due(outbox).push(last)
        },
{
    let id = last.message_id;
    assert(outbox.push(last).drop_last() =~= outbox);
    flushes_send_what_is_not_sent(connection.sent, outbox, id);
    let ids = ids_of(outbox);
    assert(ids.contains(id) <==> exists|i: int|
        0 <= i < outbox.len() && (#[trigger] outbox[i]).message_id == id) by {
        if ids.contains(id) {
            let i = ids.index_of(id);
            assert(outbox[i].message_id == id);
        }
        if exists|i: int| 0 <= i < outbox.len() && (#[trigger] outbox[i]).message_id == id {
            let i = choose|i: int|
                0 <= i < outbox.len() && (#[trigger] outbox[i]).message_id == id;
            assert(ids[i] == id);
        }
    }
}

/// A flush sends one frame for each message that is due, in order, and keeps
/// their ids with those already sent.
pub proof fn flushes_send_and_remember(connection: ConnectionView, outbox: Seq<Outbound>)
    ensures
        ({
            let due = connection.due(outbox);
            let after = connection.flushed(outbox);
            &&& frames_of(due).len() == due.len()
            &&& forall|i: int|
                0 <= i < due.len() ==> #[trigger] frames_of(due)[i] == (ClientFrameView::Message {
                    message_id: due[i].message_id,
                    payload: due[i].payload,
                    target_device_id: due[i].target_device_id,
                })
            &&& after.ready == connection.ready
            &&& after.sent.len() == connection.sent.len() + due.len()
            &&& forall|i: int|
                0 <= i < connection.sent.len() ==> #[trigger] after.sent[i] == connection.sent[i]
            &&& forall|i: int|
                0 <= i < due.len() ==> after.sent[connection.sent.len() + i] == (
                #[trigger] due[i]).message_id
        }),
{
    let due = connection.due(outbox);
    let frames = frames_of(due);
    let ids = ids_of(due);
    assert forall|i: int| 0 <= i < due.len() implies #[trigger] frames_of(due)[i] == (
    ClientFrameView::Message {
        message_id: due[i].message_id,
        payload: due[i].payload,
        target_device_id: due[i].target_device_id,
    }) by {
        assert(frames[i] == outbound_frame(due[i]));
    }
    assert forall|i: int| 0 <= i < due.len() implies connection.flushed(
        outbox,
    ).sent[connection.sent.len() + i] == (#[trigger] due[i]).message_id by {
        assert(ids[i] == due[i].message_id);
    }
}

/// A frame changes a connection in one way: `ready` starts it, and an answer to
/// a message makes its id forgotten, so that it can be sent again.
pub proof fn connections_change_with_their_frames(
    connection: ConnectionView,
    endpoint: Endpoint,
    message_id: Seq<char>,
    text: Seq<char>,
    sequence: u64,
    payload: Seq<u8>,
)
    ensures
        connection.after(ServerFrameView::Ready { endpoint }) == (ConnectionView {
            ready: true,
            sent: connection.sent,
        }),
        connection.after(ServerFrameView::Stored { message_id }) == (ConnectionView {
            ready: connection.ready,
            sent: connection.sent.filter(|id: Seq<char>| id != message_id),
        }),
        connection.after(ServerFrameView::Rejected { message_id, reason: text }) == (
        ConnectionView {
            ready: connection.ready,
            sent: connection.sent.filter(|id: Seq<char>| id != message_id),
        }),
        connection.after(ServerFrameView::Message { message_id, sequence, payload }) == connection,
        connection.after(ServerFrameView::Error { message: text }) == connection,
{
    assert(connection.after(ServerFrameView::Stored { message_id }) == connection.forgetting(
        message_id,
    ));
    assert(connection.after(ServerFrameView::Rejected { message_id, reason: text })
        == connection.forgetting(message_id));
    lemma_filter_congruent(
        connection.sent,
        other_than(message_id),
        |id: Seq<char>| id != message_id,
    );
}

/// A client stops for good where the reason names a replaced connection, stops
/// where it was closed, and otherwise connects again: after one second if it
/// had been connected, else after its current delay. The delay then doubles,
/// up to thirty seconds, and nothing else changes.
pub proof fn ended_connections_are_retried(
    client: ClientView,
    error: Option<Seq<char>>,
    was_connected: bool,
)
    requires
        1 <= client.delay_secs <= 30,
    ensures
        ({
            let replaced = error matches Some(text) && exists|i: int|
                0 <= i && i + 19 <= text.len() && #[trigger] text.subrange(i, i + 19)
                    == "connection_replaced"@;
            let delay: u64 = if was_connected {
                1
            } else {
                client.delay_secs
            };
            &&& replaced ==> client.verdict(error, was_connected) is Preempted && client.after(
                error,
                was_connected,
            ) == client
            &&& !replaced && client.closed ==> client.verdict(error, was_connected) is Closed
                && client.after(error, was_connected) == client
            &&& !replaced && !client.closed ==> client.verdict(error, was_connected) == (
            Verdict::Reconnect { delay_secs: delay })
            &&& !replaced && !client.closed ==> client.after(error, was_connected) == (ClientView {
                delay_secs: if delay <= 15 {
                    (delay * 2) as u64
                } else {
                    30
                },
                ..client
            })
        }),
{
    reveal_strlit("connection_replaced");
    if let Some(text) = error {
        let part = "connection_replaced"@;
        if occurs_in(text, part) {
            let i = choose|i: int| occurs_at(text, part, i);
            assert(text.subrange(i, i + 19) == part);
        }
        if exists|i: int|
            0 <= i && i + 19 <= text.len() && #[trigger] text.subrange(i, i + 19) == part {
            let i = choose|i: int|
                0 <= i && i + 19 <= text.len() && #[trigger] text.subrange(i, i + 19) == part;
            assert(occurs_at(text, part, i));
        }
    }
}

/// A queued message comes last in the outbox, and a removed one goes with
/// everything that has its id; the rest and the cursor stay.
pub proof fn outboxes_change_by_one_id(store: StoreView, message: Outbound, id: Seq<char>)
    ensures
        store.enqueued(message).outbox == store.outbox.push(message),
        store.enqueued(message).last_received == store.last_received,
        store.removed(id).outbox == store.outbox.filter(|m: Outbound| m.message_id != id),
        store.removed(id).last_received == store.last_received,
{
    let p = with_id(id);
    lemma_filter_congruent(
        store.outbox,
        |m: Outbound| !p(m),
        |m: Outbound| m.message_id != id,
    );
}

/// The address of an endpoint is the relay's with the two ids and the
/// endpoint's name as its query.
pub proof fn addresses_name_the_device(
    url: Seq<char>,
    relay_id: Seq<char>,
    device_id: Seq<char>,
)
    ensures
        endpoint_address(url, relay_id, Endpoint::One, device_id) == url + "?id="@ + relay_id
            + "&endpoint=1&device_id="@ + device_id,
        endpoint_address(url, relay_id, Endpoint::Two, device_id) == url + "?id="@ + relay_id
            + "&endpoint=2&device_id="@ + device_id,
{
    reveal_strlit("&endpoint=1&device_id=");
    reveal_strlit("&endpoint=2&device_id=");
    reveal_strlit("&endpoint=");
    reveal_strlit("&device_id=");
    assert("&endpoint=1&device_id="@ =~= "&endpoint="@ + seq!['1'] + "&device_id="@);
    assert("&endpoint=2&device_id="@ =~= "&endpoint="@ + seq!['2'] + "&device_id="@);
    assert(endpoint_address(url, relay_id, Endpoint::One, device_id) =~= url + "?id="@ + relay_id
        + "&endpoint=1&device_id="@ + device_id);
    assert(endpoint_address(url, relay_id, Endpoint::Two, device_id) =~= url + "?id="@ + relay_id
        + "&endpoint=2&device_id="@ + device_id);
}

/// The wish to skip the backlog is added to an address as one more parameter,
/// or as the first where it has none.
pub proof fn addresses_can_skip_the_backlog(url: Seq<char>)
    ensures
        (exists|i: int| 0 <= i < url.len() && #[trigger] url[i] == '?') ==> ack_head_address(url)
            == url + "&ack_head=true"@,
        (forall|i: int| 0 <= i < url.len() ==> #[trigger] url[i] != '?') ==> ack_head_address(url)
            == url + "?ack_head=true"@,
{
    if exists|i: int| 0 <= i < url.len() && #[trigger] url[i] == '?' {
        let i = choose|i: int| 0 <= i < url.len() && #[trigger] url[i] == '?';
        assert(url.contains(url[i]));
    }
}

/// A client is well formed exactly if its delay is between one second and
/// thirty.
pub proof fn delays_are_between_one_and_thirty(client: ClientView)
    ensures
        client.well_formed() <==> 1 <= client.delay_secs <= 30,
{
}

} // verus!
