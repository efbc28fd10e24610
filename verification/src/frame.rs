//! The frames that clients and the relay exchange.

use crate::payload::Payload;
use vstd::prelude::*;

verus! {

/// One of the two deliberately distinct endpoints of a relay channel.
#[derive(Clone, Copy, Debug, Eq, Hash, PartialEq, Structural)]
pub enum Endpoint {
    One,
    Two,
}

impl Endpoint {
    /// The endpoint at the other end of the channel.
    pub open spec fn other(self) -> Endpoint {
        match self {
            Endpoint::One => Endpoint::Two,
            Endpoint::Two => Endpoint::One,
        }
    }

    /// The wire name of the endpoint: `1` or `2`.
    pub open spec fn name(self) -> Seq<char> {
        match self {
            Endpoint::One => seq!['1'],
            Endpoint::Two => seq!['2'],
        }
    }

    /// The endpoint that receives what this one sends.
    pub fn opposite(self) -> (r: Endpoint)
        ensures
            r == self.other(),
    {
        match self {
            Endpoint::One => Endpoint::Two,
            Endpoint::Two => Endpoint::One,
        }
    }

    /// The wire name, as it stands in frames, URLs and stored rows.
    pub fn as_str(self) -> (s: &'static str)
        ensures
            s@ == self.name(),
    {
        proof {
            reveal_strlit("1");
            reveal_strlit("2");
            assert("1"@ =~= seq!['1']);
            assert("2"@ =~= seq!['2']);
        }
        match self {
            Endpoint::One => "1",
            Endpoint::Two => "2",
        }
    }
}

/// What the opposite endpoint sends comes back to its sender's opposite:
/// the two endpoints are each other's destination, and neither is its own.
pub proof fn endpoints_are_paired(e: Endpoint)
    ensures
        e.other() != e,
        e.other().other() == e,
        e.other().name() != e.name(),
{
    assert(e.other().name()[0] != e.name()[0]);
}

/// The wire name tells the endpoint.
pub proof fn lemma_names(a: Endpoint, b: Endpoint)
    ensures
        a.name() == b.name() <==> a == b,
{
    assert(a.name()[0] == b.name()[0] ==> a == b);
}

/// The text of an optional string.
pub open spec fn text_of(s: Option<String>) -> Option<Seq<char>> {
    match s {
        Some(t) => Some(t@),
        None => None,
    }
}

/// Frames accepted from either endpoint. Payloads are opaque to the relay,
/// allowing callers to carry any JSON-based protocol.
#[derive(Debug, PartialEq)]
pub enum ClientFrame {
    /// A message for the opposite endpoint, or for one device on it.
    Message { message_id: String, payload: Payload, target_device_id: Option<String> },
    /// Cumulative acknowledgement for all received sequences up to this one.
    Ack { sequence: u64 },
}

/// The value of a client frame.
pub enum ClientFrameView {
    Message { message_id: Seq<char>, payload: Seq<u8>, target_device_id: Option<Seq<char>> },
    Ack { sequence: u64 },
}

impl View for ClientFrame {
    type V = ClientFrameView;

    open spec fn view(&self) -> ClientFrameView {
        match self {
            ClientFrame::Message { message_id, payload, target_device_id } => ClientFrameView::Message {
                message_id: message_id@,
                payload: payload@,
                target_device_id: text_of(*target_device_id),
            },
            ClientFrame::Ack { sequence } => ClientFrameView::Ack { sequence: *sequence },
        }
    }
}

/// Frames emitted by the relay server.
#[derive(Debug, PartialEq)]
pub enum ServerFrame {
    /// The connection is admitted.
    Ready { endpoint: Endpoint },
    /// The server durably stored an outbound message. The sender may now remove
    /// it from its local outbox; resending the id remains idempotent.
    Stored { message_id: String },
    /// The server rejected an outbound message for good. The sender removes it
    /// from its outbox to avoid retrying a permanent failure.
    Rejected { message_id: String, reason: String },
    /// A message from the opposite endpoint.
    Message { message_id: String, sequence: u64, payload: Payload },
    /// The connection, or a frame on it, was refused.
    Error { message: String },
}

/// The value of a server frame.
pub enum ServerFrameView {
    Ready { endpoint: Endpoint },
    Stored { message_id: Seq<char> },
    Rejected { message_id: Seq<char>, reason: Seq<char> },
    Message { message_id: Seq<char>, sequence: u64, payload: Seq<u8> },
    Error { message: Seq<char> },
}

impl View for ServerFrame {
    type V = ServerFrameView;

    open spec fn view(&self) -> ServerFrameView {
        match self {
            ServerFrame::Ready { endpoint } => ServerFrameView::Ready { endpoint: *endpoint },
            ServerFrame::Stored { message_id } => ServerFrameView::Stored { message_id: message_id@ },
            ServerFrame::Rejected { message_id, reason } => ServerFrameView::Rejected {
                message_id: message_id@,
                reason: reason@,
            },
            ServerFrame::Message { message_id, sequence, payload } => ServerFrameView::Message {
                message_id: message_id@,
                sequence: *sequence,
                payload: payload@,
            },
            ServerFrame::Error { message } => ServerFrameView::Error { message: message@ },
        }
    }
}

impl Clone for ServerFrame {
    fn clone(&self) -> (r: ServerFrame)
        ensures
            r@ == self@,
    {
        match self {
            ServerFrame::Ready { endpoint } => ServerFrame::Ready { endpoint: *endpoint },
            ServerFrame::Stored { message_id } => ServerFrame::Stored { message_id: message_id.clone() },
            ServerFrame::Rejected { message_id, reason } => ServerFrame::Rejected {
                message_id: message_id.clone(),
                reason: reason.clone(),
            },
            ServerFrame::Message { message_id, sequence, payload } => ServerFrame::Message {
                message_id: message_id.clone(),
                sequence: *sequence,
                payload: payload.clone(),
            },
            ServerFrame::Error { message } => ServerFrame::Error { message: message.clone() },
        }
    }
}

/// A copy of an optional string.
pub fn copy_text(s: &Option<String>) -> (r: Option<String>)
    ensures
        text_of(r) == text_of(*s),
{
    match s {
        Some(t) => Some(t.clone()),
        None => None,
    }
}

} // verus!
