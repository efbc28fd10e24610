//! Where a client connects to, and what it makes of what it reads.

use crate::frame::{Endpoint, ServerFrame};
use crate::text::{contains, joined, occurs_at, occurs_in};
use vstd::prelude::*;

verus! {

/// Interval for client pings, in seconds. Well under the relay's idle timeout,
/// so that the relay never considers a connection half-open.
pub const PING_INTERVAL_SECS: u64 = 25;

/// The connect URL with pairing id, endpoint, and device id query parameters.
pub open spec fn endpoint_address(
    relay_url: Seq<char>,
    relay_id: Seq<char>,
    endpoint: Endpoint,
    device_id: Seq<char>,
) -> Seq<char> {
    relay_url + "?id="@ + relay_id + "&endpoint="@ + endpoint.name() + "&device_id="@ + device_id
}

/// Builds the connect URL with pairing id, endpoint, and device id query
/// parameters.
pub fn endpoint_url(
    relay_url: &str,
    relay_id: &str,
    endpoint: Endpoint,
    device_id: &str,
) -> (url: String)
    ensures
        url@ == endpoint_address(relay_url@, relay_id@, endpoint, device_id@),
{
    let mut url = joined(relay_url, "?id=");
    url.append(relay_id);
    url.append("&endpoint=");
    url.append(endpoint.as_str());
    url.append("&device_id=");
    url.append(device_id);
    url
}

/// The URL with the parameter that skips the backlog: the first parameter of a
/// URL without any, another one otherwise.
pub open spec fn ack_head_address(url: Seq<char>) -> Seq<char> {
    if url.contains('?') {
        url + "&ack_head=true"@
    } else {
        url + "?ack_head=true"@
    }
}

/// Appends the `ack_head=true` query parameter to a connect URL.
pub fn append_ack_head(url: &str) -> (r: String)
    ensures
        r@ == ack_head_address(url@),
{
    proof {
        reveal_strlit("?");
        assert("?"@ =~= seq!['?']);
        lemma_mark(url@);
    }
    if contains(url, "?") {
        joined(url, "&ack_head=true")
    } else {
        joined(url, "?ack_head=true")
    }
}

/// A text of one character occurs exactly where the character does.
proof fn lemma_mark(url: Seq<char>)
    requires
        "?"@ == seq!['?'],
    ensures
        occurs_in(url, "?"@) == url.contains('?'),
{
    if url.contains('?') {
        let i = url.index_of('?');
        assert(url.subrange(i, i + 1) =~= "?"@);
        assert(occurs_at(url, "?"@, i));
    }
    if occurs_in(url, "?"@) {
        let i = choose|i: int| occurs_at(url, "?"@, i);
        assert(url.subrange(i, i + 1)[0] == '?');
        assert(url[i] == '?');
    }
}

/// What a client read from its connection.
#[derive(Debug)]
pub enum Incoming {
    /// The stream ended.
    Ended,
    /// The read failed, with the reason.
    Failed(String),
    /// The relay closes the connection.
    Close,
    /// A text message that is a frame.
    Frame(ServerFrame),
    /// A text message that is no frame.
    Invalid,
    /// A message of another kind.
    Other,
}

/// What a client makes of it.
#[derive(Debug)]
pub enum Received {
    Frame(ServerFrame),
    /// The connection is closed without a fault.
    Closed,
    Failed(String),
    /// There is nothing to act on yet.
    Wait,
}

/// Sorts what was read: a frame is acted on, the end and a close are clean,
/// what is no frame and a failed read are faults, and the rest is passed over.
pub fn next_frame(incoming: Incoming) -> (r: Received)
    ensures
        match incoming {
            Incoming::Ended | Incoming::Close => r is Closed,
            Incoming::Failed(reason) => r == Received::Failed(reason),
            Incoming::Frame(frame) => r == Received::Frame(frame),
            Incoming::Invalid => r matches Received::Failed(reason) && reason@
                == "relay returned an invalid frame"@,
            Incoming::Other => r is Wait,
        },
{
    match incoming {
        Incoming::Ended | Incoming::Close => Received::Closed,
        Incoming::Failed(reason) => Received::Failed(reason),
        Incoming::Frame(frame) => Received::Frame(frame),
        Incoming::Invalid => Received::Failed("relay returned an invalid frame".to_owned()),
        Incoming::Other => Received::Wait,
    }
}

/// A connect URL that skips the backlog is the plain one with one parameter
/// more.
pub proof fn ack_head_extends_the_address(
    relay_url: Seq<char>,
    relay_id: Seq<char>,
    endpoint: Endpoint,
    device_id: Seq<char>,
)
    ensures
        ack_head_address(endpoint_address(relay_url, relay_id, endpoint, device_id))
            == endpoint_address(relay_url, relay_id, endpoint, device_id) + "&ack_head=true"@,
{
    reveal_strlit("?id=");
    let url = endpoint_address(relay_url, relay_id, endpoint, device_id);
    assert(url[relay_url.len() as int] == '?');
}

} // verus!
