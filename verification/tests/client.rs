//! The client's outbox, its cursor, and its connections.

use relay::client::store::{is_new_sequence, MemoryStore, OutboundMessage, SequenceGap};
use relay::client::transport::{append_ack_head, endpoint_url, next_frame, Incoming, Received};
use relay::client::{Action, Client, Connection, Verdict};
use relay::frame::{ClientFrame, Endpoint, ServerFrame};
use relay::ids::check_id;
use relay::payload::Payload;

fn json(text: &str) -> Payload {
    Payload::parse(text.as_bytes()).unwrap()
}

#[test]
fn adopts_first_sequence_then_requires_contiguity() {
    assert!(is_new_sequence(None, 42).unwrap());
    assert!(is_new_sequence(Some(42), 43).unwrap());
    assert!(!is_new_sequence(Some(42), 42).unwrap());
    assert!(is_new_sequence(Some(42), 44).is_err());
}

#[test]
fn endpoint_url_appends_query() {
    assert_eq!(
        endpoint_url("ws://127.0.0.1:39371/ws", "abc", Endpoint::One, "phone-1"),
        "ws://127.0.0.1:39371/ws?id=abc&endpoint=1&device_id=phone-1"
    );
}

#[test]
fn gaps_are_worded() {
    let gap = is_new_sequence(Some(42), 105).unwrap_err();
    assert_eq!(
        gap,
        SequenceGap {
            expected: 43,
            received: 105
        }
    );
    assert_eq!(
        gap.message(),
        "relay message sequence gap: expected 43, received 105"
    );
    assert!(!is_new_sequence(Some(u64::MAX), u64::MAX).unwrap());
}

#[test]
fn ack_head_is_one_parameter_more() {
    assert_eq!(
        append_ack_head("ws://relay/ws?id=a"),
        "ws://relay/ws?id=a&ack_head=true"
    );
    assert_eq!(append_ack_head("ws://relay/ws"), "ws://relay/ws?ack_head=true");
}

#[test]
fn the_outbox_keeps_messages_until_they_are_answered() {
    let mut store = MemoryStore::new();
    let a = store.enqueue(json("{\"n\": 1}"), None);
    let b = store.enqueue(json("2"), Some("phone_a".to_string()));
    assert_ne!(a, b);
    assert_eq!(a.len(), 36);
    assert!(check_id(&a).is_ok());
    assert_eq!(a.as_bytes()[14], b'4');
    assert_eq!(a.as_bytes()[8], b'-');
    let outbox = store.outbox();
    assert_eq!(outbox.len(), 2);
    assert_eq!(outbox[0].message_id, a);
    assert_eq!(outbox[0].payload.as_bytes(), b"{\"n\":1}");
    assert_eq!(outbox[1].target_device_id.as_deref(), Some("phone_a"));

    store.remove_from_outbox(&a);
    // `stored` can arrive twice.
    store.remove_from_outbox(&a);
    store.remove_from_outbox("unknown");
    let outbox = store.outbox();
    assert_eq!(outbox.len(), 1);
    assert_eq!(outbox[0].message_id, b);
}

#[test]
fn the_receive_cursor_does_not_move_back() {
    let mut store = MemoryStore::new();
    assert_eq!(store.last_received(), None);
    store.mark_received(5).unwrap();
    assert_eq!(store.last_received(), Some(5));
    let error = store.mark_received(5).unwrap_err();
    assert_eq!(error.message(), "receive cursor moved backwards");
    assert!(store.mark_received(4).is_err());
    store.mark_received(6).unwrap();
    assert_eq!(store.last_received(), Some(6));
}

fn ready() -> ServerFrame {
    ServerFrame::Ready {
        endpoint: Endpoint::One,
    }
}

#[test]
fn the_outbox_is_sent_once_the_relay_is_ready_and_no_message_twice() {
    let mut store = MemoryStore::new();
    store.enqueue_as("a".to_string(), json("1"), None);
    store.enqueue_as("b".to_string(), json("2"), Some("phone".to_string()));
    store.enqueue_as("a".to_string(), json("1"), None);

    let mut connection = Connection::new();
    assert!(connection.on_notify(store.outbox()).is_empty());
    assert!(!connection.is_ready());
    assert!(matches!(connection.on_frame(ready(), None), Action::Start));
    assert!(connection.is_ready());
    assert_eq!(
        connection.flush_outbox(store.outbox()),
        vec![
            ClientFrame::Message {
                message_id: "a".to_string(),
                payload: json("1"),
                target_device_id: None,
            },
            ClientFrame::Message {
                message_id: "b".to_string(),
                payload: json("2"),
                target_device_id: Some("phone".to_string()),
            },
        ]
    );
    assert!(connection.flush_outbox(store.outbox()).is_empty());
    assert!(connection.on_notify(store.outbox()).is_empty());

    // An answered message may be sent again.
    let stored = ServerFrame::Stored {
        message_id: "a".to_string(),
    };
    assert!(
        matches!(connection.on_frame(stored, None), Action::Confirmed { message_id } if message_id == "a")
    );
    assert_eq!(connection.flush_outbox(store.outbox()).len(), 1);

    // A new connection sends everything again.
    let mut connection = Connection::new();
    connection.on_frame(ready(), None);
    assert_eq!(connection.on_notify(store.outbox()).len(), 2);
    let mut connection = Connection::new();
    assert_eq!(connection.flush_outbox(store.outbox()).len(), 2);
}

fn delivery(sequence: u64) -> ServerFrame {
    ServerFrame::Message {
        message_id: "m".to_string(),
        sequence,
        payload: json("7"),
    }
}

#[test]
fn new_deliveries_are_handed_on_and_old_ones_acknowledged() {
    let mut connection = Connection::new();
    assert!(matches!(
        connection.on_frame(delivery(3), None),
        Action::Deliver { sequence: 3, .. }
    ));
    assert!(matches!(
        connection.on_frame(delivery(3), Some(3)),
        Action::Acknowledge { sequence: 3 }
    ));
    assert!(
        matches!(connection.on_frame(delivery(4), Some(3)), Action::Deliver { sequence: 4, payload } if payload.as_bytes() == b"7")
    );
    assert!(
        matches!(connection.on_frame(delivery(9), Some(4)), Action::Fail { error } if error == "relay message sequence gap: expected 5, received 9")
    );
}

#[test]
fn deliveries_are_recorded_before_they_are_acknowledged() {
    let mut connection = Connection::new();
    assert!(matches!(
        connection.on_frame(delivery(3), Some(2)),
        Action::Deliver { sequence: 3, .. }
    ));
    assert!(matches!(
        connection.on_delivered(3),
        Action::Record { sequence: 3 }
    ));
    assert!(matches!(
        connection.on_recorded(3, None),
        Action::Acknowledge { sequence: 3 }
    ));
    // Nothing is acknowledged where recording failed.
    assert!(
        matches!(connection.on_recorded(3, Some("disk full".to_string())), Action::Fail { error } if error == "disk full")
    );
}

#[test]
fn refusals_reach_the_application_and_errors_end_the_connection() {
    let mut connection = Connection::new();
    let refused = ServerFrame::Rejected {
        message_id: "a".to_string(),
        reason: "queue_full: pending message count limit reached".to_string(),
    };
    assert!(
        matches!(connection.on_frame(refused, None), Action::Rejected { message_id, reason } if message_id == "a" && reason.starts_with("queue_full"))
    );
    let error = ServerFrame::Error {
        message: "invalid frame: x".to_string(),
    };
    assert!(
        matches!(connection.on_frame(error, None), Action::Fail { error } if error == "relay rejected a frame: invalid frame: x")
    );
    let error = ServerFrame::Error {
        message: "connection_replaced: gone".to_string(),
    };
    assert!(
        matches!(connection.on_frame(error, None), Action::Fail { error } if error == "connection_replaced: connection_replaced: gone")
    );
}

#[test]
fn delays_double_up_to_the_ceiling_and_start_over() {
    let mut client = Client::new("ws://relay/ws".to_string());
    let mut delays = Vec::new();
    for _ in 0..7 {
        match client.ended(Some("refused"), false) {
            Verdict::Reconnect { delay_secs } => delays.push(delay_secs),
            other => panic!("unexpected verdict {other:?}"),
        }
    }
    assert_eq!(delays, vec![1, 2, 4, 8, 16, 30, 30]);
    assert_eq!(
        client.ended(None, true),
        Verdict::Reconnect { delay_secs: 1 }
    );
    assert_eq!(
        client.ended(None, false),
        Verdict::Reconnect { delay_secs: 2 }
    );
}

#[test]
fn clients_stop_when_closed_or_preempted() {
    let mut client = Client::new("ws://relay/ws".to_string());
    assert!(!client.is_closed());
    assert_eq!(
        client.ended(Some("connection_replaced: x"), true),
        Verdict::Preempted
    );
    client.close();
    assert!(client.is_closed());
    assert_eq!(client.ended(None, true), Verdict::Closed);
    assert_eq!(
        client.ended(Some("a connection_replaced b"), false),
        Verdict::Preempted
    );
}

#[test]
fn client_close_exits_run_loop() {
    let mut client = Client::new("ws://127.0.0.1:9".to_string());
    assert_eq!(
        client.ended(Some("failed to connect"), false),
        Verdict::Reconnect { delay_secs: 1 }
    );
    client.close();
    assert!(client.is_closed());
    assert_eq!(
        client.ended(Some("failed to connect"), false),
        Verdict::Closed
    );
}

#[test]
fn the_backlog_is_skipped_on_the_first_connection_only() {
    let mut client = Client::new_with_ack_head("ws://relay/ws?id=a".to_string(), true);
    assert_eq!(client.connect_url(), "ws://relay/ws?id=a&ack_head=true");
    client.opened();
    assert_eq!(client.connect_url(), "ws://relay/ws?id=a");
    let client = Client::new("ws://relay/ws?id=a".to_string());
    assert_eq!(client.connect_url(), "ws://relay/ws?id=a");
}

#[test]
fn what_is_read_is_sorted() {
    assert!(matches!(next_frame(Incoming::Ended), Received::Closed));
    assert!(matches!(next_frame(Incoming::Close), Received::Closed));
    assert!(matches!(next_frame(Incoming::Other), Received::Wait));
    assert!(matches!(next_frame(Incoming::Frame(ready())), Received::Frame(frame) if frame == ready()));
    assert!(
        matches!(next_frame(Incoming::Invalid), Received::Failed(reason) if reason == "relay returned an invalid frame")
    );
    assert!(
        matches!(next_frame(Incoming::Failed("reset".to_string())), Received::Failed(reason) if reason == "reset")
    );
}

#[test]
fn outbound_messages_become_frames() {
    let message = OutboundMessage {
        message_id: "m".to_string(),
        payload: json("[1]"),
        target_device_id: None,
    };
    assert_eq!(
        message.clone().into_frame(),
        ClientFrame::Message {
            message_id: "m".to_string(),
            payload: json("[1]"),
            target_device_id: None,
        }
    );
    assert_eq!(message.payload.len(), 3);
}
