//! Connections as the relay serves them, from admission to delivery.

use std::collections::HashMap;

use relay::client::store::MemoryStore;
use relay::client::{Action, Client, Connection, Verdict};
use relay::config::Limits;
use relay::database::{CleanupStats, Database};
use relay::frame::{ClientFrame, Endpoint, ServerFrame};
use relay::hub::{Hub, Outgoing};
use relay::payload::Payload;
use relay::server::{
    attach, parse_flag, react, report_cleanup, serve_frame, validate_connection, AdmissionStep,
    ConnectError, ConnectQuery, Inbound, Reaction, Refusal, Session,
};

const NOW: i64 = 1_700_000_000;

fn json(text: &str) -> Payload {
    Payload::parse(text.as_bytes()).unwrap()
}

fn query(id: &str, endpoint: Endpoint, device_id: &str) -> ConnectQuery {
    ConnectQuery {
        id: id.to_string(),
        endpoint,
        device_id: device_id.to_string(),
        ack_head: false,
    }
}

/// A relay with the mailboxes of its connections.
struct Relay {
    database: Database,
    hub: Hub,
    mail: HashMap<u64, Vec<ServerFrame>>,
}

impl Relay {
    fn new() -> Relay {
        Relay {
            database: Database::open(
                Limits::default(),
                Vec::new(),
                Vec::new(),
                Vec::new(),
                Vec::new(),
            ),
            hub: Hub::new(),
            mail: HashMap::new(),
        }
    }

    fn post(&mut self, out: Vec<Outgoing>) {
        for o in out {
            self.mail.entry(o.token).or_default().push(o.frame);
        }
    }

    /// The frames that arrived on a connection since the last look.
    fn read(&mut self, session: &Session) -> Vec<ServerFrame> {
        self.mail.remove(&session.token).unwrap_or_default()
    }

    fn welcome(&mut self, query: ConnectQuery) -> Session {
        let mut step = AdmissionStep::Register;
        loop {
            match step {
                AdmissionStep::Register => {
                    self.database
                        .register_device(&query.id, query.endpoint, &query.device_id, NOW);
                }
                AdmissionStep::AcknowledgeHead => {
                    self.database
                        .acknowledge_head(&query.id, query.endpoint, &query.device_id, NOW);
                }
                AdmissionStep::ReadPending => {}
                AdmissionStep::Attach => break,
            }
            step = step.after(true, query.ack_head).unwrap();
        }
        let (session, out) = attach(&self.database, &mut self.hub, query).unwrap();
        self.post(out);
        session
    }

    fn connect(&mut self, id: &str, endpoint: Endpoint, device_id: &str) -> Session {
        let session = self.welcome(query(id, endpoint, device_id));
        assert_eq!(
            self.mail.get_mut(&session.token).unwrap().remove(0),
            ServerFrame::Ready { endpoint }
        );
        session
    }

    fn disconnect(&mut self, session: &Session) {
        self.hub.remove(
            &session.relay_id,
            session.endpoint,
            &session.device_id,
            session.token,
        );
    }

    fn send(&mut self, session: &Session, frame: ClientFrame) {
        let out = serve_frame(&mut self.database, &self.hub, session, frame, NOW);
        self.post(out);
    }

    fn message(&mut self, session: &Session, id: &str, payload: &str, target: Option<&str>) {
        self.send(
            session,
            ClientFrame::Message {
                message_id: id.to_string(),
                payload: json(payload),
                target_device_id: target.map(str::to_string),
            },
        );
    }
}

fn stored(id: &str) -> ServerFrame {
    ServerFrame::Stored {
        message_id: id.to_string(),
    }
}

fn message(id: &str, sequence: u64, payload: &str) -> ServerFrame {
    ServerFrame::Message {
        message_id: id.to_string(),
        sequence,
        payload: json(payload),
    }
}

#[test]
fn multi_device_broadcast_and_switching_without_gaps() {
    let mut relay = Relay::new();

    // 1. Phone A and Phone B connect to Endpoint 2 simultaneously
    let phone_a = relay.connect("pair-multi", Endpoint::Two, "phone_a");
    let phone_b = relay.connect("pair-multi", Endpoint::Two, "phone_b");

    // 2. Desktop connects to Endpoint 1
    let desktop = relay.connect("pair-multi", Endpoint::One, "desktop");

    // 3. Desktop sends a message -> destined for Endpoint 2
    let content = r#"{ "content": "broadcast_to_both" }"#;
    relay.message(&desktop, "m-1", content, None);
    assert_eq!(relay.read(&desktop), vec![stored("m-1")]);

    // Both Phone A and Phone B receive the message in real-time
    assert_eq!(relay.read(&phone_a), vec![message("m-1", 1, content)]);
    assert_eq!(relay.read(&phone_b), vec![message("m-1", 1, content)]);

    // Phone A and Phone B both ack sequence 1
    relay.send(&phone_a, ClientFrame::Ack { sequence: 1 });
    relay.send(&phone_b, ClientFrame::Ack { sequence: 1 });

    // 4. Phone B goes offline
    relay.disconnect(&phone_b);

    // 5. Desktop sends message 2 while Phone B is offline
    let content = r#"{ "content": "offline_for_b" }"#;
    relay.message(&desktop, "m-2", content, None);
    assert_eq!(relay.read(&desktop), vec![stored("m-2")]);

    // Phone A is online and receives message 2 immediately
    assert_eq!(relay.read(&phone_a), vec![message("m-2", 2, content)]);
    relay.send(&phone_a, ClientFrame::Ack { sequence: 2 });

    // 6. Now Phone A goes offline
    relay.disconnect(&phone_a);

    // 7. Phone B reconnects and gets the replayed message 2
    let phone_b = relay.connect("pair-multi", Endpoint::Two, "phone_b");
    assert_eq!(relay.read(&phone_b), vec![message("m-2", 2, content)]);
    relay.send(&phone_b, ClientFrame::Ack { sequence: 2 });

    // 8. Desktop sends message 3: Phone B receives it directly
    let content = r#"{ "content": "seamless_continuation" }"#;
    relay.message(&desktop, "m-3", content, None);
    assert_eq!(relay.read(&desktop), vec![stored("m-3")]);
    assert_eq!(relay.read(&phone_b), vec![message("m-3", 3, content)]);
}

#[test]
fn same_device_reconnection_preempts_old_socket() {
    let mut relay = Relay::new();

    // Phone A connects
    let phone_a_old = relay.connect("pair-preempt", Endpoint::Two, "phone_a");
    // Phone A reconnects with the same device_id
    let phone_a_new = relay.connect("pair-preempt", Endpoint::Two, "phone_a");

    // The old socket receives connection_replaced
    assert_eq!(
        relay.read(&phone_a_old),
        vec![ServerFrame::Error {
            message: "connection_replaced: another connection opened for this device".to_string(),
        }]
    );
    // and is dropped whatever it sends
    let current = relay.hub.is_current(
        "pair-preempt",
        Endpoint::Two,
        "phone_a",
        phone_a_old.token,
    );
    assert!(matches!(react(Inbound::Heartbeat, current), Reaction::Disconnect));

    // The new socket is active and operational
    let desktop = relay.connect("pair-preempt", Endpoint::One, "desktop");
    relay.message(&desktop, "preempt-1", r#"{ "live": true }"#, None);
    assert_eq!(
        relay.read(&phone_a_new),
        vec![message("preempt-1", 1, r#"{ "live": true }"#)]
    );
}

#[test]
fn pairs_are_isolated_and_replayed_after_a_disconnect() {
    let mut relay = Relay::new();
    let endpoint_one = relay.connect("pair-a", Endpoint::One, "one");
    let unrelated_two = relay.connect("pair-b", Endpoint::Two, "two");
    relay.message(&endpoint_one, "endpoint_one-1", r#"{ "request": 1 }"#, None);
    assert_eq!(relay.read(&endpoint_one), vec![stored("endpoint_one-1")]);
    let unrelated_one = relay.connect("pair-b", Endpoint::One, "one");
    relay.message(&unrelated_one, "pair-b-sentinel", r#"{ "pair": "b" }"#, None);
    assert_eq!(relay.read(&unrelated_one), vec![stored("pair-b-sentinel")]);
    assert_eq!(
        relay.read(&unrelated_two),
        vec![message("pair-b-sentinel", 1, r#"{ "pair": "b" }"#)],
        "pair-b received a message belonging to another relay id"
    );

    let endpoint_two = relay.connect("pair-a", Endpoint::Two, "two");
    assert_eq!(
        relay.read(&endpoint_two),
        vec![message("endpoint_one-1", 1, r#"{ "request": 1 }"#)]
    );
    relay.send(&endpoint_two, ClientFrame::Ack { sequence: 1 });
    relay.disconnect(&endpoint_two);

    relay.message(&endpoint_one, "endpoint_one-2", r#"{ "request": 2 }"#, None);
    assert_eq!(relay.read(&endpoint_one), vec![stored("endpoint_one-2")]);

    // All connections are gone after a restart; the rows are not.
    relay.hub = Hub::new();
    relay.mail.clear();
    let endpoint_two = relay.connect("pair-a", Endpoint::Two, "two");
    assert_eq!(
        relay.read(&endpoint_two),
        vec![message("endpoint_one-2", 2, r#"{ "request": 2 }"#)]
    );
}

#[test]
fn targeted_messages_reach_their_target_live_and_on_replay() {
    let mut relay = Relay::new();
    let phone_a = relay.connect("pair", Endpoint::Two, "phone_a");
    let phone_b = relay.connect("pair", Endpoint::Two, "phone_b");
    let desktop = relay.connect("pair", Endpoint::One, "desktop");
    relay.message(&desktop, "m", "1", Some("phone_a"));
    assert_eq!(relay.read(&desktop), vec![stored("m")]);
    assert_eq!(relay.read(&phone_a), vec![message("m", 1, "1")]);
    assert!(relay.read(&phone_b).is_empty());
    let phone_b = relay.connect("pair", Endpoint::Two, "phone_b");
    assert!(relay.read(&phone_b).is_empty());
    let phone_a = relay.connect("pair", Endpoint::Two, "phone_a");
    assert_eq!(relay.read(&phone_a), vec![message("m", 1, "1")]);
}

#[test]
fn ack_head_client_purges_backlog_and_receives_live_message() {
    let mut relay = Relay::new();
    let one = relay.connect("pair-ack-client", Endpoint::One, "raw");
    relay.message(&one, "m-1", r#"{ "old": 1 }"#, None);
    relay.message(&one, "m-2", r#"{ "old": 2 }"#, None);
    let mut asked = query("pair-ack-client", Endpoint::Two, "c2");
    asked.ack_head = true;
    let two = relay.welcome(asked);
    assert_eq!(
        relay.read(&two),
        vec![ServerFrame::Ready {
            endpoint: Endpoint::Two
        }]
    );
    relay.message(&one, "m-3", r#"{ "live": 3 }"#, None);
    assert_eq!(relay.read(&two), vec![message("m-3", 3, r#"{ "live": 3 }"#)]);
}

/// Lets a client take in what arrived for it and send what it has to send.
fn run_client(
    relay: &mut Relay,
    session: &Session,
    connection: &mut Connection,
    store: &mut MemoryStore,
    rejected: &mut Vec<(String, String)>,
    payloads: &mut Vec<Payload>,
) {
    loop {
        let frames = relay.read(session);
        if frames.is_empty() {
            break;
        }
        for frame in frames {
            let mut next = Some(connection.on_frame(frame, store.last_received()));
            while let Some(action) = next.take() {
                match action {
                    Action::Start => {
                        for frame in connection.flush_outbox(store.outbox()) {
                            relay.send(session, frame);
                        }
                    }
                    Action::Confirmed { message_id } => store.remove_from_outbox(&message_id),
                    Action::Rejected { message_id, reason } => {
                        store.remove_from_outbox(&message_id);
                        rejected.push((message_id, reason));
                    }
                    Action::Deliver { sequence, payload } => {
                        payloads.push(payload);
                        next = Some(connection.on_delivered(sequence));
                    }
                    Action::Record { sequence } => {
                        let error = store
                            .mark_received(sequence)
                            .err()
                            .map(|error| error.message().to_string());
                        next = Some(connection.on_recorded(sequence, error));
                    }
                    Action::Acknowledge { sequence } => {
                        relay.send(session, ClientFrame::Ack { sequence });
                    }
                    Action::Fail { error } => panic!("{error}"),
                }
            }
        }
    }
}

#[test]
fn rejected_message_does_not_poison_outbox_or_disconnect_client() {
    let mut relay = Relay::new();

    // "conflict-id" is stored with payload {"valid": 1}
    let raw_peer = relay.connect("pair-poison", Endpoint::One, "raw");
    relay.message(&raw_peer, "conflict-id", r#"{ "valid": 1 }"#, None);
    assert_eq!(relay.read(&raw_peer), vec![stored("conflict-id")]);

    // A client on endpoint 1 has "conflict-id" with a different payload and
    // "good-msg" in its outbox
    let mut store = MemoryStore::new();
    store.enqueue_as("conflict-id".to_string(), json(r#"{ "different": 2 }"#), None);
    store.enqueue_as("good-msg".to_string(), json(r#"{ "good": true }"#), None);

    let session = relay.welcome(query("pair-poison", Endpoint::One, "client-1"));
    let mut connection = Connection::new();
    let mut rejected = Vec::new();
    let mut payloads = Vec::new();
    run_client(
        &mut relay,
        &session,
        &mut connection,
        &mut store,
        &mut rejected,
        &mut payloads,
    );

    assert_eq!(rejected.len(), 1);
    let (rejected_id, reason) = &rejected[0];
    assert_eq!(rejected_id, "conflict-id");
    assert!(reason.contains("message_id was already used with a different payload"));

    // The outbox is drained
    assert!(store.outbox().is_empty());
    assert_eq!(
        relay
            .database
            .pending("pair-poison", Endpoint::Two)
            .unwrap()
            .len(),
        2
    );
}

#[test]
fn resends_outbox_receives_and_acks_peer_messages() {
    let mut relay = Relay::new();
    let mut store = MemoryStore::new();
    store.enqueue(json(r#"{ "outbox": 1 }"#), None);
    let session = relay.welcome(query("pair-a", Endpoint::One, "c1"));
    let two = relay.connect("pair-a", Endpoint::Two, "raw");
    let mut connection = Connection::new();
    let mut rejected = Vec::new();
    let mut payloads = Vec::new();
    run_client(
        &mut relay,
        &session,
        &mut connection,
        &mut store,
        &mut rejected,
        &mut payloads,
    );
    let frames = relay.read(&two);
    assert!(
        matches!(&frames[..], [ServerFrame::Message { sequence: 1, payload, .. }] if *payload == json(r#"{ "outbox": 1 }"#))
    );
    relay.send(&two, ClientFrame::Ack { sequence: 1 });

    // Endpoint 2's reply reaches the client once and is acked
    relay.message(&two, "e2-1", r#"{ "reply": true }"#, None);
    run_client(
        &mut relay,
        &session,
        &mut connection,
        &mut store,
        &mut rejected,
        &mut payloads,
    );
    assert_eq!(payloads, vec![json(r#"{ "reply": true }"#)]);
    assert!(store.outbox().is_empty());
    assert!(relay.database.pending("pair-a", Endpoint::One).unwrap().is_empty());
    assert!(relay.database.pending("pair-a", Endpoint::Two).unwrap().is_empty());
}

#[test]
fn multiple_outbox_messages_forward_in_sequence_order() {
    let mut relay = Relay::new();
    let mut store = MemoryStore::new();
    store.enqueue(json(r#"{ "n": 1 }"#), None);
    store.enqueue(json(r#"{ "n": 2 }"#), None);
    let session = relay.welcome(query("pair-d", Endpoint::One, "c1"));
    let mut connection = Connection::new();
    run_client(
        &mut relay,
        &session,
        &mut connection,
        &mut store,
        &mut Vec::new(),
        &mut Vec::new(),
    );
    let two = relay.connect("pair-d", Endpoint::Two, "raw");
    let received: Vec<(u64, Payload)> = relay
        .read(&two)
        .into_iter()
        .map(|frame| match frame {
            ServerFrame::Message {
                sequence, payload, ..
            } => (sequence, payload),
            other => panic!("unexpected frame {other:?}"),
        })
        .collect();
    assert_eq!(
        received,
        vec![(1, json(r#"{ "n": 1 }"#)), (2, json(r#"{ "n": 2 }"#))],
        "seeded messages forwarded in sequence order"
    );
}

#[test]
fn sends_live_messages_while_connected_and_removes_on_stored() {
    let mut relay = Relay::new();
    let mut store = MemoryStore::new();
    let session = relay.welcome(query("pair-live", Endpoint::One, "c1"));
    let mut connection = Connection::new();
    run_client(
        &mut relay,
        &session,
        &mut connection,
        &mut store,
        &mut Vec::new(),
        &mut Vec::new(),
    );
    let two = relay.connect("pair-live", Endpoint::Two, "raw");

    // A message is queued after the connection is established
    store.enqueue(json(r#"{ "live": 42 }"#), None);
    for frame in connection.on_notify(store.outbox()) {
        relay.send(&session, frame);
    }
    let frames = relay.read(&two);
    assert!(
        matches!(&frames[..], [ServerFrame::Message { payload, .. }] if *payload == json(r#"{ "live": 42 }"#))
    );
    relay.send(&two, ClientFrame::Ack { sequence: 1 });
    run_client(
        &mut relay,
        &session,
        &mut connection,
        &mut store,
        &mut Vec::new(),
        &mut Vec::new(),
    );
    assert!(
        store.outbox().is_empty(),
        "outbox drained after stored for live message"
    );
}

#[test]
fn replays_only_unacked_messages_after_server_restart() {
    let mut relay = Relay::new();
    let mut store = MemoryStore::new();
    let mut payloads = Vec::new();
    let session = relay.welcome(query("pair-r", Endpoint::One, "c1"));
    let mut connection = Connection::new();

    // Endpoint 2 sends while both are online; the client processes and acks.
    let two = relay.connect("pair-r", Endpoint::Two, "raw");
    relay.message(&two, "e2-1", "7", None);
    run_client(
        &mut relay,
        &session,
        &mut connection,
        &mut store,
        &mut Vec::new(),
        &mut payloads,
    );
    assert_eq!(payloads.len(), 1, "first delivery dispatched");

    // The acked message is not replayed after a restart.
    relay.hub = Hub::new();
    relay.mail.clear();
    let session = relay.welcome(query("pair-r", Endpoint::One, "c1"));
    let mut connection = Connection::new();
    run_client(
        &mut relay,
        &session,
        &mut connection,
        &mut store,
        &mut Vec::new(),
        &mut payloads,
    );
    assert_eq!(
        payloads.len(),
        1,
        "acked message was replayed after restart: {payloads:?}"
    );
}

#[test]
fn a_replaced_client_stops() {
    let mut relay = Relay::new();
    let old = relay.connect("pair", Endpoint::One, "phone");
    relay.connect("pair", Endpoint::One, "phone");
    let mut connection = Connection::new();
    let mut client = Client::new("ws://relay/ws".to_string());
    let frame = relay.read(&old).remove(0);
    match connection.on_frame(frame, None) {
        Action::Fail { error } => {
            assert_eq!(client.ended(Some(&error), true), Verdict::Preempted)
        }
        other => panic!("unexpected action {other:?}"),
    }
}

#[test]
fn refused_messages_are_answered_and_change_nothing() {
    let mut relay = Relay::new();
    let two = relay.connect("pair", Endpoint::Two, "phone");
    let one = relay.connect("pair", Endpoint::One, "desktop");
    relay.database.take_journal();
    relay.message(&one, "", "1", None);
    assert_eq!(
        relay.read(&one),
        vec![ServerFrame::Rejected {
            message_id: String::new(),
            reason: "message_id must not be empty".to_string(),
        }]
    );
    assert!(relay.read(&two).is_empty());
    assert!(relay.database.take_journal().is_empty());
}

#[test]
fn a_full_queue_is_an_error_and_no_rejection() {
    let mut relay = Relay::new();
    relay.database.limits.max_pending_messages = 1;
    let one = relay.connect("pair", Endpoint::One, "desktop");
    relay.message(&one, "a", "1", None);
    relay.message(&one, "b", "1", None);
    assert_eq!(
        relay.read(&one),
        vec![
            stored("a"),
            ServerFrame::Error {
                message: "queue_full: pending message count limit reached".to_string(),
            }
        ]
    );
    // The client keeps the message and sends it again when it reconnects.
    let mut connection = Connection::new();
    let error = ServerFrame::Error {
        message: "queue_full: pending message count limit reached".to_string(),
    };
    assert!(matches!(connection.on_frame(error, None), Action::Fail { .. }));
}

#[test]
fn connections_need_a_pairing_id_and_a_device_id() {
    let check = |id: &str, device: &str| validate_connection(&query(id, Endpoint::One, device));
    assert!(check("pair", "phone").is_ok());
    assert!(check(&"x".repeat(256), &"y".repeat(256)).is_ok());
    assert_eq!(check("", ""), Err(ConnectError::EmptyId));
    assert_eq!(check(&"x".repeat(257), ""), Err(ConnectError::IdTooLong));
    assert_eq!(check("pair", ""), Err(ConnectError::EmptyDeviceId));
    assert_eq!(
        check("pair", &"y".repeat(257)),
        Err(ConnectError::DeviceIdTooLong)
    );
    assert_eq!(ConnectError::EmptyId.message(), "id must not be empty");
    assert_eq!(ConnectError::IdTooLong.message(), "id is too long");
    assert_eq!(
        ConnectError::EmptyDeviceId.message(),
        "device_id must not be empty"
    );
    assert_eq!(
        ConnectError::DeviceIdTooLong.message(),
        "device_id is too long"
    );
}

#[test]
fn flags_are_read_in_any_case() {
    for text in ["true", "TRUE", "True", "1", "yes", "yEs"] {
        assert_eq!(parse_flag(text), Ok(true), "{text}");
    }
    for text in ["false", "FALSE", "0", "no", "No", ""] {
        assert_eq!(parse_flag(text), Ok(false), "{text}");
    }
    for text in ["2", "tru", "truee", "on", " true", "ye\u{17f}"] {
        assert_eq!(
            parse_flag(text),
            Err(format!("invalid boolean: {text}")),
            "{text}"
        );
    }
}

#[test]
fn admissions_end_live_or_refused() {
    assert_eq!(AdmissionStep::Register.after(true, false), Ok(AdmissionStep::ReadPending));
    assert_eq!(AdmissionStep::Register.after(true, true), Ok(AdmissionStep::AcknowledgeHead));
    assert_eq!(AdmissionStep::AcknowledgeHead.after(true, true), Ok(AdmissionStep::ReadPending));
    assert_eq!(AdmissionStep::ReadPending.after(true, true), Ok(AdmissionStep::Attach));
    assert_eq!(AdmissionStep::Attach.after(false, false), Ok(AdmissionStep::Attach));
    assert_eq!(
        AdmissionStep::Register.after(false, true),
        Err(Refusal::RegistrationFailed)
    );
    assert_eq!(
        AdmissionStep::AcknowledgeHead.after(false, true),
        Err(Refusal::AcknowledgeHeadFailed)
    );
    assert_eq!(AdmissionStep::ReadPending.after(false, false), Err(Refusal::ReadFailed));
    assert_eq!(
        Refusal::RegistrationFailed.into_frame(),
        ServerFrame::Error {
            message: "relay_storage_unavailable: device registration failed".to_string()
        }
    );
    assert_eq!(
        Refusal::AcknowledgeHeadFailed.message(),
        "relay_storage_unavailable: acknowledge head failed"
    );
    assert_eq!(
        Refusal::ReadFailed.message(),
        "relay_storage_unavailable: pending messages could not be read"
    );
}

#[test]
fn a_backlog_that_cannot_be_read_refuses_the_connection() {
    let mut relay = Relay::new();
    let one = relay.connect("pair", Endpoint::One, "desktop");
    relay.message(&one, "m", "1", None);
    relay
        .database
        .register_device("pair", Endpoint::Two, "phone", NOW);
    for row in relay.database.devices.iter_mut() {
        row.last_acked_sequence = i64::MIN;
    }
    relay.database.pending[0].sequence = -5;
    let result = attach(
        &relay.database,
        &mut relay.hub,
        query("pair", Endpoint::Two, "phone"),
    );
    assert_eq!(result.unwrap_err(), Refusal::ReadFailed);
    assert_eq!(relay.hub.len(), 1);
}

#[test]
fn what_comes_in_is_sorted() {
    for current in [true, false] {
        assert!(matches!(react(Inbound::Failed, current), Reaction::Disconnect));
        assert!(matches!(react(Inbound::Ended, current), Reaction::Disconnect));
        assert!(matches!(react(Inbound::Silent, current), Reaction::Disconnect));
        assert!(matches!(react(Inbound::Close, current), Reaction::Disconnect));
    }
    assert!(matches!(react(Inbound::Heartbeat, true), Reaction::Ignore));
    assert!(matches!(react(Inbound::Binary, true), Reaction::Ignore));
    assert!(matches!(react(Inbound::Binary, false), Reaction::Disconnect));
    let ack = || ClientFrame::Ack { sequence: 42 };
    assert!(matches!(react(Inbound::Frame(ack()), true), Reaction::Serve(frame) if frame == ack()));
    assert!(matches!(react(Inbound::Frame(ack()), false), Reaction::Disconnect));
    match react(Inbound::Invalid("missing field".to_string()), true) {
        Reaction::Reply(frame) => assert_eq!(
            frame,
            ServerFrame::Error {
                message: "invalid frame: missing field".to_string()
            }
        ),
        other => panic!("unexpected reaction {other:?}"),
    }
}

#[test]
fn cleanups_are_reported_where_something_went() {
    let stats = |expired_pending, expired_receipts| CleanupStats {
        expired_pending,
        expired_receipts,
    };
    assert!(!report_cleanup(stats(0, 0)));
    assert!(report_cleanup(stats(1, 0)));
    assert!(report_cleanup(stats(0, 1)));
}
