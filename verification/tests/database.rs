//! Storing, replaying, acknowledging and expiring messages.

use relay::config::Limits;
use relay::database::{validate_message_id, validate_target_device_id, Database, ReadError};
use relay::entity::{counter, device, pending_message, receipt};
use relay::frame::{Endpoint, ServerFrame};
use relay::journal::Change;
use relay::payload::Payload;
use relay::tables::StoreError;

const NOW: i64 = 1_700_000_000;

fn database() -> Database {
    database_with_limits(Limits::default())
}

fn database_with_limits(limits: Limits) -> Database {
    Database::open(limits, Vec::new(), Vec::new(), Vec::new(), Vec::new())
}

fn json(text: &str) -> Payload {
    Payload::parse(text.as_bytes()).unwrap()
}

#[test]
fn stores_replays_and_acknowledges_messages() {
    let mut database = database();
    let payload = json(r#"{ "opaque": [1, 2, 3] }"#);
    let stored = database
        .store("pair-a", Endpoint::One, "endpoint1-1", &payload, None, NOW)
        .unwrap();
    assert_eq!(stored.pending.as_ref().unwrap().sequence, 1);
    assert_eq!(database.pending("pair-a", Endpoint::Two).unwrap().len(), 1);

    assert_eq!(
        database.acknowledge("pair-a", Endpoint::Two, "default", 1, NOW),
        1
    );
    assert!(database.pending("pair-a", Endpoint::Two).unwrap().is_empty());
}

#[test]
fn duplicate_message_ids_are_idempotent_after_ack() {
    let mut database = database();
    let payload = json(r#"{ "request": "once" }"#);
    database
        .store("pair-a", Endpoint::Two, "endpoint2-1", &payload, None, NOW)
        .unwrap();
    database.acknowledge("pair-a", Endpoint::One, "default", 1, NOW);

    let duplicate = database
        .store("pair-a", Endpoint::Two, "endpoint2-1", &payload, None, NOW)
        .unwrap();
    assert!(duplicate.pending.is_none());
    assert!(database.pending("pair-a", Endpoint::One).unwrap().is_empty());
}

#[test]
fn relay_ids_and_directions_are_isolated() {
    let mut database = database();
    database
        .store("pair-a", Endpoint::One, "one", &json("1"), None, NOW)
        .unwrap();
    database
        .store("pair-b", Endpoint::Two, "one", &json("2"), None, NOW)
        .unwrap();

    assert_eq!(database.pending("pair-a", Endpoint::Two).unwrap().len(), 1);
    assert!(database.pending("pair-a", Endpoint::One).unwrap().is_empty());
    assert_eq!(database.pending("pair-b", Endpoint::One).unwrap().len(), 1);
    assert!(database.pending("pair-b", Endpoint::Two).unwrap().is_empty());
}

#[test]
fn rejects_new_messages_when_a_direction_reaches_its_limits() {
    let limits = Limits {
        max_pending_messages: 1,
        max_pending_bytes: 1024,
        ..Limits::default()
    };
    let mut database = database_with_limits(limits);
    let payload = json(r#"{ "request": 1 }"#);
    database
        .store("pair-a", Endpoint::One, "endpoint1-1", &payload, None, NOW)
        .unwrap();

    let error = database
        .store("pair-a", Endpoint::One, "endpoint1-2", &payload, None, NOW)
        .unwrap_err();
    assert!(error.message().starts_with("queue_full:"));

    // A retry remains idempotent even while the queue is full.
    database
        .store("pair-a", Endpoint::One, "endpoint1-1", &payload, None, NOW)
        .unwrap();

    let oversized = json(&format!("\"{}\"", "x".repeat(1024)));
    let error = database
        .store("pair-b", Endpoint::One, "endpoint1-1", &oversized, None, NOW)
        .unwrap_err();
    assert!(error.message().contains("payload byte limit"));
}

#[test]
fn expires_pending_messages_and_their_receipts_together() {
    let limits = Limits {
        pending_retention_secs: 1,
        receipt_retention_secs: 1,
        ..Limits::default()
    };
    let mut database = database_with_limits(limits);
    let payload = json(r#"{ "request": 1 }"#);
    database
        .store("pair-a", Endpoint::One, "endpoint1-1", &payload, None, NOW)
        .unwrap();
    for row in database.pending.iter_mut() {
        row.created_at = 1;
    }
    for row in database.receipts.iter_mut() {
        row.created_at = 1;
    }

    let stats = database.cleanup(NOW);
    assert_eq!(stats.expired_pending, 1);
    assert_eq!(stats.expired_receipts, 1);
    assert!(database.pending("pair-a", Endpoint::Two).unwrap().is_empty());

    let retried = database
        .store("pair-a", Endpoint::One, "endpoint1-1", &payload, None, NOW)
        .unwrap();
    assert_eq!(retried.pending.unwrap().sequence, 2);
}

#[test]
fn multi_device_independent_cursors_and_purging() {
    let mut database = database();

    // Register two devices for Endpoint::Two
    let phone_a_acked = database.register_device("pair-m", Endpoint::Two, "phone_a", NOW);
    assert_eq!(phone_a_acked, 0);

    let phone_b_acked = database.register_device("pair-m", Endpoint::Two, "phone_b", NOW);
    assert_eq!(phone_b_acked, 0);

    // Store 3 messages destined for Endpoint::Two
    database
        .store("pair-m", Endpoint::One, "msg-1", &json("\"first\""), None, NOW)
        .unwrap();
    database
        .store("pair-m", Endpoint::One, "msg-2", &json("\"second\""), None, NOW)
        .unwrap();
    database
        .store("pair-m", Endpoint::One, "msg-3", &json("\"third\""), None, NOW)
        .unwrap();

    // Both devices should see all 3 pending messages initially
    let pending_a = database
        .pending_for_device("pair-m", Endpoint::Two, "phone_a")
        .unwrap();
    assert_eq!(pending_a.len(), 3);
    let pending_b = database
        .pending_for_device("pair-m", Endpoint::Two, "phone_b")
        .unwrap();
    assert_eq!(pending_b.len(), 3);

    // phone_a acks up to sequence 2
    let deleted = database.acknowledge("pair-m", Endpoint::Two, "phone_a", 2, NOW);
    // Since phone_b is still at 0, nothing is purged
    assert_eq!(deleted, 0);

    // phone_a now only has sequence 3 pending
    let pending_a = database
        .pending_for_device("pair-m", Endpoint::Two, "phone_a")
        .unwrap();
    assert_eq!(pending_a.len(), 1);
    assert_eq!(pending_a[0].sequence, 3);

    // phone_b still has all 3 messages pending
    let pending_b = database
        .pending_for_device("pair-m", Endpoint::Two, "phone_b")
        .unwrap();
    assert_eq!(pending_b.len(), 3);

    // phone_b now acks up to sequence 2, so sequences 1 and 2 are purged
    let deleted = database.acknowledge("pair-m", Endpoint::Two, "phone_b", 2, NOW);
    assert_eq!(deleted, 2);

    // Now both devices only have sequence 3 pending
    assert_eq!(
        database
            .pending_for_device("pair-m", Endpoint::Two, "phone_a")
            .unwrap()
            .len(),
        1
    );
    assert_eq!(
        database
            .pending_for_device("pair-m", Endpoint::Two, "phone_b")
            .unwrap()
            .len(),
        1
    );

    // phone_b acks sequence 3, then phone_a does
    database.acknowledge("pair-m", Endpoint::Two, "phone_b", 3, NOW);
    let deleted = database.acknowledge("pair-m", Endpoint::Two, "phone_a", 3, NOW);
    assert_eq!(deleted, 1);

    // No message waits any more
    assert!(database.pending("pair-m", Endpoint::Two).unwrap().is_empty());
}

#[test]
fn acknowledge_head_only_advances_calling_device_cursor() {
    let mut database = database();

    database.register_device("pair-h", Endpoint::Two, "stale_phone", NOW);

    database
        .store("pair-h", Endpoint::One, "msg-1", &json("\"1\""), None, NOW)
        .unwrap();
    database
        .store("pair-h", Endpoint::One, "msg-2", &json("\"2\""), None, NOW)
        .unwrap();
    database
        .store("pair-h", Endpoint::One, "msg-3", &json("\"3\""), None, NOW)
        .unwrap();

    assert_eq!(
        database
            .pending_for_device("pair-h", Endpoint::Two, "stale_phone")
            .unwrap()
            .len(),
        3
    );

    // A new device connects fresh with acknowledge_head
    let deleted = database.acknowledge_head("pair-h", Endpoint::Two, "fresh_phone", NOW);
    // stale_phone is still active at sequence 0, so nothing is purged
    assert_eq!(deleted, 0);

    // Fresh phone gets 0 pending messages (cursor advanced to head = 3)
    assert!(database
        .pending_for_device("pair-h", Endpoint::Two, "fresh_phone")
        .unwrap()
        .is_empty());
    // Stale phone still has 3 pending messages
    assert_eq!(
        database
            .pending_for_device("pair-h", Endpoint::Two, "stale_phone")
            .unwrap()
            .len(),
        3
    );
    // The queue still contains messages for stale_phone
    assert_eq!(database.pending("pair-h", Endpoint::Two).unwrap().len(), 3);

    // Subsequent message arrives with sequence 4
    database
        .store("pair-h", Endpoint::One, "msg-4", &json("\"4\""), None, NOW)
        .unwrap();

    let pending_fresh = database
        .pending_for_device("pair-h", Endpoint::Two, "fresh_phone")
        .unwrap();
    assert_eq!(pending_fresh.len(), 1);

    // Stale phone sees all 4 messages
    assert_eq!(
        database
            .pending_for_device("pair-h", Endpoint::Two, "stale_phone")
            .unwrap()
            .len(),
        4
    );

    // Acknowledging sequence 4 on fresh_phone: stale_phone is at 0
    let deleted = database.acknowledge("pair-h", Endpoint::Two, "fresh_phone", 4, NOW);
    assert_eq!(deleted, 0);

    // Once stale_phone also acks 4, all sequences up to 4 are purged
    let deleted = database.acknowledge("pair-h", Endpoint::Two, "stale_phone", 4, NOW);
    assert_eq!(deleted, 4);

    // When a single device connects with acknowledge_head and no other devices exist:
    database
        .store("pair-single", Endpoint::One, "s-1", &json("\"s1\""), None, NOW)
        .unwrap();
    let deleted = database.acknowledge_head("pair-single", Endpoint::Two, "solo_device", NOW);
    assert_eq!(deleted, 1);
    assert!(database
        .pending_for_device("pair-single", Endpoint::Two, "solo_device")
        .unwrap()
        .is_empty());
}

#[test]
fn multi_device_targeted_messages_and_selective_purging() {
    let mut database = database();

    database.register_device("pair-target", Endpoint::Two, "phone_a", NOW);
    database.register_device("pair-target", Endpoint::Two, "phone_b", NOW);

    // Broadcast message (seq 1)
    database
        .store("pair-target", Endpoint::One, "m1", &json("\"all\""), None, NOW)
        .unwrap();

    // Targeted to phone_a (seq 2)
    database
        .store(
            "pair-target",
            Endpoint::One,
            "m2",
            &json("\"for_a\""),
            Some("phone_a"),
            NOW,
        )
        .unwrap();

    // Targeted to phone_b (seq 3)
    database
        .store(
            "pair-target",
            Endpoint::One,
            "m3",
            &json("\"for_b\""),
            Some("phone_b"),
            NOW,
        )
        .unwrap();

    // phone_a sees m1 and m2, but not m3
    let pending_a = database
        .pending_for_device("pair-target", Endpoint::Two, "phone_a")
        .unwrap();
    assert_eq!(pending_a.len(), 2);
    assert_eq!(pending_a[0].message_id, "m1");
    assert_eq!(pending_a[1].message_id, "m2");

    // phone_b sees m1 and m3, but not m2
    let pending_b = database
        .pending_for_device("pair-target", Endpoint::Two, "phone_b")
        .unwrap();
    assert_eq!(pending_b.len(), 2);
    assert_eq!(pending_b[0].message_id, "m1");
    assert_eq!(pending_b[1].message_id, "m3");

    // phone_a acknowledges up to sequence 2: the broadcast stays for phone_b,
    // the message for phone_a goes
    let deleted = database.acknowledge("pair-target", Endpoint::Two, "phone_a", 2, NOW);
    assert_eq!(deleted, 1);

    // phone_b still has m1 and m3
    let pending_b = database
        .pending_for_device("pair-target", Endpoint::Two, "phone_b")
        .unwrap();
    assert_eq!(pending_b.len(), 2);

    // phone_a now has 0 pending
    let pending_a = database
        .pending_for_device("pair-target", Endpoint::Two, "phone_a")
        .unwrap();
    assert!(pending_a.is_empty());

    // Now phone_b acknowledges sequence 3: m1 and m3 go
    let deleted = database.acknowledge("pair-target", Endpoint::Two, "phone_b", 3, NOW);
    assert_eq!(deleted, 2);

    // Queue is completely empty now
    assert!(database
        .pending("pair-target", Endpoint::Two)
        .unwrap()
        .is_empty());
}

#[test]
fn inactive_device_timeout_unblocks_queue_pruning() {
    let limits = Limits {
        device_retention_secs: 10,
        ..Limits::default()
    };
    let mut database = database_with_limits(limits);

    database.register_device("pair-t", Endpoint::Two, "phone_abandoned", NOW);
    database.register_device("pair-t", Endpoint::Two, "phone_active", NOW);

    database
        .store("pair-t", Endpoint::One, "m1", &json("\"1\""), None, NOW)
        .unwrap();

    // Age phone_abandoned so its last_seen_at is in the past
    for row in database.devices.iter_mut() {
        if row.device_id == "phone_abandoned" {
            row.last_seen_at = 1;
        }
    }

    // phone_active acks sequence 1
    let deleted = database.acknowledge("pair-t", Endpoint::Two, "phone_active", 1, NOW);

    // The abandoned phone does not count, so message 1 is purged
    assert_eq!(deleted, 1);
    assert!(database.pending("pair-t", Endpoint::Two).unwrap().is_empty());
}

#[test]
fn messages_are_replayed_in_sequence_order_with_their_payloads() {
    let mut database = database();
    for id in ["a", "b", "c"] {
        database
            .store("pair", Endpoint::One, id, &json(&format!("\"{id}\"")), None, NOW)
            .unwrap();
    }
    // The order of the rows does not matter.
    database.pending.reverse();
    let replay = database
        .pending_for_device("pair", Endpoint::Two, "phone")
        .unwrap();
    let sequences: Vec<u64> = replay.iter().map(|m| m.sequence).collect();
    assert_eq!(sequences, vec![1, 2, 3]);
    let ids: Vec<&str> = replay.iter().map(|m| m.message_id.as_str()).collect();
    assert_eq!(ids, vec!["a", "b", "c"]);
    assert_eq!(replay[2].payload.as_bytes(), b"\"c\"");
    assert_eq!(
        replay.into_iter().next().unwrap().into_frame(),
        ServerFrame::Message {
            message_id: "a".to_string(),
            sequence: 1,
            payload: json("\"a\""),
        }
    );
}

#[test]
fn a_waiting_message_is_handed_out_again_on_retry() {
    let mut database = database();
    let payload = json("[]");
    database
        .store("pair", Endpoint::One, "m", &payload, Some("phone"), NOW)
        .unwrap();
    database.take_journal();
    let again = database
        .store("pair", Endpoint::One, "m", &payload, None, NOW + 5)
        .unwrap();
    let pending = again.pending.unwrap();
    assert_eq!(pending.sequence, 1);
    assert_eq!(pending.target_device_id.as_deref(), Some("phone"));
    assert!(database.take_journal().is_empty());
    assert_eq!(database.pending.len(), 1);
    assert_eq!(database.counters[0].next_sequence, 1);
}

#[test]
fn receipts_hold_the_fingerprint_of_the_compact_payload() {
    let mut database = database();
    database
        .store("pair", Endpoint::One, "m", &json("\"abc\""), None, NOW)
        .unwrap();
    assert_eq!(
        database.receipts[0].payload_hash,
        "6cc43f858fbb763301637b5af970e2a46b46f461f27e5a0f41e009c59b827b25"
    );
    // Another spelling of the same value is the same message.
    database
        .store("pair", Endpoint::One, "m", &json("  \"abc\" "), None, NOW)
        .unwrap();
}

#[test]
fn messages_are_compared_by_their_fingerprints() {
    let mut database = database();
    let payload = json("1");
    let hashed = |database: &mut Database, hash: &str| {
        database.store_hashed(
            "pair",
            Endpoint::One,
            "m",
            &payload,
            hash.to_string(),
            None,
            NOW,
        )
    };
    assert!(hashed(&mut database, "aa").is_ok());
    assert!(hashed(&mut database, "aa").is_ok());
    assert_eq!(
        hashed(&mut database, "ab").unwrap_err(),
        StoreError::ConflictingPayload
    );
    assert_eq!(database.pending.len(), 1);
}

#[test]
fn every_refusal_has_its_reason() {
    let limits = Limits {
        max_pending_bytes: 10,
        max_pending_messages: 2,
        ..Limits::default()
    };
    let mut database = database_with_limits(limits);
    let small = json("1");
    let store = |database: &mut Database, id: &str, payload: &Payload, target: Option<&str>| {
        database
            .store("pair", Endpoint::One, id, payload, target, NOW)
            .unwrap_err()
    };
    let error = store(&mut database, "", &small, None);
    assert_eq!(error, StoreError::EmptyMessageId);
    assert_eq!(error.message(), "message_id must not be empty");
    let long = "x".repeat(257);
    let error = store(&mut database, &long, &small, None);
    assert_eq!(error, StoreError::MessageIdTooLong);
    assert_eq!(error.message(), "message_id is too long");
    let error = store(&mut database, "m", &small, Some(""));
    assert_eq!(error, StoreError::EmptyTarget);
    assert_eq!(error.message(), "target_device_id must not be empty");
    let error = store(&mut database, "m", &small, Some(&long));
    assert_eq!(error, StoreError::TargetTooLong);
    assert_eq!(error.message(), "target_device_id is too long");

    database
        .store("pair", Endpoint::One, "m", &small, None, NOW)
        .unwrap();
    let error = store(&mut database, "m", &json("2"), None);
    assert_eq!(error, StoreError::ConflictingPayload);
    assert_eq!(
        error.message(),
        "message_id was already used with a different payload"
    );
    // One byte waits, so nine more fit and ten do not.
    let error = store(&mut database, "n", &json("1234567890"), None);
    assert_eq!(error, StoreError::TooManyBytes);
    assert_eq!(error.message(), "queue_full: pending payload byte limit reached");
    database
        .store("pair", Endpoint::One, "n", &json("123456789"), None, NOW)
        .unwrap();
    let error = store(&mut database, "o", &small, None);
    assert_eq!(error, StoreError::TooManyPending);
    assert_eq!(error.message(), "queue_full: pending message count limit reached");
}

#[test]
fn sequences_run_out_and_never_collide() {
    let mut database = database();
    database.counters.push(counter::Model {
        relay_id: "pair".to_string(),
        destination: "2".to_string(),
        next_sequence: i64::MAX,
    });
    let error = database
        .store("pair", Endpoint::One, "m", &json("1"), None, NOW)
        .unwrap_err();
    assert_eq!(error, StoreError::SequenceExhausted);
    assert_eq!(error.message(), "relay sequence space exhausted");

    database.counters[0].next_sequence = i64::MIN;
    let error = database
        .store("pair", Endpoint::One, "m", &json("1"), None, NOW)
        .unwrap_err();
    assert_eq!(error, StoreError::NegativeSequence);
    assert_eq!(error.message(), "stored sequence is negative");

    database.counters[0].next_sequence = 6;
    database.pending.push(pending_message::Model {
        relay_id: "pair".to_string(),
        destination: "2".to_string(),
        sequence: 7,
        message_id: "other".to_string(),
        payload: json("0"),
        payload_bytes: 1,
        created_at: NOW,
        target_device_id: None,
    });
    let error = database
        .store("pair", Endpoint::One, "m", &json("1"), None, NOW)
        .unwrap_err();
    assert_eq!(error, StoreError::SequenceTaken);
    assert_eq!(error.message(), "relay sequence is already in use");
    assert!(database.take_journal().is_empty());

    database.pending[0].sequence = -1;
    database.counters[0].next_sequence = 6;
    let error = database
        .pending_for_device("pair", Endpoint::Two, "phone")
        .err();
    // The cursor of an unknown device stands at zero, beyond the bad row.
    assert_eq!(error, None);
    let error = database.pending("pair", Endpoint::Two).unwrap_err();
    assert_eq!(error, ReadError::NegativeSequence);
    assert_eq!(error.message(), "stored sequence is negative");
}

#[test]
fn refusals_of_the_message_itself_are_permanent() {
    for error in [
        StoreError::EmptyMessageId,
        StoreError::MessageIdTooLong,
        StoreError::EmptyTarget,
        StoreError::TargetTooLong,
        StoreError::PayloadTooLarge,
        StoreError::ConflictingPayload,
    ] {
        assert!(error.is_permanent(), "{error:?}");
    }
    for error in [
        StoreError::TooManyPending,
        StoreError::TooManyBytes,
        StoreError::SequenceExhausted,
        StoreError::SequenceTaken,
        StoreError::NegativeSequence,
    ] {
        assert!(!error.is_permanent(), "{error:?}");
    }
}

#[test]
fn operations_need_no_contents_of_waiting_messages() {
    let mut full = database();
    for id in ["a", "b", "c"] {
        full.store("pair", Endpoint::One, id, &json("[1,2]"), None, NOW)
            .unwrap();
    }
    full.take_journal();
    let bare: Vec<pending_message::Model> = full
        .pending
        .iter()
        .map(|row| pending_message::Model {
            message_id: String::new(),
            payload: json("null"),
            ..row.clone()
        })
        .collect();
    let mut light = Database::open(
        Limits::default(),
        full.counters.clone(),
        full.receipts.clone(),
        bare,
        full.devices.clone(),
    );
    for database in [&mut full, &mut light] {
        database
            .store("pair", Endpoint::One, "d", &json("3"), None, NOW)
            .unwrap();
        assert_eq!(database.acknowledge("pair", Endpoint::Two, "phone", 2, NOW), 2);
        assert_eq!(database.acknowledge_head("pair", Endpoint::Two, "phone", NOW), 2);
    }
    assert_eq!(full.take_journal(), light.take_journal());
}

#[test]
fn payloads_too_large_are_worded() {
    assert_eq!(StoreError::PayloadTooLarge.message(), "payload is too large");
}

#[test]
fn ids_are_measured_in_bytes() {
    assert!(validate_message_id(&"x".repeat(256)).is_ok());
    assert_eq!(
        validate_message_id(&"x".repeat(257)),
        Err(StoreError::MessageIdTooLong)
    );
    assert!(validate_message_id(&"\u{e9}".repeat(128)).is_ok());
    assert_eq!(
        validate_message_id(&"\u{e9}".repeat(129)),
        Err(StoreError::MessageIdTooLong)
    );
    assert_eq!(validate_message_id(""), Err(StoreError::EmptyMessageId));
    assert!(validate_target_device_id("phone").is_ok());
    assert_eq!(validate_target_device_id(""), Err(StoreError::EmptyTarget));
    assert_eq!(
        validate_target_device_id(&"x".repeat(257)),
        Err(StoreError::TargetTooLong)
    );
}

#[test]
fn cursors_do_not_move_back() {
    let mut database = database();
    for id in ["a", "b"] {
        database
            .store("pair", Endpoint::One, id, &json("0"), None, NOW)
            .unwrap();
    }
    assert_eq!(database.acknowledge("pair", Endpoint::Two, "phone", 2, NOW), 2);
    database.take_journal();
    assert_eq!(
        database.acknowledge("pair", Endpoint::Two, "phone", 1, NOW + 9),
        0
    );
    assert!(database.take_journal().is_empty());
    assert_eq!(
        database.register_device("pair", Endpoint::Two, "phone", NOW + 10),
        2
    );
    assert_eq!(database.devices[0].last_seen_at, NOW + 10);
}

#[test]
fn acknowledgements_beyond_the_range_are_clamped() {
    let mut database = database();
    database
        .store("pair", Endpoint::One, "a", &json("0"), None, NOW)
        .unwrap();
    assert_eq!(
        database.acknowledge("pair", Endpoint::Two, "phone", u64::MAX, NOW),
        1
    );
    assert_eq!(database.devices[0].last_acked_sequence, i64::MAX);
}

#[test]
fn receipts_of_acknowledged_messages_expire_by_themselves() {
    let limits = Limits {
        pending_retention_secs: 10,
        receipt_retention_secs: 100,
        device_retention_secs: 1000,
        ..Limits::default()
    };
    let mut database = database_with_limits(limits);
    database
        .store("pair", Endpoint::One, "acked", &json("0"), None, NOW)
        .unwrap();
    database.acknowledge("pair", Endpoint::Two, "phone", 1, NOW);
    database
        .store("pair", Endpoint::One, "waiting", &json("0"), None, NOW)
        .unwrap();

    let stats = database.cleanup(NOW + 10);
    assert_eq!(stats.expired_pending, 0);
    assert_eq!(stats.expired_receipts, 0);
    let stats = database.cleanup(NOW + 11);
    assert_eq!(stats.expired_pending, 1);
    assert_eq!(stats.expired_receipts, 1);
    assert_eq!(database.receipts[0].message_id, "acked");
    let stats = database.cleanup(NOW + 100);
    assert_eq!(stats.expired_receipts, 0);
    let stats = database.cleanup(NOW + 101);
    assert_eq!(stats.expired_receipts, 1);
    assert_eq!(database.devices.len(), 1);
    database.cleanup(NOW + 1001);
    assert!(database.devices.is_empty());
}

/// Rows as they would stand on disk, by primary key.
#[derive(Default)]
struct Disk {
    counters: Vec<counter::Model>,
    receipts: Vec<receipt::Model>,
    pending: Vec<pending_message::Model>,
    devices: Vec<device::Model>,
}

impl Disk {
    fn write(&mut self, change: Change) {
        match change {
            Change::PutCounter(row) => {
                self.counters
                    .retain(|r| (&r.relay_id, &r.destination) != (&row.relay_id, &row.destination));
                self.counters.push(row);
            }
            Change::PutReceipt(row) => self.receipts.push(row),
            Change::PutPending(row) => self.pending.push(row),
            Change::PutDevice(row) => {
                self.devices.retain(|r| {
                    (&r.relay_id, &r.endpoint, &r.device_id)
                        != (&row.relay_id, &row.endpoint, &row.device_id)
                });
                self.devices.push(row);
            }
            Change::DropReceipt(key) => self.receipts.retain(|r| {
                (&r.relay_id, &r.source, &r.message_id)
                    != (&key.relay_id, &key.source, &key.message_id)
            }),
            Change::DropPending(key) => self.pending.retain(|r| {
                (&r.relay_id, &r.destination, r.sequence)
                    != (&key.relay_id, &key.destination, key.sequence)
            }),
            Change::DropDevice(key) => self.devices.retain(|r| {
                (&r.relay_id, &r.endpoint, &r.device_id)
                    != (&key.relay_id, &key.endpoint, &key.device_id)
            }),
        }
    }

    fn load(&self, relay_id: &str) -> Database {
        Database::open(
            Limits::default(),
            self.counters
                .iter()
                .filter(|r| r.relay_id == relay_id)
                .cloned()
                .collect(),
            self.receipts
                .iter()
                .filter(|r| r.relay_id == relay_id)
                .cloned()
                .collect(),
            self.pending
                .iter()
                .filter(|r| r.relay_id == relay_id)
                .cloned()
                .collect(),
            self.devices
                .iter()
                .filter(|r| r.relay_id == relay_id)
                .cloned()
                .collect(),
        )
    }
}

#[test]
fn the_journal_keeps_rows_on_disk_up_to_date() {
    let mut disk = Disk::default();
    for pair in ["pair-a", "pair-b"] {
        for id in ["a", "b", "c"] {
            let mut database = disk.load(pair);
            database
                .store(pair, Endpoint::One, id, &json("0"), None, NOW)
                .unwrap();
            for change in database.take_journal() {
                disk.write(change);
            }
        }
        let mut database = disk.load(pair);
        database.register_device(pair, Endpoint::Two, "phone", NOW);
        database.acknowledge(pair, Endpoint::Two, "phone", 2, NOW);
        for change in database.take_journal() {
            disk.write(change);
        }
    }
    assert_eq!(disk.counters.len(), 2);
    assert!(disk.counters.iter().all(|r| r.next_sequence == 3));
    assert_eq!(disk.receipts.len(), 6);
    assert_eq!(disk.pending.len(), 2);
    assert!(disk.pending.iter().all(|r| r.sequence == 3));
    assert!(disk.devices.iter().all(|r| r.last_acked_sequence == 2));

    let mut database = Database::open(
        Limits::default(),
        disk.counters.clone(),
        disk.receipts.clone(),
        disk.pending.clone(),
        disk.devices.clone(),
    );
    let stats = database.cleanup(NOW + 3601);
    assert_eq!(stats.expired_pending, 2);
    assert_eq!(stats.expired_receipts, 6);
    for change in database.take_journal() {
        disk.write(change);
    }
    assert!(disk.receipts.is_empty());
    assert!(disk.pending.is_empty());
    assert_eq!(disk.counters.len(), 2);
    assert_eq!(disk.devices.len(), 2);
}

#[test]
fn a_restart_continues_where_the_relay_stood() {
    let mut disk = Disk::default();
    let mut steady = database();
    let steps: [fn(&mut Database); 4] = [
        |database| {
            database.register_device("pair", Endpoint::Two, "phone", NOW);
        },
        |database| {
            database
                .store("pair", Endpoint::One, "a", &json("1"), None, NOW)
                .unwrap();
        },
        |database| {
            database
                .store("pair", Endpoint::One, "b", &json("2"), None, NOW)
                .unwrap();
        },
        |database| {
            database.acknowledge("pair", Endpoint::Two, "phone", 1, NOW);
        },
    ];
    for step in steps {
        step(&mut steady);
        // Every step starts on the rows that the one before left on disk.
        let mut restarted = disk.load("pair");
        step(&mut restarted);
        for change in restarted.take_journal() {
            disk.write(change);
        }
    }
    let mut restarted = disk.load("pair");
    assert_eq!(
        restarted.pending_for_device("pair", Endpoint::Two, "phone"),
        steady.pending_for_device("pair", Endpoint::Two, "phone")
    );
    assert_eq!(
        restarted.register_device("pair", Endpoint::Two, "phone", NOW),
        1
    );
    // Known ids are still known, and the numbering goes on.
    let again = restarted
        .store("pair", Endpoint::One, "a", &json("1"), None, NOW)
        .unwrap();
    assert!(again.pending.is_none());
    let new = restarted
        .store("pair", Endpoint::One, "c", &json("3"), None, NOW)
        .unwrap();
    assert_eq!(new.pending.unwrap().sequence, 3);
}

#[test]
fn a_retry_hands_out_the_message_first_stored() {
    let mut database = database();
    database.register_device("pair", Endpoint::Two, "phone", NOW);
    database
        .store("pair", Endpoint::One, "m", &json("[1]"), Some("phone"), NOW)
        .unwrap();
    database
        .store("pair", Endpoint::One, "n", &json("[2]"), None, NOW)
        .unwrap();
    database.cleanup(NOW + 1);
    let retried = database
        .store("pair", Endpoint::One, "m", &json("[1]"), Some("tablet"), NOW + 2)
        .unwrap()
        .pending
        .unwrap();
    assert_eq!(retried.sequence, 1);
    assert_eq!(retried.payload, json("[1]"));
    assert_eq!(retried.target_device_id.as_deref(), Some("phone"));
    database.acknowledge("pair", Endpoint::Two, "phone", 1, NOW + 3);
    let retried = database
        .store("pair", Endpoint::One, "m", &json("[1]"), None, NOW + 4)
        .unwrap();
    assert!(retried.pending.is_none());
    assert_eq!(
        database
            .store("pair", Endpoint::One, "m", &json("[3]"), None, NOW + 5)
            .unwrap_err(),
        StoreError::ConflictingPayload
    );
}
