//! Live connections and where frames go.

use relay::database::StoredMessage;
use relay::frame::{Endpoint, ServerFrame};
use relay::hub::{Hub, Outgoing};
use relay::payload::Payload;

fn frames_for(out: &[Outgoing], token: u64) -> Vec<ServerFrame> {
    out.iter()
        .filter(|o| o.token == token)
        .map(|o| o.frame.clone())
        .collect()
}

#[test]
fn index_lookup_broadcasts_only_to_target_endpoint_and_pairing() {
    let mut hub = Hub::new();

    // Register dev1 on (pair-1, Endpoint::One)
    let (t1, out1) = hub.register("pair-1", Endpoint::One, "dev1", Vec::new());
    // Register dev2 on (pair-1, Endpoint::Two)
    let (t2, out2) = hub.register("pair-1", Endpoint::Two, "dev2", Vec::new());
    // Register dev3 on (pair-2, Endpoint::Two)
    let (t3, out3) = hub.register("pair-2", Endpoint::Two, "dev3", Vec::new());

    // Each gets its Ready frame
    assert!(matches!(frames_for(&out1, t1)[..], [ServerFrame::Ready { .. }]));
    assert!(matches!(frames_for(&out2, t2)[..], [ServerFrame::Ready { .. }]));
    assert!(matches!(frames_for(&out3, t3)[..], [ServerFrame::Ready { .. }]));

    // Send to (pair-1, Endpoint::Two)
    let test_frame = ServerFrame::Stored {
        message_id: "test-stored".to_string(),
    };
    let out = hub.send_to_endpoint("pair-1", Endpoint::Two, None, &test_frame);

    // dev2 must receive the frame
    assert_eq!(frames_for(&out, t2), vec![test_frame]);

    // dev1 and dev3 must not receive the frame
    assert!(frames_for(&out, t1).is_empty());
    assert!(frames_for(&out, t3).is_empty());
}

#[test]
fn preemption_and_clean_removal() {
    let mut hub = Hub::new();
    let (t1, ready1) = hub.register("pair-x", Endpoint::One, "phone", Vec::new());
    assert!(hub.is_current("pair-x", Endpoint::One, "phone", t1));

    // Preempt with new connection on same device
    let (t2, out) = hub.register("pair-x", Endpoint::One, "phone", Vec::new());
    assert!(!hub.is_current("pair-x", Endpoint::One, "phone", t1));
    assert!(hub.is_current("pair-x", Endpoint::One, "phone", t2));

    // The first connection must have received a preemption error
    assert!(matches!(frames_for(&ready1, t1)[..], [ServerFrame::Ready { .. }]));
    let err1 = frames_for(&out, t1);
    assert!(
        matches!(&err1[..], [ServerFrame::Error { message, .. }] if message.starts_with("connection_replaced"))
    );

    // Removing with old token does nothing
    hub.remove("pair-x", Endpoint::One, "phone", t1);
    assert!(hub.is_current("pair-x", Endpoint::One, "phone", t2));

    // Removing with current token removes the connection
    hub.remove("pair-x", Endpoint::One, "phone", t2);
    assert!(!hub.is_current("pair-x", Endpoint::One, "phone", t2));
    assert_eq!(hub.len(), 0);
}

#[test]
fn a_targeted_frame_reaches_its_target_alone() {
    let mut hub = Hub::new();
    let (a, _) = hub.register("pair", Endpoint::Two, "phone_a", Vec::new());
    let (b, _) = hub.register("pair", Endpoint::Two, "phone_b", Vec::new());
    // The same device id elsewhere is another device.
    let (c, _) = hub.register("pair", Endpoint::One, "phone_a", Vec::new());
    let frame = ServerFrame::Error {
        message: "for a".to_string(),
    };
    let out = hub.send_to_endpoint("pair", Endpoint::Two, Some("phone_a"), &frame);
    assert_eq!(out.len(), 1);
    assert_eq!(out[0].token, a);
    let out = hub.send_to_endpoint("pair", Endpoint::Two, None, &frame);
    let tokens: Vec<u64> = out.iter().map(|o| o.token).collect();
    assert_eq!(tokens, vec![a, b]);
    let out = hub.send_to_endpoint("pair", Endpoint::Two, Some("nobody"), &frame);
    assert!(out.is_empty());
    assert!(hub.is_current("pair", Endpoint::One, "phone_a", c));
}

#[test]
fn a_new_connection_gets_ready_and_then_its_backlog() {
    let mut hub = Hub::new();
    let payload = Payload::parse(b"{\"n\": 1}").unwrap();
    let pending = vec![
        StoredMessage {
            message_id: "a".to_string(),
            sequence: 4,
            payload: payload.clone(),
            target_device_id: None,
        },
        StoredMessage {
            message_id: "b".to_string(),
            sequence: 7,
            payload: payload.clone(),
            target_device_id: Some("phone".to_string()),
        },
    ];
    let (token, out) = hub.register("pair", Endpoint::Two, "phone", pending);
    assert_eq!(token, 1);
    assert_eq!(
        frames_for(&out, token),
        vec![
            ServerFrame::Ready {
                endpoint: Endpoint::Two
            },
            ServerFrame::Message {
                message_id: "a".to_string(),
                sequence: 4,
                payload: payload.clone()
            },
            ServerFrame::Message {
                message_id: "b".to_string(),
                sequence: 7,
                payload
            },
        ]
    );
}

#[test]
fn the_notice_to_a_replaced_connection_comes_first() {
    let mut hub = Hub::new();
    let (t1, _) = hub.register("pair", Endpoint::Two, "phone", Vec::new());
    let (t2, out) = hub.register("pair", Endpoint::Two, "phone", Vec::new());
    assert_eq!(t2, t1 + 1);
    assert_eq!(out.len(), 2);
    assert_eq!(out[0].token, t1);
    assert_eq!(
        out[0].frame,
        ServerFrame::Error {
            message: "connection_replaced: another connection opened for this device".to_string()
        }
    );
    assert_eq!(out[1].token, t2);
    assert_eq!(hub.len(), 1);
    assert!(hub.has_tokens());
}

#[test]
fn other_devices_keep_their_connections() {
    let mut hub = Hub::new();
    let (a, _) = hub.register("pair", Endpoint::Two, "phone_a", Vec::new());
    let (b, _) = hub.register("pair", Endpoint::Two, "phone_b", Vec::new());
    hub.remove("pair", Endpoint::Two, "phone_b", b);
    assert!(hub.is_current("pair", Endpoint::Two, "phone_a", a));
    assert!(!hub.is_current("pair", Endpoint::Two, "phone_b", b));
    assert!(!hub.is_current("pair", Endpoint::Two, "nobody", a));
}
