//! Endpoints, payloads, fingerprints, texts and the clock.

use relay::clock::{timestamp, unix_timestamp, ClockError};
use relay::digest::payload_hash;
use relay::frame::Endpoint;
use relay::ids::{check_id, IdError};
use relay::payload::{Payload, PayloadError};
use relay::text::{contains, decimal, is_ignoring_case, starts_with};

#[test]
fn endpoints_face_each_other() {
    assert_eq!(Endpoint::One.opposite(), Endpoint::Two);
    assert_eq!(Endpoint::Two.opposite(), Endpoint::One);
    assert_eq!(Endpoint::One.as_str(), "1");
    assert_eq!(Endpoint::Two.as_str(), "2");
}

#[test]
fn payloads_are_kept_compact() {
    let payload = Payload::parse(b" { \"any\" : [ 1, 2.50, null ] } ").unwrap();
    assert_eq!(payload.as_bytes(), b"{\"any\":[1,2.5,null]}");
    assert_eq!(payload.len(), 20);
    assert_eq!(payload.clone(), payload);
    assert_eq!(Payload::parse(payload.as_bytes()).unwrap(), payload);
}

#[test]
fn texts_that_are_no_json_are_refused() {
    for text in ["", "{", "{} {}", "nul", "\"a"] {
        assert_eq!(
            Payload::parse(text.as_bytes()).unwrap_err(),
            PayloadError::InvalidJson,
            "{text}"
        );
    }
    assert!(Payload::parse(&[0x22, 0xff, 0x22]).is_err());
}

#[test]
fn fingerprints_are_hexadecimal_digests() {
    assert_eq!(
        payload_hash(b"abc"),
        "ba7816bf8f01cfea414140de5dae2223b00361a396177a9cb410ff61f20015ad"
    );
    assert_eq!(
        payload_hash(b""),
        "e3b0c44298fc1c149afbf4c8996fb92427ae41e4649b934ca495991b7852b855"
    );
}

#[test]
fn ids_have_one_to_256_bytes() {
    assert!(check_id("x").is_ok());
    assert_eq!(check_id(""), Err(IdError::Empty));
    assert!(check_id(&"x".repeat(256)).is_ok());
    assert_eq!(check_id(&"x".repeat(257)), Err(IdError::TooLong));
}

#[test]
fn texts_are_searched_by_characters() {
    assert!(starts_with("connection_replaced: x", "connection_replaced:"));
    assert!(!starts_with("connection", "connection_replaced:"));
    assert!(contains("a connection_replaced b", "connection_replaced"));
    assert!(contains("abc", ""));
    assert!(!contains("abc", "abcd"));
    assert!(contains("a\u{e9}b", "\u{e9}b"));
    assert!(is_ignoring_case("YeS", "yes"));
    assert!(!is_ignoring_case("yes", "YES"));
    assert_eq!(decimal(0), "0");
    assert_eq!(decimal(10), "10");
    assert_eq!(decimal(u64::MAX), "18446744073709551615");
}

#[test]
fn readings_of_the_clock_become_timestamps() {
    assert_eq!(timestamp(Some(5)), Ok(5));
    assert_eq!(timestamp(Some(i64::MAX as u64)), Ok(i64::MAX));
    assert_eq!(
        timestamp(Some(i64::MAX as u64 + 1)),
        Err(ClockError::OutOfRange)
    );
    assert_eq!(timestamp(None), Err(ClockError::BeforeEpoch));
    assert_eq!(
        ClockError::BeforeEpoch.message(),
        "system clock is before the Unix epoch"
    );
    assert_eq!(
        ClockError::OutOfRange.message(),
        "system clock is out of range"
    );
    // 2020 is past.
    assert!(unix_timestamp().unwrap() > 1_577_836_800);
}
