//! What the small values mean: ids, texts, numbers, fingerprints and settings.

use crate::config;
use crate::client::transport;
use crate::clock::ClockError;
use crate::config::{config_fault, Args, ConfigError, DEFAULT_IDLE_TIMEOUT_SECS, Limits};
use crate::digest::{fingerprint, hex_char, hex_text, sha256_digest};
use crate::ids::{id_fault, valid_id, IdError};
use crate::server::MAX_MESSAGE_BYTES;
use crate::tables::{message_id_fault, target_fault, StoreError};
use crate::text::{begins_with, decimal_digits, lowered, occurs_at, occurs_in};
use vstd::prelude::*;
use vstd::utf8::encode_utf8;

verus! {

/// An id has at least one character and at most 256 bytes, whatever it names.
pub proof fn ids_have_up_to_256_bytes(id: Seq<char>)
    ensures
        id_fault(id) == Some(IdError::Empty) <==> id.len() == 0,
        id_fault(id) == Some(IdError::TooLong) <==> id.len() > 0 && encode_utf8(id).len() > 256,
        id_fault(id) is None <==> id.len() > 0 && encode_utf8(id).len() <= 256,
        valid_id(id) <==> id.len() > 0 && encode_utf8(id).len() <= 256,
        message_id_fault(id) == Some(StoreError::EmptyMessageId) <==> id.len() == 0,
        message_id_fault(id) == Some(StoreError::MessageIdTooLong) <==> id.len() > 0 && encode_utf8(
            id,
        ).len() > 256,
        message_id_fault(id) is None <==> id.len() > 0 && encode_utf8(id).len() <= 256,
        target_fault(id) == Some(StoreError::EmptyTarget) <==> id.len() == 0,
        target_fault(id) == Some(StoreError::TargetTooLong) <==> id.len() > 0 && encode_utf8(
            id,
        ).len() > 256,
        target_fault(id) is None <==> id.len() > 0 && encode_utf8(id).len() <= 256,
{
}

/// A text occurs in another exactly if the other is made of something before
/// it, the text, and something after it; it begins it if nothing comes before.
pub proof fn texts_occur_where_they_stand(whole: Seq<char>, part: Seq<char>)
    ensures
        forall|front: Seq<char>, back: Seq<char>|
            whole == #[trigger] (front + part + back) ==> occurs_in(whole, part),
        occurs_in(whole, part) ==> exists|front: Seq<char>, back: Seq<char>|
            whole == #[trigger] (front + part + back),
        forall|back: Seq<char>| whole == #[trigger] (part + back) ==> begins_with(whole, part),
        begins_with(whole, part) ==> exists|back: Seq<char>| whole == #[trigger] (part + back),
{
    assert forall|front: Seq<char>, back: Seq<char>| whole == #[trigger] (front + part
        + back) implies occurs_in(whole, part) by {
        let i = front.len() as int;
        assert(whole.subrange(i, i + part.len()) =~= part);
        assert(occurs_at(whole, part, i));
    }
    if occurs_in(whole, part) {
        let i = choose|i: int| occurs_at(whole, part, i);
        let front = whole.subrange(0, i);
        let back = whole.subrange(i + part.len(), whole.len() as int);
        assert(whole =~= front + whole.subrange(i, i + part.len()) + back);
        assert(whole == front + part + back);
    }
    assert forall|back: Seq<char>| whole == #[trigger] (part + back) implies begins_with(
        whole,
        part,
    ) by {
        assert(whole.subrange(0, part.len() as int) =~= part);
    }
    if begins_with(whole, part) {
        let back = whole.subrange(part.len() as int, whole.len() as int);
        assert(whole =~= whole.subrange(0, part.len() as int) + back);
        assert(whole == part + back);
    }
}

/// Lower case changes the letters `A` to `Z` alone, each in its place.
pub proof fn lower_case_changes_capitals_alone(s: Seq<char>, i: int)
    requires
        0 <= i < s.len(),
    ensures
        lowered(s).len() == s.len(),
        'A' <= s[i] <= 'Z' ==> lowered(s)[i] as u32 == s[i] as u32 + 32,
        !('A' <= s[i] <= 'Z') ==> lowered(s)[i] == s[i],
{
}

/// A number is written with its digits: one below ten is one digit, and a digit
/// after a positive number stands for ten times it and the digit.
pub proof fn numbers_are_written_in_decimal(n: nat, d: nat)
    requires
        d < 10,
    ensures
        decimal_digits(d).len() == 1,
        decimal_digits(d)[0] as u32 == '0' as u32 + d,
        n > 0 ==> decimal_digits(10 * n + d) == decimal_digits(n) + decimal_digits(d),
{
    if n > 0 {
        assert((10 * n + d) / 10 == n);
        assert((10 * n + d) % 10 == d);
        reveal_with_fuel(decimal_digits, 2);
        assert(decimal_digits(10 * n + d) =~= decimal_digits(n) + decimal_digits(d));
    }
}

/// Bytes are written with two lower-case hexadecimal digits each, the high one
/// first.
pub proof fn bytes_are_written_in_hexadecimal(bytes: Seq<u8>, i: int)
    requires
        0 <= i < bytes.len(),
    ensures
        hex_text(bytes).len() == 2 * bytes.len(),
        hex_text(bytes)[2 * i] == "0123456789abcdef"@[bytes[i] as int / 16],
        hex_text(bytes)[2 * i + 1] == "0123456789abcdef"@[bytes[i] as int % 16],
{
    reveal_strlit("0123456789abcdef");
    assert((2 * i) / 2 == i && (2 * i) % 2 == 0);
    assert((2 * i + 1) / 2 == i && (2 * i + 1) % 2 == 1);
    let text = hex_text(bytes);
    assert(text[2 * i] == hex_char(bytes[i] as int / 16));
    assert(text[2 * i + 1] == hex_char(bytes[i] as int % 16));
}

/// A fingerprint is the digest of the whole payload, written in hexadecimal.
pub proof fn fingerprints_cover_the_payload(data: Seq<u8>)
    ensures
        fingerprint(data) == hex_text(sha256_digest(data)),
{
}

/// Settings are refused exactly if one of them is zero, the idle timeout leaves
/// no time for a ping, receipts go before their messages, or a number does not
/// fit, and the first of these is named.
pub proof fn settings_are_refused_for_their_first_fault(args: Args)
    ensures
        ({
            let fault = config_fault(args);
            let positive = args.max_pending_messages > 0 && args.max_pending_bytes > 0
                && args.pending_retention_secs > 0 && args.receipt_retention_secs > 0
                && args.device_retention_secs > 0 && args.cleanup_interval_secs > 0;
            let ordered = positive && args.idle_timeout_secs > 30 && args.receipt_retention_secs
                >= args.pending_retention_secs;
            &&& fault == Some(ConfigError::NoPendingMessages) <==> args.max_pending_messages == 0
            &&& fault == Some(ConfigError::NoPendingBytes) <==> args.max_pending_messages > 0
                && args.max_pending_bytes == 0
            &&& fault == Some(ConfigError::NoPendingRetention) <==> args.max_pending_messages > 0
                && args.max_pending_bytes > 0 && args.pending_retention_secs == 0
            &&& fault == Some(ConfigError::NoReceiptRetention) <==> args.max_pending_messages > 0
                && args.max_pending_bytes > 0 && args.pending_retention_secs > 0
                && args.receipt_retention_secs == 0
            &&& fault == Some(ConfigError::NoDeviceRetention) <==> args.max_pending_messages > 0
                && args.max_pending_bytes > 0 && args.pending_retention_secs > 0
                && args.receipt_retention_secs > 0 && args.device_retention_secs == 0
            &&& fault == Some(ConfigError::NoCleanupInterval) <==> args.max_pending_messages > 0
                && args.max_pending_bytes > 0 && args.pending_retention_secs > 0
                && args.receipt_retention_secs > 0 && args.device_retention_secs > 0
                && args.cleanup_interval_secs == 0
            &&& fault == Some(ConfigError::IdleTimeoutTooShort) <==> positive
                && args.idle_timeout_secs <= 30
            &&& fault == Some(ConfigError::ReceiptsExpireBeforePending) <==> positive
                && args.idle_timeout_secs > 30 && args.receipt_retention_secs
                < args.pending_retention_secs
            &&& fault == Some(ConfigError::PendingMessagesTooLarge) <==> ordered
                && args.max_pending_messages > i64::MAX
            &&& fault == Some(ConfigError::PendingBytesTooLarge) <==> ordered
                && args.max_pending_messages <= i64::MAX && args.max_pending_bytes > i64::MAX
            &&& fault == Some(ConfigError::PendingRetentionTooLarge) <==> ordered
                && args.max_pending_messages <= i64::MAX && args.max_pending_bytes <= i64::MAX
                && args.pending_retention_secs > i64::MAX
            &&& fault == Some(ConfigError::ReceiptRetentionTooLarge) <==> ordered
                && args.max_pending_messages <= i64::MAX && args.max_pending_bytes <= i64::MAX
                && args.pending_retention_secs <= i64::MAX && args.receipt_retention_secs
                > i64::MAX
            &&& fault == Some(ConfigError::DeviceRetentionTooLarge) <==> ordered
                && args.max_pending_messages <= i64::MAX && args.max_pending_bytes <= i64::MAX
                && args.pending_retention_secs <= i64::MAX && args.receipt_retention_secs
                <= i64::MAX && args.device_retention_secs > i64::MAX
        }),
{
}

/// Limits are sound exactly if everything is positive, receipts outlive their
/// messages, and the idle timeout leaves time for a ping each thirty seconds.
pub proof fn sound_limits_are_positive(limits: Limits)
    ensures
        limits.sound() <==> {
            &&& limits.max_pending_messages > 0
            &&& limits.max_pending_bytes > 0
            &&& limits.pending_retention_secs > 0
            &&& limits.device_retention_secs > 0
            &&& limits.receipt_retention_secs >= limits.pending_retention_secs
            &&& limits.ping_interval_secs == 30
            &&& limits.idle_timeout_secs > 30
        },
{
}

/// What an operator reads of refused settings and of a wrong clock.
pub proof fn operators_read_what_is_wrong(e: ConfigError, c: ClockError)
    ensures
        match e {
            ConfigError::NoPendingMessages => e.words() == "max pending messages must be positive"@,
            ConfigError::NoPendingBytes => e.words() == "max pending bytes must be positive"@,
            ConfigError::NoPendingRetention => e.words() == "pending retention must be positive"@,
            ConfigError::NoReceiptRetention => e.words() == "receipt retention must be positive"@,
            ConfigError::NoDeviceRetention => e.words() == "device retention must be positive"@,
            ConfigError::NoCleanupInterval => e.words() == "cleanup interval must be positive"@,
            ConfigError::IdleTimeoutTooShort => e.words()
                == "idle timeout must exceed the 30 second ping interval"@,
            ConfigError::ReceiptsExpireBeforePending => e.words()
                == "receipt retention must be at least as long as pending retention"@,
            ConfigError::PendingMessagesTooLarge => e.words()
                == "max pending messages is too large"@,
            ConfigError::PendingBytesTooLarge => e.words() == "max pending bytes is too large"@,
            ConfigError::PendingRetentionTooLarge => e.words() == "pending retention is too large"@,
            ConfigError::ReceiptRetentionTooLarge => e.words() == "receipt retention is too large"@,
            ConfigError::DeviceRetentionTooLarge => e.words() == "device retention is too large"@,
        },
        match c {
            ClockError::BeforeEpoch => c.words() == "system clock is before the Unix epoch"@,
            ClockError::OutOfRange => c.words() == "system clock is out of range"@,
        },
{
}

/// The largest frame has ten mebibytes, the relay pings every thirty seconds
/// and a client every twenty-five, so that each pings at least twice within the
/// idle timeout that is set where no other is.
pub proof fn pings_come_before_the_idle_timeout()
    ensures
        MAX_MESSAGE_BYTES == 10 * 1024 * 1024,
        config::PING_INTERVAL_SECS == 30,
        transport::PING_INTERVAL_SECS == 25,
        DEFAULT_IDLE_TIMEOUT_SECS == 90,
        2 * config::PING_INTERVAL_SECS < DEFAULT_IDLE_TIMEOUT_SECS,
        2 * transport::PING_INTERVAL_SECS < DEFAULT_IDLE_TIMEOUT_SECS,
{
}

} // verus!
