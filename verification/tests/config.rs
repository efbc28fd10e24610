//! Settings and limits.

use relay::config::{default_log_filter, signed, Args, ConfigError, Limits};

fn refused(args: Args) -> ConfigError {
    Limits::from_args(&args).unwrap_err()
}

#[test]
fn the_defaults_are_the_documented_ones() {
    let args = Args::default();
    assert_eq!(args.max_pending_messages, 100000);
    assert_eq!(args.max_pending_bytes, 1073741824);
    assert_eq!(args.pending_retention_secs, 3600);
    assert_eq!(args.receipt_retention_secs, 3600);
    assert_eq!(args.device_retention_secs, 604800);
    assert_eq!(args.cleanup_interval_secs, 600);
    assert_eq!(args.idle_timeout_secs, 90);
    let limits = Limits::from_args(&args).unwrap();
    assert_eq!(limits, Limits::default());
    assert_eq!(limits.ping_interval_secs, 30);
    assert_eq!(limits.idle_timeout_secs, 90);
}

#[test]
fn debug_logging_is_on_where_asked_for_and_in_debug_builds() {
    let mut args = Args::default();
    assert!(!args.debug_enabled(false));
    assert!(args.debug_enabled(true));
    args.debug = true;
    assert!(args.debug_enabled(false));
    assert_eq!(default_log_filter(true), "relay=debug");
    assert_eq!(default_log_filter(false), "relay=info");
}

#[test]
fn every_unusable_setting_is_refused() {
    let args = Args::default();
    let cases = [
        (
            Args { max_pending_messages: 0, ..args },
            ConfigError::NoPendingMessages,
            "max pending messages must be positive",
        ),
        (
            Args { max_pending_bytes: 0, ..args },
            ConfigError::NoPendingBytes,
            "max pending bytes must be positive",
        ),
        (
            Args { pending_retention_secs: 0, ..args },
            ConfigError::NoPendingRetention,
            "pending retention must be positive",
        ),
        (
            Args { receipt_retention_secs: 0, ..args },
            ConfigError::NoReceiptRetention,
            "receipt retention must be positive",
        ),
        (
            Args { device_retention_secs: 0, ..args },
            ConfigError::NoDeviceRetention,
            "device retention must be positive",
        ),
        (
            Args { cleanup_interval_secs: 0, ..args },
            ConfigError::NoCleanupInterval,
            "cleanup interval must be positive",
        ),
        (
            Args { idle_timeout_secs: 30, ..args },
            ConfigError::IdleTimeoutTooShort,
            "idle timeout must exceed the 30 second ping interval",
        ),
        (
            Args { receipt_retention_secs: 3599, ..args },
            ConfigError::ReceiptsExpireBeforePending,
            "receipt retention must be at least as long as pending retention",
        ),
        (
            Args { max_pending_messages: u64::MAX, ..args },
            ConfigError::PendingMessagesTooLarge,
            "max pending messages is too large",
        ),
        (
            Args { max_pending_bytes: u64::MAX, ..args },
            ConfigError::PendingBytesTooLarge,
            "max pending bytes is too large",
        ),
        (
            Args {
                pending_retention_secs: u64::MAX,
                receipt_retention_secs: u64::MAX,
                ..args
            },
            ConfigError::PendingRetentionTooLarge,
            "pending retention is too large",
        ),
        (
            Args { receipt_retention_secs: u64::MAX, ..args },
            ConfigError::ReceiptRetentionTooLarge,
            "receipt retention is too large",
        ),
        (
            Args { device_retention_secs: u64::MAX, ..args },
            ConfigError::DeviceRetentionTooLarge,
            "device retention is too large",
        ),
    ];
    for (args, error, words) in cases {
        assert_eq!(refused(args), error);
        assert_eq!(error.message(), words);
    }
    assert!(Limits::from_args(&Args { idle_timeout_secs: 31, ..args }).is_ok());
}

#[test]
fn numbers_keep_their_value_with_a_sign() {
    assert_eq!(signed(7), Some(7));
    assert_eq!(signed(i64::MAX as u64), Some(i64::MAX));
    assert_eq!(signed(i64::MAX as u64 + 1), None);
}
