//! Limits and timings of a relay.

use vstd::prelude::*;

verus! {

pub const DEFAULT_MAX_PENDING_MESSAGES: u64 = 100_000;

pub const DEFAULT_MAX_PENDING_BYTES: u64 = 1_073_741_824;

pub const DEFAULT_PENDING_RETENTION_SECS: u64 = 3_600;

pub const DEFAULT_RECEIPT_RETENTION_SECS: u64 = 3_600;

pub const DEFAULT_DEVICE_RETENTION_SECS: u64 = 604_800;

pub const DEFAULT_CLEANUP_INTERVAL_SECS: u64 = 600;

pub const DEFAULT_IDLE_TIMEOUT_SECS: u64 = 90;

/// How often an established connection is pinged. A connection that sends
/// nothing for `DEFAULT_IDLE_TIMEOUT_SECS` (three ping intervals) is treated
/// as half-open and dropped.
pub const PING_INTERVAL_SECS: u64 = 30;

/// The settings that an operator chooses.
#[derive(Clone, Copy, Debug, PartialEq, Eq, Structural)]
pub struct Args {
    /// Emit connection and message details.
    pub debug: bool,
    /// Maximum unacknowledged messages for one pairing id and direction.
    pub max_pending_messages: u64,
    /// Maximum unacknowledged payload bytes for one pairing id and direction.
    pub max_pending_bytes: u64,
    /// Seconds before an unacknowledged message expires.
    pub pending_retention_secs: u64,
    /// Seconds to retain an acknowledged message's idempotency receipt.
    pub receipt_retention_secs: u64,
    /// Seconds of inactivity before an offline device stops blocking pruning.
    pub device_retention_secs: u64,
    /// Seconds between database cleanup passes.
    pub cleanup_interval_secs: u64,
    /// Seconds of inbound silence before a connection is closed.
    pub idle_timeout_secs: u64,
}

impl Args {
    /// Detailed logging is on when it was asked for, and in debug builds.
    pub fn debug_enabled(&self, debug_build: bool) -> (r: bool)
        ensures
            r == (self.debug || debug_build),
    {
        self.debug || debug_build
    }
}

impl Default for Args {
    fn default() -> (r: Args)
        ensures
            !r.debug,
            r.max_pending_messages == 100_000,
            r.max_pending_bytes == 1024 * 1024 * 1024,
            r.pending_retention_secs == 60 * 60,
            r.receipt_retention_secs == 60 * 60,
            r.device_retention_secs == 7 * 24 * 60 * 60,
            r.cleanup_interval_secs == 10 * 60,
            r.idle_timeout_secs == 3 * PING_INTERVAL_SECS,
    {
        Args {
            debug: false,
            max_pending_messages: DEFAULT_MAX_PENDING_MESSAGES,
            max_pending_bytes: DEFAULT_MAX_PENDING_BYTES,
            pending_retention_secs: DEFAULT_PENDING_RETENTION_SECS,
            receipt_retention_secs: DEFAULT_RECEIPT_RETENTION_SECS,
            device_retention_secs: DEFAULT_DEVICE_RETENTION_SECS,
            cleanup_interval_secs: DEFAULT_CLEANUP_INTERVAL_SECS,
            idle_timeout_secs: DEFAULT_IDLE_TIMEOUT_SECS,
        }
    }
}

/// Why a set of settings is refused.
#[derive(Clone, Copy, Debug, PartialEq, Eq, Structural)]
pub enum ConfigError {
    NoPendingMessages,
    NoPendingBytes,
    NoPendingRetention,
    NoReceiptRetention,
    NoDeviceRetention,
    NoCleanupInterval,
    IdleTimeoutTooShort,
    ReceiptsExpireBeforePending,
    PendingMessagesTooLarge,
    PendingBytesTooLarge,
    PendingRetentionTooLarge,
    ReceiptRetentionTooLarge,
    DeviceRetentionTooLarge,
}

impl ConfigError {
    /// The words for an operator.
    pub open spec fn words(self) -> Seq<char> {
        match self {
            ConfigError::NoPendingMessages => "max pending messages must be positive"@,
            ConfigError::NoPendingBytes => "max pending bytes must be positive"@,
            ConfigError::NoPendingRetention => "pending retention must be positive"@,
            ConfigError::NoReceiptRetention => "receipt retention must be positive"@,
            ConfigError::NoDeviceRetention => "device retention must be positive"@,
            ConfigError::NoCleanupInterval => "cleanup interval must be positive"@,
            ConfigError::IdleTimeoutTooShort => "idle timeout must exceed the 30 second ping interval"@,
            ConfigError::ReceiptsExpireBeforePending =>
                "receipt retention must be at least as long as pending retention"@,
            ConfigError::PendingMessagesTooLarge => "max pending messages is too large"@,
            ConfigError::PendingBytesTooLarge => "max pending bytes is too large"@,
            ConfigError::PendingRetentionTooLarge => "pending retention is too large"@,
            ConfigError::ReceiptRetentionTooLarge => "receipt retention is too large"@,
            ConfigError::DeviceRetentionTooLarge => "device retention is too large"@,
        }
    }

    /// The words for an operator.
    pub fn message(&self) -> (s: &'static str)
        ensures
            s@ == self.words(),
    {
        match self {
            ConfigError::NoPendingMessages => "max pending messages must be positive",
            ConfigError::NoPendingBytes => "max pending bytes must be positive",
            ConfigError::NoPendingRetention => "pending retention must be positive",
            ConfigError::NoReceiptRetention => "receipt retention must be positive",
            ConfigError::NoDeviceRetention => "device retention must be positive",
            ConfigError::NoCleanupInterval => "cleanup interval must be positive",
            ConfigError::IdleTimeoutTooShort => "idle timeout must exceed the 30 second ping interval",
            ConfigError::ReceiptsExpireBeforePending =>
                "receipt retention must be at least as long as pending retention",
            ConfigError::PendingMessagesTooLarge => "max pending messages is too large",
            ConfigError::PendingBytesTooLarge => "max pending bytes is too large",
            ConfigError::PendingRetentionTooLarge => "pending retention is too large",
            ConfigError::ReceiptRetentionTooLarge => "receipt retention is too large",
            ConfigError::DeviceRetentionTooLarge => "device retention is too large",
        }
    }
}

/// The limits that a running relay keeps to.
#[derive(Clone, Copy, Debug, PartialEq, Eq, Structural)]
pub struct Limits {
    pub max_pending_messages: i64,
    pub max_pending_bytes: i64,
    pub pending_retention_secs: i64,
    pub receipt_retention_secs: i64,
    pub device_retention_secs: i64,
    pub ping_interval_secs: u64,
    pub idle_timeout_secs: u64,
}

/// The first fault of a set of settings, if any.
pub open spec fn config_fault(args: Args) -> Option<ConfigError> {
    if args.max_pending_messages == 0 {
        Some(ConfigError::NoPendingMessages)
    } else if args.max_pending_bytes == 0 {
        Some(ConfigError::NoPendingBytes)
    } else if args.pending_retention_secs == 0 {
        Some(ConfigError::NoPendingRetention)
    } else if args.receipt_retention_secs == 0 {
        Some(ConfigError::NoReceiptRetention)
    } else if args.device_retention_secs == 0 {
        Some(ConfigError::NoDeviceRetention)
    } else if args.cleanup_interval_secs == 0 {
        Some(ConfigError::NoCleanupInterval)
    } else if args.idle_timeout_secs <= PING_INTERVAL_SECS {
        Some(ConfigError::IdleTimeoutTooShort)
    } else if args.receipt_retention_secs < args.pending_retention_secs {
        Some(ConfigError::ReceiptsExpireBeforePending)
    } else if args.max_pending_messages > i64::MAX {
        Some(ConfigError::PendingMessagesTooLarge)
    } else if args.max_pending_bytes > i64::MAX {
        Some(ConfigError::PendingBytesTooLarge)
    } else if args.pending_retention_secs > i64::MAX {
        Some(ConfigError::PendingRetentionTooLarge)
    } else if args.receipt_retention_secs > i64::MAX {
        Some(ConfigError::ReceiptRetentionTooLarge)
    } else if args.device_retention_secs > i64::MAX {
        Some(ConfigError::DeviceRetentionTooLarge)
    } else {
        None
    }
}

impl Limits {
    /// Limits under which the relay's promises hold: everything is positive,
    /// a receipt outlives its pending message, and a peer has time to answer
    /// a ping.
    pub open spec fn sound(self) -> bool {
        &&& self.max_pending_messages > 0
        &&& self.max_pending_bytes > 0
        &&& self.pending_retention_secs > 0
        &&& self.device_retention_secs > 0
        &&& self.receipt_retention_secs >= self.pending_retention_secs
        &&& self.ping_interval_secs == PING_INTERVAL_SECS
        &&& self.idle_timeout_secs > self.ping_interval_secs
    }

    /// Takes over the settings, or names the first one that is refused.
    pub fn from_args(args: &Args) -> (r: Result<Limits, ConfigError>)
        ensures
            match r {
                Ok(limits) => {
                    &&& config_fault(*args) is None
                    &&& limits.max_pending_messages == args.max_pending_messages
                    &&& limits.max_pending_bytes == args.max_pending_bytes
                    &&& limits.pending_retention_secs == args.pending_retention_secs
                    &&& limits.receipt_retention_secs == args.receipt_retention_secs
                    &&& limits.device_retention_secs == args.device_retention_secs
                    &&& limits.ping_interval_secs == PING_INTERVAL_SECS
                    &&& limits.idle_timeout_secs == args.idle_timeout_secs
                    &&& limits.sound()
                },
                Err(e) => config_fault(*args) == Some(e),
            },
    {
        if args.max_pending_messages == 0 {
            return Err(ConfigError::NoPendingMessages);
        }
        if args.max_pending_bytes == 0 {
            return Err(ConfigError::NoPendingBytes);
        }
        if args.pending_retention_secs == 0 {
            return Err(ConfigError::NoPendingRetention);
        }
        if args.receipt_retention_secs == 0 {
            return Err(ConfigError::NoReceiptRetention);
        }
        if args.device_retention_secs == 0 {
            return Err(ConfigError::NoDeviceRetention);
        }
        if args.cleanup_interval_secs == 0 {
            return Err(ConfigError::NoCleanupInterval);
        }
        if args.idle_timeout_secs <= PING_INTERVAL_SECS {
            return Err(ConfigError::IdleTimeoutTooShort);
        }
        if args.receipt_retention_secs < args.pending_retention_secs {
            return Err(ConfigError::ReceiptsExpireBeforePending);
        }
        let max_pending_messages = match signed(args.max_pending_messages) {
            Some(n) => n,
            None => return Err(ConfigError::PendingMessagesTooLarge),
        };
        let max_pending_bytes = match signed(args.max_pending_bytes) {
            Some(n) => n,
            None => return Err(ConfigError::PendingBytesTooLarge),
        };
        let pending_retention_secs = match signed(args.pending_retention_secs) {
            Some(n) => n,
            None => return Err(ConfigError::PendingRetentionTooLarge),
        };
        let receipt_retention_secs = match signed(args.receipt_retention_secs) {
            Some(n) => n,
            None => return Err(ConfigError::ReceiptRetentionTooLarge),
        };
        let device_retention_secs = match signed(args.device_retention_secs) {
            Some(n) => n,
            None => return Err(ConfigError::DeviceRetentionTooLarge),
        };
        Ok(
            Limits {
                max_pending_messages,
                max_pending_bytes,
                pending_retention_secs,
                receipt_retention_secs,
                device_retention_secs,
                ping_interval_secs: PING_INTERVAL_SECS,
                idle_timeout_secs: args.idle_timeout_secs,
            },
        )
    }
}

impl Default for Limits {
    fn default() -> (r: Limits)
        ensures
            r.max_pending_messages == 100_000,
            r.max_pending_bytes == 1024 * 1024 * 1024,
            r.pending_retention_secs == 60 * 60,
            r.receipt_retention_secs == 60 * 60,
            r.device_retention_secs == 7 * 24 * 60 * 60,
            r.ping_interval_secs == 30,
            r.idle_timeout_secs == 90,
            r.sound(),
    {
        Limits {
            max_pending_messages: DEFAULT_MAX_PENDING_MESSAGES as i64,
            max_pending_bytes: DEFAULT_MAX_PENDING_BYTES as i64,
            pending_retention_secs: DEFAULT_PENDING_RETENTION_SECS as i64,
            receipt_retention_secs: DEFAULT_RECEIPT_RETENTION_SECS as i64,
            device_retention_secs: DEFAULT_DEVICE_RETENTION_SECS as i64,
            ping_interval_secs: PING_INTERVAL_SECS,
            idle_timeout_secs: DEFAULT_IDLE_TIMEOUT_SECS,
        }
    }
}

/// The same number with a sign, where it fits.
pub fn signed(n: u64) -> (r: Option<i64>)
    ensures
        match r {
            Some(m) => m == n,
            None => n > i64::MAX,
        },
{
    if n <= i64::MAX as u64 {
        Some(n as i64)
    } else {
        None
    }
}

/// The log filter where the operator gave none.
pub fn default_log_filter(debug: bool) -> (s: &'static str)
    ensures
        s@ == (if debug { "relay=debug"@ } else { "relay=info"@ }),
{
    if debug {
        "relay=debug"
    } else {
        "relay=info"
    }
}

} // verus!
