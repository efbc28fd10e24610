//! The time of day, in seconds since the Unix epoch.

use vstd::prelude::*;

verus! {

/// A reading of the system clock. It is carried, never inspected.
#[verifier::external_type_specification]
#[verifier::external_body]
pub struct ExSystemTime(std::time::SystemTime);

/// The error of a reading before its reference point. It is carried, never
/// inspected.
#[verifier::external_type_specification]
#[verifier::external_body]
pub struct ExSystemTimeError(std::time::SystemTimeError);

/// `std::time::SystemTime::now`. Nothing is claimed of the reading.
pub assume_specification[ std::time::SystemTime::now ]() -> std::time::SystemTime
;

/// `std::time::Duration::as_secs`. Nothing is claimed of the number: the
/// duration comes off the clock.
pub assume_specification[ std::time::Duration::as_secs ](d: &std::time::Duration) -> u64
;

/// Calls `std::time::SystemTime::duration_since` with the Unix epoch. Nothing
/// is claimed of the outcome, which rests on the clock.
#[verifier::external_body]
fn since_epoch(time: &std::time::SystemTime) -> (r: Result<
    std::time::Duration,
    std::time::SystemTimeError,
>) {
    time.duration_since(std::time::UNIX_EPOCH)
}

/// Why a reading of the clock cannot be used.
#[derive(Clone, Copy, Debug, PartialEq, Eq, Structural)]
pub enum ClockError {
    BeforeEpoch,
    OutOfRange,
}

impl ClockError {
    pub open spec fn words(self) -> Seq<char> {
        match self {
            ClockError::BeforeEpoch => "system clock is before the Unix epoch"@,
            ClockError::OutOfRange => "system clock is out of range"@,
        }
    }

    pub fn message(&self) -> (s: &'static str)
        ensures
            s@ == self.words(),
    {
        match self {
            ClockError::BeforeEpoch => "system clock is before the Unix epoch",
            ClockError::OutOfRange => "system clock is out of range",
        }
    }
}

/// The timestamp for a reading of the clock: the seconds since the epoch, or
/// `None` where the clock stands before it.
pub fn timestamp(seconds: Option<u64>) -> (r: Result<i64, ClockError>)
    ensures
        match seconds {
            None => r == Err::<i64, ClockError>(ClockError::BeforeEpoch),
            Some(n) => if n <= i64::MAX {
                r == Ok::<i64, ClockError>(n as i64)
            } else {
                r == Err::<i64, ClockError>(ClockError::OutOfRange)
            },
        },
{
    match seconds {
        None => Err(ClockError::BeforeEpoch),
        Some(n) => if n <= 0x7fff_ffff_ffff_ffff {
            Ok(n as i64)
        } else {
            Err(ClockError::OutOfRange)
        },
    }
}

/// The time of day. Which time it is rests on the system clock; it is never
/// before the epoch.
pub fn unix_timestamp() -> (r: Result<i64, ClockError>)
    ensures
        r matches Ok(now) ==> now >= 0,
{
    match since_epoch(&std::time::SystemTime::now()) {
        Ok(elapsed) => timestamp(Some(elapsed.as_secs())),
        Err(_) => timestamp(None),
    }
}

} // verus!
