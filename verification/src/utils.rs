//! Protocol constants, byte order selection and the wall clock.
use vstd::prelude::*;
use std::time::{Duration, SystemTime};

verus! {

pub const RAKNET_PROTOCOL_VERSION: u8 = 10;

/// The protocol versions that this implementation knows.
pub const RAKNET_PROTOCOL_VERSION_LIST: [u8; 2] = [10, 11];

/// The MTU that a Minecraft Bedrock client asks for.
pub const RAKNET_CLIENT_MTU: u16 = 1400;

/// A connection that hears nothing for this many milliseconds is closed.
pub const RECEIVE_TIMEOUT: i64 = 60000;

/// Byte order of a multi-byte integer on the wire.
pub enum Endian {
    Big,
    Little,
}

#[verifier::external_type_specification]
#[verifier::external_body]
pub struct ExSystemTime(SystemTime);

/// `SystemTime::now`: the current wall-clock time. Nothing is stated of it.
#[verifier::external_body]
fn system_time_now() -> SystemTime {
    SystemTime::now()
}

/// `SystemTime::duration_since(UNIX_EPOCH)`: the time elapsed since the epoch,
/// `None` when `t` lies before it. Nothing is stated of the value: it depends on the clock.
#[verifier::external_body]
fn duration_since_unix_epoch(t: &SystemTime) -> Option<Duration> {
    t.duration_since(std::time::UNIX_EPOCH).ok()
}

/// `Duration::as_millis`: the whole milliseconds of `d`. Nothing is stated of it:
/// `Duration` is opaque here.
#[verifier::external_body]
fn duration_as_millis(d: &Duration) -> u128 {
    d.as_millis()
}

/// The timestamp for `ms` milliseconds since the Unix epoch (`None`: the clock reads
/// earlier than the epoch): the count itself, or 0 when it is missing or does not
/// fit an `i64`.
pub fn timestamp_from_millis(ms: Option<u128>) -> (r: i64)
    ensures
        r == (match ms {
            Some(m) => if m <= i64::MAX {
                m as i64
            } else {
                0
            },
            None => 0,
        }),
{
    match ms {
        Some(m) => {
            if m <= i64::MAX as u128 {
                m as i64
            } else {
                0
            }
        },
        None => 0,
    }
}

/// Milliseconds since the Unix epoch, by the wall clock; 0 when that count does not
/// fit an `i64` or the clock reads earlier than the epoch. The count is
/// `timestamp_from_millis` of what the clock gives; the clock itself is not stated.
pub fn cur_timestamp_millis() -> (r: i64)
    ensures
        r >= 0,
{
    let now = system_time_now();
    let ms = match duration_since_unix_epoch(&now) {
        Some(d) => Some(duration_as_millis(&d)),
        None => None,
    };
    timestamp_from_millis(ms)
}

/// Whether, at the instant `now`, `timeout` milliseconds have passed since `time`.
pub open spec fn passed_at(now: i64, time: i64, timeout: u64) -> bool {
    now >= time + (timeout as i64)
}

/// Whether, with the clock reading `now`, `timeout` milliseconds have passed since
/// the instant `time`.
pub fn deadline_passed(now: i64, time: i64, timeout: u64) -> (r: bool)
    requires
        i64::MIN <= time + (timeout as i64) <= i64::MAX,
    ensures
        r == passed_at(now, time, timeout),
{
    now >= time + timeout as i64
}

/// Whether `timeout` milliseconds have passed since the instant `time`, by the
/// wall clock: `deadline_passed` for some reading of the clock at or after the
/// epoch, which the clock itself decides.
pub fn _is_timeout(time: i64, timeout: u64) -> (r: bool)
    requires
        i64::MIN <= time + (timeout as i64) <= i64::MAX,
    ensures
        exists|now: i64| now >= 0 && r == #[trigger] passed_at(now, time, timeout),
        time + (timeout as i64) <= 0 ==> r,
{
    let cur = cur_timestamp_millis();
    let r = deadline_passed(cur, time, timeout);
    assert(cur >= 0 && r == passed_at(cur, time, timeout));
    r
}

} // verus!
