//! Instants, kept as microseconds since 1970-01-01T00:00:00Z, the precision
//! at which the store keeps them.
use vstd::prelude::*;

verus! {

/// What `chrono::DateTime::parse_from_rfc3339` gives for a text, as the
/// seconds since the epoch and the nanoseconds past that second; `None` where
/// the text is not an RFC 3339 date-time.
pub uninterp spec fn rfc3339_instant(text: Seq<char>) -> Option<(i64, u32)>;

/// Calls `chrono::DateTime::parse_from_rfc3339` and reads the instant it
/// parsed as `timestamp()` and `timestamp_subsec_nanos()`. Claims that the
/// result is `rfc3339_instant` of the text, and, where it parsed, what the
/// parser's source shows of the range: a four-digit year with an offset of
/// at most a day, and a fraction below two seconds (a leap second may exceed
/// one). What chrono accepts is not stated beyond the name.
#[verifier::external_body]
fn parse_rfc3339(text: &str) -> (r: Option<(i64, u32)>)
    ensures
        r == rfc3339_instant(text@),
        r matches Some((secs, nanos)) ==> -100_000_000_000 <= secs <= 300_000_000_000 && nanos
            < 2_000_000_000,
{
    match chrono::DateTime::parse_from_rfc3339(text) {
        Ok(time) => Some((time.timestamp(), time.timestamp_subsec_nanos())),
        Err(_) => None,
    }
}

/// An instant given as seconds and nanoseconds, rounded to the nearest
/// microsecond (half a microsecond rounds up).
pub open spec fn micros_of(secs: int, nanos: int) -> int {
    secs * 1_000_000 + nanos / 1000 + (if nanos % 1000 >= 500 {
        1int
    } else {
        0int
    })
}

/// The instant `secs` seconds and `nanos` nanoseconds after the epoch,
/// rounded to microseconds so that a time written to the store reads back
/// equal. The instant must fit the `i64` microseconds it is kept in.
pub fn utc_micros(secs: i64, nanos: u32) -> (micros: i64)
    requires
        i64::MIN <= secs * 1_000_000,
        micros_of(secs as int, nanos as int) <= i64::MAX,
    ensures
        micros == micros_of(secs as int, nanos as int),
{
    let extra = nanos % 1000;
    let down = secs * 1_000_000 + (nanos / 1000) as i64;
    if extra >= 500 {
        down + 1
    } else {
        down
    }
}

/// The instant that an RFC 3339 text names, in microseconds; `None` where it
/// names none.
pub open spec fn instant_of(text: Seq<char>) -> Option<i64> {
    match rfc3339_instant(text) {
        Some((secs, nanos)) => Some(micros_of(secs as int, nanos as int) as i64),
        None => None,
    }
}

/// Reads an RFC 3339 text as an instant in microseconds.
pub fn parse_instant(text: &str) -> (r: Option<i64>)
    ensures
        r == instant_of(text@),
{
    match parse_rfc3339(text) {
        Some((secs, nanos)) => Some(utc_micros(secs, nanos)),
        None => None,
    }
}

/// A copy was changed after the last sync that agreed on it: it never
/// synced, or its `updated_at` is after its `synced_at`.
pub open spec fn newer(updated_at: i64, synced_at: Option<i64>) -> bool {
    match synced_at {
        None => true,
        Some(synced) => updated_at > synced,
    }
}

/// Whether a copy changed after the last sync that agreed on it.
pub fn is_newer(updated_at: i64, synced_at: Option<i64>) -> (b: bool)
    ensures
        b == newer(updated_at, synced_at),
{
    match synced_at {
        None => true,
        Some(synced) => updated_at > synced,
    }
}

} // verus!
