//! Instants, as nanoseconds since the Unix epoch (UTC), and what is said of
//! how long ago one was.
use vstd::prelude::*;
use crate::text::{decimal, push_decimal, push_str};

verus! {

/// What chrono writes for the instant `nanos` nanoseconds after the Unix
/// epoch with `DateTime::<Utc>::to_rfc3339` (RFC 3339, offset `+00:00`,
/// with 0, 3, 6 or 9 fraction digits, the fewest of these that hold the
/// instant exactly).
pub uninterp spec fn utc_rfc3339(nanos: i64) -> Seq<char>;

/// What chrono reads from `text` with `str::parse::<DateTime<Utc>>`, as
/// nanoseconds since the Unix epoch: `None` where the text does not parse,
/// or where the instant lies outside what an `i64` of nanoseconds holds
/// (before 1677 or after 2262).
pub uninterp spec fn utc_parse_nanos(text: Seq<char>) -> Option<i64>;

/// Calls `chrono::DateTime::<Utc>::from_timestamp_nanos` (total on `i64`) and
/// `DateTime::to_rfc3339`; the text is named by `utc_rfc3339`.
#[verifier::external_body]
pub fn rfc3339(nanos: i64) -> (s: String)
    ensures
        s@ == utc_rfc3339(nanos),
{
    chrono::DateTime::<chrono::Utc>::from_timestamp_nanos(nanos).to_rfc3339()
}

/// Calls `str::parse::<chrono::DateTime<Utc>>` and converts a parsed instant
/// with `DateTime::timestamp_nanos_opt`; the result is named by `utc_parse_nanos`.
#[verifier::external_body]
pub fn parse_rfc3339(text: &str) -> (r: Option<i64>)
    ensures
        r == utc_parse_nanos(text@),
{
    match text.parse::<chrono::DateTime<chrono::Utc>>() {
        Ok(instant) => instant.timestamp_nanos_opt(),
        Err(_) => None,
    }
}

/// The system clock's type, carried through unread.
#[verifier::external_type_specification]
#[verifier::external_body]
pub struct ExSystemTime(std::time::SystemTime);

/// Calls `std::time::SystemTime::now`. Nothing is stated of the value: it
/// is the clock's.
#[verifier::external_body]
fn system_time_now() -> std::time::SystemTime {
    std::time::SystemTime::now()
}

/// Calls `SystemTime::duration_since(UNIX_EPOCH)`: `None` where `t` lies
/// before the Unix epoch (the call's error). Nothing more is stated: `t` is
/// opaque.
#[verifier::external_body]
fn since_unix_epoch(t: &std::time::SystemTime) -> Option<core::time::Duration> {
    match t.duration_since(std::time::UNIX_EPOCH) {
        Ok(d) => Some(d),
        Err(_) => None,
    }
}

/// Calls `Duration::as_secs`: the whole seconds of `d`.
#[verifier::external_body]
fn duration_secs(d: &core::time::Duration) -> u64 {
    d.as_secs()
}

/// Calls `Duration::subsec_nanos`: the fraction of a second of `d`, in
/// nanoseconds, which std documents as always less than one billion.
#[verifier::external_body]
fn duration_subsec_nanos(d: &core::time::Duration) -> (n: u32)
    ensures
        n < 1_000_000_000,
{
    d.subsec_nanos()
}

/// `secs` seconds and `nanos` nanoseconds after the Unix epoch, as
/// nanoseconds, where that fits an `i64`.
pub open spec fn epoch_nanos(secs: int, nanos: int) -> Option<i64> {
    let t = secs * 1_000_000_000 + nanos;
    if t <= i64::MAX { Some(t as i64) } else { None }
}

/// The instant `secs` seconds and `nanos` nanoseconds after the Unix epoch,
/// as nanoseconds; `None` where it does not fit an `i64` (after 2262).
pub fn nanos_since_epoch(secs: u64, nanos: u32) -> (r: Option<i64>)
    requires
        nanos < 1_000_000_000,
    ensures
        r == epoch_nanos(secs as int, nanos as int),
{
    if secs > 9_223_372_036u64 {
        return None;
    }
    let t: u64 = secs * 1_000_000_000u64 + nanos as u64;
    if t > i64::MAX as u64 {
        None
    } else {
        Some(t as i64)
    }
}

/// Reads the system clock as nanoseconds since the Unix epoch. A clock
/// that reads before the epoch reads as the epoch; one beyond what an `i64`
/// of nanoseconds holds (after 2262) reads as that latest instant. The
/// instant itself is the clock's; it is never negative.
fn clock_nanos() -> (r: i64)
    ensures
        r >= 0,
{
    let t = system_time_now();
    match since_unix_epoch(&t) {
        Some(d) => {
            let secs = duration_secs(&d);
            let nanos = duration_subsec_nanos(&d);
            match nanos_since_epoch(secs, nanos) {
                Some(n) => n,
                None => i64::MAX,
            }
        },
        None => 0,
    }
}

/// The current instant, never before the Unix epoch (see `clock_nanos`).
pub fn now() -> (t: i64)
    ensures
        t >= 0,
{
    clock_nanos()
}

pub open spec fn nanos_per_sec() -> int {
    1_000_000_000
}

/// Whole seconds from `then` to `now`, rounded toward zero, as chrono's
/// `now.signed_duration_since(then).num_seconds()` counts them.
pub open spec fn whole_seconds(now: int, then: int) -> int {
    let d = now - then;
    if d >= 0 {
        d / nanos_per_sec()
    } else {
        -((-d) / nanos_per_sec())
    }
}

/// How long ago something happened that lies `secs` whole seconds back:
/// under a minute is "just now", then whole minutes under an hour, whole
/// hours under a day, and whole days.
pub open spec fn relative_label(secs: int) -> Seq<char> {
    if secs < 60 {
        "just now"@
    } else if secs / 60 < 60 {
        decimal(secs / 60) + "m ago"@
    } else if secs / 3600 < 24 {
        decimal(secs / 3600) + "h ago"@
    } else {
        decimal(secs / 86400) + "d ago"@
    }
}

/// Whole seconds from `then` to `now`.
pub fn seconds_between(now: i64, then: i64) -> (r: i64)
    ensures
        r == whole_seconds(now as int, then as int),
{
    let d: i128 = now as i128 - then as i128;
    if d >= 0 {
        let q: i128 = d / 1_000_000_000i128;
        assert(q <= 20_000_000_000);
        q as i64
    } else {
        let q: i128 = (-d) / 1_000_000_000i128;
        assert(q <= 20_000_000_000);
        -(q as i64)
    }
}

/// The relative-time label of `then`, seen at `now`.
pub fn relative_time_at(now: i64, then: i64) -> (s: String)
    ensures
        s@ == relative_label(whole_seconds(now as int, then as int)),
{
    let secs = seconds_between(now, then);
    let mut s = String::new();
    if secs < 60 {
        push_str(&mut s, "just now");
    } else if secs / 60 < 60 {
        push_decimal(&mut s, secs / 60);
        push_str(&mut s, "m ago");
    } else if secs / 3600 < 24 {
        push_decimal(&mut s, secs / 3600);
        push_str(&mut s, "h ago");
    } else {
        push_decimal(&mut s, secs / 86400);
        push_str(&mut s, "d ago");
    }
    s
}

/// The relative-time label of `then`, seen from the current instant.
pub fn relative_time(then: i64) -> (s: String)
    ensures
        exists|t: i64| t >= 0 && s@ == relative_label(whole_seconds(t as int, then as int)),
{
    let t = now();
    relative_time_at(t, then)
}

} // verus!
