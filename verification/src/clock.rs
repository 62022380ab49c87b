//! The clocks of the machine.
//!
//! What a clock shows is chance as far as the proofs go: every function that reads one hands the
//! reading to a function that takes it as an argument.

use std::time::{Duration, Instant, SystemTime, UNIX_EPOCH};
use vstd::prelude::*;

verus! {

/// Nanoseconds in a second.
pub const NANOS_PER_SEC: u64 = 1_000_000_000;

/// `std::time::Instant`, a reading of the monotonic clock, carried through unread.
#[verifier::external_type_specification]
#[verifier::external_body]
pub struct ExInstant(Instant);

/// What `Instant::checked_add` gives for `Duration::from_secs(secs)` where the sum can be represented.
pub uninterp spec fn instant_after(start: Instant, secs: u64) -> Instant;

/// `Instant::now`: the present reading of the monotonic clock. Nothing is claimed of it.
#[verifier::external_body]
pub(crate) fn instant_now() -> Instant {
    Instant::now()
}

/// What `Instant::saturating_duration_since` gives in nanoseconds, kept to 64 bits.
pub uninterp spec fn nanos_since(earlier: Instant, later: Instant) -> u64;

/// `Instant::saturating_duration_since` in nanoseconds, kept to 64 bits: the time from `earlier` to
/// `later`, a function of the two.
#[verifier::external_body]
pub(crate) fn nanos_between(earlier: &Instant, later: &Instant) -> (r: u64)
    ensures
        r == nanos_since(*earlier, *later),
{
    later.saturating_duration_since(*earlier).as_nanos() as u64
}

/// The time since `since`, as the clock has it now.
pub(crate) fn elapsed_nanos(since: &Instant) -> (r: u64)
    ensures
        exists|now: Instant| r == #[trigger] nanos_since(*since, now),
{
    let now: Instant = instant_now();
    nanos_between(since, &now)
}

/// `Instant::checked_add` with a whole number of seconds: the point in time that lies `secs` after
/// `start`, a function of the two; `None` if the clock cannot represent it. Which points it can
/// represent is up to the machine, so nothing is claimed of when that happens.
#[verifier::external_body]
pub(crate) fn instant_plus_secs(start: &Instant, secs: u32) -> (r: Option<Instant>)
    ensures
        r matches Some(t) ==> t == instant_after(*start, secs as u64),
{
    start.checked_add(Duration::from_secs(secs as u64))
}

/// `SystemTime::now` as nanoseconds since the Unix epoch, zero before it. Nothing is claimed of
/// it.
#[verifier::external_body]
pub(crate) fn unix_nanos() -> u64 {
    SystemTime::now().duration_since(UNIX_EPOCH).unwrap_or_default().as_nanos() as u64
}

/// The text that `chrono::DateTime::to_rfc3339` makes of the point in time that lies so many seconds
/// and nanoseconds after the Unix epoch.
pub uninterp spec fn rfc3339(secs: u64, nanos: u32) -> Seq<char>;

/// `chrono::DateTime::from_timestamp` and `chrono::DateTime::to_rfc3339`: a point in time in UTC as
/// text, a function of the seconds and the nanoseconds. `from_timestamp` knows every point up to the
/// year 262142; the bound on the seconds ends in 2554.
#[verifier::external_body]
fn rfc3339_text(secs: u64, nanos: u32) -> (r: String)
    requires
        secs <= 18_446_744_073,
        nanos < NANOS_PER_SEC,
    ensures
        r@ == rfc3339(secs, nanos),
{
    chrono::DateTime::from_timestamp(secs as i64, nanos).unwrap_or_default().to_rfc3339()
}

/// The text of a point in time in nanoseconds since the Unix epoch.
pub open spec fn utc_text_of(now: u64) -> Seq<char> {
    rfc3339(now / NANOS_PER_SEC, (now % NANOS_PER_SEC) as u32)
}

/// The text of a point in time in nanoseconds since the Unix epoch.
pub fn utc_text(now: u64) -> (r: String)
    ensures
        r@ == utc_text_of(now),
{
    rfc3339_text(now / NANOS_PER_SEC, (now % NANOS_PER_SEC) as u32)
}

/// The nanoseconds of `secs` seconds.
pub(crate) fn nanos_of(secs: u64) -> (r: u128)
    ensures
        r == secs * NANOS_PER_SEC,
{
    assert(secs * 1_000_000_000 <= u128::MAX);
    secs as u128 * 1_000_000_000
}

/// Whole seconds from `earlier` to `later`, kept to 32 bits.
pub open spec fn secs_since(earlier: Instant, later: Instant) -> u32 {
    (nanos_since(earlier, later) / NANOS_PER_SEC) as u32
}

/// Whole seconds from `earlier` to `later`, kept to 32 bits.
pub(crate) fn secs_between(earlier: &Instant, later: &Instant) -> (r: u32)
    ensures
        r == secs_since(*earlier, *later),
{
    #[verifier::truncate]
    let secs: u32 = (nanos_between(earlier, later) / NANOS_PER_SEC) as u32;
    secs
}

/// Whole seconds since `since`, as the clock has it now, kept to 32 bits.
pub(crate) fn elapsed_secs_u32(since: &Instant) -> (r: u32)
    ensures
        exists|now: Instant| r == #[trigger] secs_since(*since, now),
{
    let now: Instant = instant_now();
    secs_between(since, &now)
}

/// Seconds are whole thousand millions of nanoseconds, and a point in time is written by its seconds and
/// the nanoseconds that are left.
pub proof fn law_seconds(earlier: Instant, later: Instant, now: u64)
    ensures
        nanos_since(earlier, later) < 4_294_967_296_000_000_000 ==> 1_000_000_000 * secs_since(
            earlier,
            later,
        ) <= nanos_since(earlier, later) < 1_000_000_000 * (secs_since(earlier, later) + 1),
        exists|secs: u64, nanos: u32|
            now == 1_000_000_000 * secs + nanos && nanos < 1_000_000_000 && utc_text_of(now)
                == #[trigger] rfc3339(secs, nanos),
{
    let secs = now / NANOS_PER_SEC;
    let nanos = (now % NANOS_PER_SEC) as u32;
    assert(now == 1_000_000_000 * secs + nanos);
    assert(utc_text_of(now) == rfc3339(secs, nanos));
}

} // verus!
