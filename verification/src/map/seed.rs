//! A different map seed per process, so matches don't all generate the identical map.

use std::time::{Duration, SystemTime, UNIX_EPOCH};
use vstd::prelude::*;

verus! {

#[verifier::external_type_specification]
#[verifier::external_body]
pub struct ExSystemTime(SystemTime);

/// `SystemTime::now`: the current system clock reading. Nothing is stated of it: it
/// depends on the machine and the moment of the call.
#[verifier::external_body]
fn system_now() -> SystemTime {
    SystemTime::now()
}

/// `SystemTime::duration_since(UNIX_EPOCH)`: how long after the Unix epoch `t` lies, or
/// `None` where `t` is before it. Nothing more is stated: the value depends on the clock.
#[verifier::external_body]
fn since_unix_epoch(t: &SystemTime) -> Option<Duration> {
    t.duration_since(UNIX_EPOCH).ok()
}

/// `Duration::subsec_nanos`: the fractional part of the duration in nanoseconds, which
/// the documentation states is always less than one billion.
#[verifier::external_body]
fn subsec_nanos(d: &Duration) -> (n: u32)
    ensures
        n < 1_000_000_000,
{
    d.subsec_nanos()
}

/// A map seed taken from the sub-second part of the system clock: different per process,
/// deliberately not deterministic. `None` when the clock reads before the Unix epoch.
pub fn random_seed() -> (seed: Option<u32>)
    ensures
        seed matches Some(s) ==> s < 1_000_000_000,
{
    let now = system_now();
    match since_unix_epoch(&now) {
        Some(d) => Some(subsec_nanos(&d)),
        None => None,
    }
}

} // verus!
