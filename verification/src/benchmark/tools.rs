//! Timing arithmetic.
use vstd::prelude::*;
use core::time::Duration;

verus! {

/// The whole seconds of a duration, as `Duration::as_secs` returns them.
pub uninterp spec fn duration_secs(d: Duration) -> u64;

/// The fractional part of a duration in nanoseconds, as
/// `Duration::subsec_nanos` returns it.
pub uninterp spec fn duration_subsec_nanos(d: Duration) -> u32;

/// `Duration::as_secs`: the number of whole seconds in the duration.
#[verifier::external_body]
fn as_secs(d: &Duration) -> (s: u64)
    ensures
        s == duration_secs(*d),
{
    d.as_secs()
}

/// `Duration::subsec_nanos`: the fractional part of the duration in
/// nanoseconds, which the documentation promises is below one billion.
#[verifier::external_body]
fn subsec_nanos(d: &Duration) -> (n: u32)
    ensures
        n == duration_subsec_nanos(*d),
        n < 1_000_000_000,
{
    d.subsec_nanos()
}

/// Nanoseconds in a second.
pub const NANOS_PER_SEC: u128 = 1_000_000_000;

/// The length in nanoseconds of a duration of `secs` whole seconds and
/// `subsec` nanoseconds.
pub fn nanos_from_parts(secs: u64, subsec: u32) -> (n: u128)
    ensures
        n == secs * NANOS_PER_SEC + subsec,
{
    assert(secs * NANOS_PER_SEC <= u64::MAX * NANOS_PER_SEC) by (nonlinear_arith)
        requires secs <= u64::MAX;
    secs as u128 * NANOS_PER_SEC + subsec as u128
}

/// The length of `duration` in nanoseconds.
pub fn duration_to_nano(duration: &Duration) -> (n: u128)
    ensures
        n == duration_secs(*duration) * NANOS_PER_SEC + duration_subsec_nanos(*duration),
{
    let secs = as_secs(duration);
    let nanos = subsec_nanos(duration);
    nanos_from_parts(secs, nanos)
}

} // verus!
