//! The monotonic clock that stamps verde's tree edits.

use vstd::prelude::*;

use std::time::{Duration, Instant};

verus! {

/// `std::time::Instant`, a reading of the monotonic clock, carried opaquely.
#[verifier::external_type_specification]
#[verifier::external_body]
pub struct ExInstant(Instant);

/// `Instant::elapsed`: the time from `epoch` to now. Nothing is claimed of it:
/// it depends on when it is called.
#[verifier::external_body]
fn elapsed_since(epoch: &Instant) -> (r: Duration) {
    epoch.elapsed()
}

/// `Duration::as_nanos`: the whole nanoseconds of `span`. Nothing is claimed:
/// a `Duration` is opaque here.
#[verifier::external_body]
fn whole_nanos(span: &Duration) -> (r: u128) {
    span.as_nanos()
}

/// Nanoseconds from `epoch` to now, held at `u64::MAX` past that (about 584
/// years).
pub(crate) fn nanos_since(epoch: &Instant) -> (r: u64) {
    let span = elapsed_since(epoch);
    let n = whole_nanos(&span);
    if n > 0xffff_ffff_ffff_ffffu128 {
        0xffff_ffff_ffff_ffffu64
    } else {
        n as u64
    }
}

} // verus!
