//! Contracts for the few std items that vstd leaves without one.

use vstd::prelude::*;

verus! {

/// Relies on `String::push`: appends the character at the end of the string.
pub assume_specification[ String::push ](s: &mut String, ch: char)
    ensures
        final(s)@ == old(s)@.push(ch),
;

} // verus!

verus! {

/// std's `Instant`, a reading of the monotonic clock; nothing inside it is visible.
#[verifier::external_type_specification]
#[verifier::external_body]
pub struct ExInstant(std::time::Instant);

/// Relies on `Instant::now`: a reading of the monotonic clock. Nothing is known of it.
pub assume_specification[ std::time::Instant::now ]() -> std::time::Instant;

/// Relies on `Instant::elapsed`: the time passed since the instant. Nothing is known of it.
pub assume_specification[ std::time::Instant::elapsed ](i: &std::time::Instant) -> core::time::Duration;

/// Relies on `Duration::as_secs`: the whole seconds of the duration.
pub assume_specification[ core::time::Duration::as_secs ](d: &core::time::Duration) -> u64;

/// Relies on `Duration::subsec_nanos`: the part of the duration below a second, in
/// nanoseconds, which std documents as less than one billion.
pub assume_specification[ core::time::Duration::subsec_nanos ](d: &core::time::Duration) -> (r:
    u32)
    ensures
        r < 1_000_000_000,
;

} // verus!
