use vstd::prelude::*;

verus! {

/// Relies on uuid::Uuid::new_v4, read out through Uuid::as_u64_pair:
/// the low half of a freshly generated random version-4 UUID. The
/// value is random, so nothing is promised of it.
#[verifier::external_body]
pub(crate) fn fresh_id() -> u64 {
    uuid::Uuid::new_v4().as_u64_pair().1
}

/// Relies on chrono::Utc::now, read out through
/// DateTime::timestamp_millis: the current wall-clock time in
/// milliseconds since the Unix epoch. The value depends on the clock,
/// so nothing is promised of it.
#[verifier::external_body]
pub(crate) fn now_millis() -> i64 {
    chrono::Utc::now().timestamp_millis()
}

/// Relies on chrono::Utc::now, read out through
/// DateTime::timestamp_micros: the current wall-clock time in
/// microseconds since the Unix epoch. The value depends on the clock,
/// so nothing is promised of it.
#[verifier::external_body]
pub(crate) fn now_micros() -> i64 {
    chrono::Utc::now().timestamp_micros()
}

} // verus!
