use vstd::prelude::*;

verus! {

/// Relies on `chrono::Utc::now`: the wall clock. Nothing can be promised of
/// the value; callers state what holds of every outcome.
#[verifier::external_body]
pub(crate) fn now_millis() -> (r: i64) {
    chrono::Utc::now().timestamp_millis()
}

} // verus!
