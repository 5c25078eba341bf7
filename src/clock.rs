use vstd::prelude::*;

verus! {

/// Seconds since the Unix epoch, from the system clock.
///
/// Relies on `std::time::SystemTime::now` and `duration_since`: a clock set
/// before the epoch reads as zero.
#[verifier::external_body]
pub(crate) fn unix_time_secs() -> (r: u64) {
    match std::time::SystemTime::now().duration_since(std::time::UNIX_EPOCH) {
        Ok(d) => d.as_secs(),
        Err(_) => 0,
    }
}

} // verus!
