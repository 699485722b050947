//! Wall-clock time, the one input of the library that comes from the machine.
use vstd::prelude::*;

verus! {

/// Reads `SystemTime::now()` as whole seconds since the Unix epoch (zero
/// when the clock reads earlier than the epoch). The value depends on when
/// it is called, so nothing is stated of it.
#[verifier::external_body]
pub(crate) fn unix_now_secs() -> u64 {
    std::time::SystemTime::now().duration_since(std::time::UNIX_EPOCH).unwrap_or_default().as_secs()
}

} // verus!
