//! Wall-clock readings for heartbeat timestamps.

use vstd::prelude::*;

verus! {

/// Relies on `std::time::SystemTime::now`: the milliseconds elapsed since
/// the Unix epoch, saturated into 64 bits, or zero when the clock stands
/// before the epoch. Nothing is assumed of the value: it depends on the
/// machine's clock.
#[verifier::external_body]
pub fn now_millis() -> u64 {
    match std::time::SystemTime::now().duration_since(std::time::UNIX_EPOCH) {
        Ok(d) => {
            let ms = d.as_millis();
            if ms > u64::MAX as u128 {
                u64::MAX
            } else {
                ms as u64
            }
        },
        Err(_) => 0,
    }
}

} // verus!
