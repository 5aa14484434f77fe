//! The server's clock.
use vstd::prelude::*;

verus! {

/// Relies on SystemTime::elapsed, called on the Unix epoch: the time since
/// then, in milliseconds; `None` when the clock stands before the epoch.
/// Nothing is promised of the value: it is the machine's clock.
#[verifier::external_body]
fn millis_since_epoch() -> (r: Option<u128>) {
    std::time::UNIX_EPOCH.elapsed().ok().map(|d| d.as_millis())
}

/// A clock reading in milliseconds as 64 bits: 0 when the clock stands
/// before the epoch, the largest value past 64 bits.
pub fn millis_to_u64(ms: Option<u128>) -> (r: u64)
    ensures
        r == match ms {
            None => 0,
            Some(m) => if m > u64::MAX as u128 {
                u64::MAX
            } else {
                m as u64
            },
        },
{
    match ms {
        Some(m) => {
            if m > u64::MAX as u128 {
                u64::MAX
            } else {
                m as u64
            }
        },
        None => 0,
    }
}

/// Milliseconds since the Unix epoch by the machine's clock, converted by
/// [`millis_to_u64`].
pub fn now_ms() -> (r: u64) {
    millis_to_u64(millis_since_epoch())
}

} // verus!
