//! Extrapolating a track from its last two observations.

use vstd::prelude::*;

verus! {

/// How far apart, in seconds, a track's last two observations are, and how far
/// past the last one `to_secs` is. `None` if there are no two observations, or
/// if the last two were made at the same time, so that they give no velocity.
///
/// `timestamps` are those of the observations, in chronological order; it is
/// only the last two that matter.
pub fn prediction_span(timestamps: &[u64], to_secs: u64) -> (span: Option<(u64, i64)>)
    requires
        timestamps@.len() >= 2 ==> timestamps@[timestamps@.len() - 2] <= timestamps@.last(),
        timestamps@.len() >= 2 && timestamps@.last() != timestamps@[timestamps@.len() - 2]
            ==> i64::MIN <= (to_secs as i64) - (timestamps@.last() as i64) <= i64::MAX,
    ensures
        span == (if timestamps@.len() < 2 || timestamps@.last() == timestamps@[timestamps@.len()
            - 2] {
            None
        } else {
            Some(
                (
                    (timestamps@.last() - timestamps@[timestamps@.len() - 2]) as u64,
                    ((to_secs as i64) - (timestamps@.last() as i64)) as i64,
                ),
            )
        }),
{
    let n: usize = timestamps.len();
    if n < 2 {
        return None;
    }
    let last: u64 = timestamps[n - 1];
    let prev: u64 = timestamps[n - 2];
    let history: u64 = last - prev;
    if history == 0 {
        return None;
    }
    Some((history, to_secs as i64 - last as i64))
}

} // verus!
