//! Which subscriptions hear of an observation.

use vstd::prelude::*;

verus! {

/// What dispatching an observation needs to know of a subscription.
#[derive(Debug, Clone, Copy, PartialEq, Eq)]
pub struct Subscriber {
    /// Whether the receiver is gone.
    pub closed: bool,
    /// Only deliver observations at most this old (by their own timestamp) at
    /// arrival time; 0 disables the filter.
    pub max_age_secs: u64,
    /// Whether the observation lies in the subscription's region.
    pub in_region: bool,
}

/// What becomes of an observation.
#[derive(Debug)]
pub struct Dispatch {
    /// The subscriptions to send it to, by index.
    pub deliver: Vec<usize>,
    /// Whether there are subscriptions to drop.
    pub any_closed: bool,
}

/// Whether an observation is recent enough for a subscription.
pub open spec fn fresh(max_age_secs: u64, now_secs: u64, timestamp_secs: u64) -> bool {
    max_age_secs == 0 || now_secs - timestamp_secs <= max_age_secs
}

/// Whether a subscription hears of an observation.
pub open spec fn hears(sub: Subscriber, now_secs: u64, timestamp_secs: u64) -> bool {
    !sub.closed && fresh(sub.max_age_secs, now_secs, timestamp_secs) && sub.in_region
}

/// Whether an observation is recent enough for a subscription.
pub fn is_fresh(max_age_secs: u64, now_secs: u64, timestamp_secs: u64) -> (is: bool)
    ensures
        is == fresh(max_age_secs, now_secs, timestamp_secs),
        is == (max_age_secs == 0 || now_secs <= timestamp_secs + max_age_secs),
{
    !(max_age_secs > 0 && now_secs.saturating_sub(timestamp_secs) > max_age_secs)
}

/// Which subscriptions an observation goes to, each once, in their order.
pub fn dispatch(subs: &Vec<Subscriber>, now_secs: u64, timestamp_secs: u64) -> (plan: Dispatch)
    ensures
        forall|i: int, j: int|
            0 <= i < j < plan.deliver@.len() ==> plan.deliver@[i] < plan.deliver@[j],
        forall|n: usize| #[trigger]
            plan.deliver@.contains(n) <==> n < subs@.len() && hears(
                subs@[n as int],
                now_secs,
                timestamp_secs,
            ),
        forall|n: usize| #[trigger]
            plan.deliver@.contains(n) <==> n < subs@.len() && !subs@[n as int].closed
                && subs@[n as int].in_region && (subs@[n as int].max_age_secs == 0 || now_secs
                <= timestamp_secs + subs@[n as int].max_age_secs),
        plan.any_closed == exists|i: int| 0 <= i < subs@.len() && (#[trigger] subs@[i]).closed,
{
    let mut deliver: Vec<usize> = Vec::new();
    let mut any_closed: bool = false;
    let mut i: usize = 0;
    while i < subs.len()
        invariant
            i <= subs@.len(),
            forall|x: int, y: int| 0 <= x < y < deliver@.len() ==> deliver@[x] < deliver@[y],
            forall|x: int|
                0 <= x < deliver@.len() ==> (#[trigger] deliver@[x]) < i && hears(
                    subs@[deliver@[x] as int],
                    now_secs,
                    timestamp_secs,
                ),
            forall|n: usize|
                n < i && hears(subs@[n as int], now_secs, timestamp_secs)
                    ==> #[trigger] deliver@.contains(n),
            any_closed == exists|x: int| 0 <= x < i && (#[trigger] subs@[x]).closed,
        decreases subs@.len() - i,
    {
        let ghost before = deliver@;
        let sub: Subscriber = subs[i];
        if sub.closed {
            any_closed = true;
        } else if is_fresh(sub.max_age_secs, now_secs, timestamp_secs) && sub.in_region {
            deliver.push(i);
            assert(deliver@[before.len() as int] == i);
        }
        proof {
            assert forall|n: usize| n < i && #[trigger] before.contains(n) implies deliver@.contains(n) by {
                let x = choose|x: int| 0 <= x < before.len() && before[x] == n;
                assert(deliver@[x] == n);
            }
            assert forall|n: usize|
                n < i + 1 && hears(subs@[n as int], now_secs, timestamp_secs) implies #[trigger] deliver@.contains(
                n,
            ) by {
                if n < i {
                    assert(before.contains(n));
                }
            }
        }
        i = i + 1;
    }
    Dispatch { deliver, any_closed }
}

/// A bound on the age holds for every bound: an observation is let through just
/// when adding the bound to its time reaches now, or there is no bound.
pub proof fn law_age_bound_holds(max_age_secs: u64, now_secs: u64, timestamp_secs: u64)
    ensures
        max_age_secs > 0 ==> (fresh(max_age_secs, now_secs, timestamp_secs) <==> timestamp_secs
            + max_age_secs >= now_secs),
        fresh(0, now_secs, timestamp_secs),
{
}

/// Letting through is monotone: where one observation is refused, every older
/// one is, at any later time, and under any tighter bound.
pub proof fn law_older_is_no_fresher(
    max_age_secs: u64,
    now_secs: u64,
    timestamp_secs: u64,
    tighter: u64,
    later: u64,
    older: u64,
)
    requires
        !fresh(max_age_secs, now_secs, timestamp_secs),
        0 < tighter <= max_age_secs,
        later >= now_secs,
        older <= timestamp_secs,
    ensures
        !fresh(tighter, later, older),
{
}

/// Who hears of an observation: a subscription does just when its receiver is
/// there, its region holds the observation, and its age bound, if it has one,
/// is met; and that is no matter of the other subscriptions.
pub proof fn law_who_hears(sub: Subscriber, now_secs: u64, timestamp_secs: u64)
    ensures
        hears(sub, now_secs, timestamp_secs) <==> (!sub.closed && sub.in_region && (sub.max_age_secs
            == 0 || timestamp_secs + sub.max_age_secs >= now_secs)),
{
}

} // verus!
