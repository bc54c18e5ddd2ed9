//! Pacing of the open-loop load generator: requests go out on a fixed
//! schedule whether or not earlier ones have finished.
use vstd::prelude::*;
use vstd::string::*;
use crate::metrics::{decimal, u64_decimal};

verus! {

/// Nanoseconds between requests at `target_rps` requests per second; a rate
/// of 0 counts as 1.
pub fn interval_nanos(target_rps: u64) -> (r: u64)
    ensures
        r == 1_000_000_000u64 / (if target_rps == 0 { 1 } else { target_rps }),
{
    let rps = if target_rps == 0 { 1 } else { target_rps };
    1_000_000_000u64 / rps
}

/// One step of the schedule, in nanoseconds since the run started: the
/// next deadline moves on by one interval, and the generator waits until it
/// only if it is ahead. Falling behind is not smoothed away: it does not
/// wait, and the deadline does not move to catch up.
pub fn pacing_step(next: u64, interval: u64, now: u64) -> (r: (u64, u64))
    requires
        next + interval <= u64::MAX,
    ensures
        r.0 == next + interval,
        r.1 == (if next + interval > now { next + interval - now } else { 0 }),
{
    let deadline = next + interval;
    if deadline > now {
        (deadline, deadline - now)
    } else {
        (deadline, 0)
    }
}

/// The path of the `idx`-th asset, clamped to the last of `num_keys`.
pub fn asset_key(idx: usize, num_keys: usize) -> (r: String)
    requires
        num_keys > 0,
    ensures
        r@ == seq!['/', 'a', 's', 's', 'e', 't', '/'] + decimal(
            (if idx < num_keys - 1 { idx } else { (num_keys - 1) as usize }) as nat,
        ),
{
    let i = if idx < num_keys - 1 { idx } else { num_keys - 1 };
    let digits = u64_decimal(i as u64);
    let mut out = String::new();
    out.append("/asset/");
    out.append(digits.as_str());
    proof {
        reveal_strlit("/asset/");
        assert("/asset/"@ =~= seq!['/', 'a', 's', 's', 'e', 't', '/']);
    }
    assert(out@ =~= seq!['/', 'a', 's', 's', 'e', 't', '/'] + decimal(i as nat));
    out
}

} // verus!
