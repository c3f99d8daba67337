//! A simulated heart-rate sensor: a random walk that is nudged back toward
//! a plausible range.
use vstd::prelude::*;
use rand::Rng;
use crate::drag::{add_clamped, clamp_i32};

verus! {

/// Below this the walk is nudged up.
pub const HR_LOW: i32 = 80;

/// Above this the walk is nudged down.
pub const HR_HIGH: i32 = 160;

/// The largest step of the walk, in beats per minute.
pub const HR_STEP: i32 = 10;

/// The rate after a step of `step`: it moves by `step`, saturating, and is
/// then nudged by 2 toward the range from `HR_LOW` to `HR_HIGH`.
pub open spec fn next_rate(hr: int, step: int) -> int {
    let moved = clamp_i32(hr + step);
    if moved < HR_LOW {
        moved + 2
    } else if moved > HR_HIGH {
        moved - 2
    } else {
        moved
    }
}

pub fn next_heart_rate(hr: i32, step: i32) -> (r: i32)
    ensures
        r as int == next_rate(hr as int, step as int),
{
    let moved = add_clamped(hr, step);
    if moved < HR_LOW {
        moved + 2
    } else if moved > HR_HIGH {
        moved - 2
    } else {
        moved
    }
}

/// Relies on `rand::Rng::gen_range` with the thread-local generator of
/// `rand::thread_rng`: a value of the half-open range `low..high`, which
/// must not be empty.
#[verifier::external_body]
fn random_in(low: i32, high: i32) -> (r: i32)
    requires
        low < high,
    ensures
        low <= r < high,
{
    rand::thread_rng().gen_range(low..high)
}

/// One step of the simulated sensor: a random step of less than `HR_STEP`
/// either way.
pub fn simulate_heart_rate(hr: i32) -> (r: i32)
    ensures
        exists|step: int| -HR_STEP <= step < HR_STEP && r as int == next_rate(hr as int, step),
{
    let step = random_in(-HR_STEP, HR_STEP);
    next_heart_rate(hr, step)
}

} // verus!
