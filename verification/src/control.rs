//! When the frames of a game are enough to control its frequencies by, and which frame time
//! is judged.
use vstd::prelude::*;

verus! {

/// Fewest frames to control by.
pub const MIN_FRAMES: usize = 60;

/// The longest duration, in nanoseconds.
pub const DURATION_MAX_NS: u128 = 18_446_744_073_709_551_615_999_999_999;

/// The frame rate to control for.
pub open spec fn controlled_rate(frames: usize, target_fps: Option<u32>) -> Option<u32> {
    if frames < MIN_FRAMES {
        None
    } else {
        target_fps
    }
}

/// The frame rate to control for, where there are `frames` frames and the game has a target
/// rate. There is none while the frames are too few.
pub fn control_target(frames: usize, target_fps: Option<u32>) -> (target: Option<u32>)
    ensures
        target == (if frames < MIN_FRAMES {
            None
        } else {
            target_fps
        }),
        target == controlled_rate(frames, target_fps),
{
    if likely_stable::unlikely(frames < MIN_FRAMES) {
        return None;
    }
    target_fps
}

/// The frame time to judge, where `last_part_ns` and `recent_part_ns` are the parts that the
/// last frame and the recent frames have in it, and no frame has come for `additional_ns`.
pub open spec fn judged(last_part_ns: u128, recent_part_ns: u128, additional_ns: u128) -> int {
    let sum = last_part_ns + recent_part_ns;
    let blended = if sum < DURATION_MAX_NS {
        sum
    } else {
        DURATION_MAX_NS as int
    };
    if additional_ns > blended {
        additional_ns as int
    } else {
        blended
    }
}

/// The frame time to judge: the parts that the last frame and the recent frames have in it
/// put together, as far as a duration holds that, or the time for which no frame has come,
/// where that is longer.
pub fn judged_frametime(last_part_ns: u128, recent_part_ns: u128, additional_ns: u128) -> (ns: u128)
    requires
        last_part_ns <= DURATION_MAX_NS,
        recent_part_ns <= DURATION_MAX_NS,
    ensures
        ({
            let sum = last_part_ns + recent_part_ns;
            let blended = if sum < DURATION_MAX_NS {
                sum
            } else {
                DURATION_MAX_NS as int
            };
            ns == (if additional_ns > blended {
                additional_ns as int
            } else {
                blended
            })
        }),
        ns == judged(last_part_ns, recent_part_ns, additional_ns),
{
    let sum = last_part_ns + recent_part_ns;
    let blended = if sum < DURATION_MAX_NS {
        sum
    } else {
        DURATION_MAX_NS
    };
    if additional_ns == 0 {
        return blended;
    }
    if additional_ns > blended {
        additional_ns
    } else {
        blended
    }
}

/// No game is controlled before its sixtieth frame, and from then on it is where it has a
/// target rate.
pub proof fn law_controlled_from_the_sixtieth_frame(frames: usize, fps: u32)
    ensures
        controlled_rate(frames, None) is None,
        frames < 60 ==> controlled_rate(frames, Some(fps)) is None,
        frames >= 60 ==> controlled_rate(frames, Some(fps)) == Some(fps),
{
}

/// The frame time to judge is never below the time for which no frame has come, nor below the
/// two parts together as far as a duration holds them, and it is one of the two.
pub proof fn law_judged_frametime(last_part_ns: u128, recent_part_ns: u128, additional_ns: u128)
    ensures
        ({
            let ns = judged(last_part_ns, recent_part_ns, additional_ns);
            let sum = last_part_ns + recent_part_ns;
            &&& ns >= additional_ns
            &&& sum <= DURATION_MAX_NS ==> ns >= sum && (ns == additional_ns || ns == sum)
            &&& sum > DURATION_MAX_NS ==> ns >= DURATION_MAX_NS && (ns == additional_ns || ns
                == DURATION_MAX_NS)
        }),
{
}

} // verus!
