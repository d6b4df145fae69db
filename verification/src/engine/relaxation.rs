//! Time-based relaxation of the rating window.
//!
//! The longer a player waits, the wider the range of ratings it may be matched
//! with. The wait passes through five stages; the thresholds between them and
//! the half-width of each come from [`Config`].

use vstd::prelude::*;

use crate::clock::{millis_between, Clock};
use crate::config::Config;
use crate::engine::bucket::MAX_SKILL_RATING;

verus! {

/// The stage (1 to 5) after a wait of `elapsed_ms`.
pub open spec fn stage_after(elapsed_ms: u64, config: Config) -> u8 {
    if elapsed_ms < config.relaxation_stage_1_ms {
        1
    } else if elapsed_ms < config.relaxation_stage_2_ms {
        2
    } else if elapsed_ms < config.relaxation_stage_3_ms {
        3
    } else if elapsed_ms < config.relaxation_stage_4_ms {
        4
    } else {
        5
    }
}

/// The half-width of a stage.
pub open spec fn half_width(stage: u8, config: Config) -> u32 {
    if stage == 1 {
        config.relaxation_stage_1_delta
    } else if stage == 2 {
        config.relaxation_stage_2_delta
    } else if stage == 3 {
        config.relaxation_stage_3_delta
    } else if stage == 4 {
        config.relaxation_stage_4_delta
    } else {
        config.relaxation_stage_5_delta
    }
}

/// The half-width after a wait of `elapsed_ms`.
pub open spec fn window_after(elapsed_ms: u64, config: Config) -> u32 {
    half_width(stage_after(elapsed_ms, config), config)
}

/// The inclusive bounds `window` around a rating, cut off at `0` and
/// [`MAX_SKILL_RATING`].
pub open spec fn bounds_around(skill_rating: u32, window: u32) -> (u32, u32) {
    (
        if skill_rating >= window {
            (skill_rating - window) as u32
        } else {
            0
        },
        if skill_rating + window <= MAX_SKILL_RATING {
            (skill_rating + window) as u32
        } else {
            MAX_SKILL_RATING
        },
    )
}

/// The acceptable rating half-width for a player who joined at
/// `join_timestamp`, as `clock` reads now.
pub fn relaxation_window(join_timestamp: u64, config: &Config, clock: &Clock) -> (window: u32)
    ensures
        exists|now: u64|
            window == window_after(#[trigger] millis_between(join_timestamp, now), *config),
{
    let now: u64 = clock.now();
    relaxation_window_after(millis_between(join_timestamp, now), config)
}

/// The acceptable rating half-width after a wait of `elapsed_ms`.
pub fn relaxation_window_after(elapsed_ms: u64, config: &Config) -> (window: u32)
    ensures
        window == window_after(elapsed_ms, *config),
{
    if elapsed_ms < config.relaxation_stage_1_ms {
        config.relaxation_stage_1_delta
    } else if elapsed_ms < config.relaxation_stage_2_ms {
        config.relaxation_stage_2_delta
    } else if elapsed_ms < config.relaxation_stage_3_ms {
        config.relaxation_stage_3_delta
    } else if elapsed_ms < config.relaxation_stage_4_ms {
        config.relaxation_stage_4_delta
    } else {
        config.relaxation_stage_5_delta
    }
}

/// The relaxation stage (1 to 5) of a player who joined at `join_timestamp`,
/// as `clock` reads now.
pub fn relaxation_stage(join_timestamp: u64, config: &Config, clock: &Clock) -> (stage: u8)
    ensures
        exists|now: u64|
            stage == stage_after(#[trigger] millis_between(join_timestamp, now), *config),
        1 <= stage <= 5,
{
    let now: u64 = clock.now();
    relaxation_stage_after(millis_between(join_timestamp, now), config)
}

/// The relaxation stage (1 to 5) after a wait of `elapsed_ms`.
pub fn relaxation_stage_after(elapsed_ms: u64, config: &Config) -> (stage: u8)
    ensures
        stage == stage_after(elapsed_ms, *config),
        1 <= stage <= 5,
{
    if elapsed_ms < config.relaxation_stage_1_ms {
        1
    } else if elapsed_ms < config.relaxation_stage_2_ms {
        2
    } else if elapsed_ms < config.relaxation_stage_3_ms {
        3
    } else if elapsed_ms < config.relaxation_stage_4_ms {
        4
    } else {
        5
    }
}

/// The inclusive rating bounds for a player, as `clock` reads now.
pub fn scan_bounds(skill_rating: u32, join_timestamp: u64, config: &Config, clock: &Clock) -> (bounds:
    (u32, u32))
    ensures
        exists|now: u64|
            bounds == bounds_around(
                skill_rating,
                window_after(#[trigger] millis_between(join_timestamp, now), *config),
            ),
{
    let now: u64 = clock.now();
    scan_bounds_after(skill_rating, millis_between(join_timestamp, now), config)
}

/// The inclusive rating bounds for a player after a wait of `elapsed_ms`.
pub fn scan_bounds_after(skill_rating: u32, elapsed_ms: u64, config: &Config) -> (bounds: (u32, u32))
    ensures
        bounds == bounds_around(skill_rating, window_after(elapsed_ms, *config)),
{
    let window: u32 = relaxation_window_after(elapsed_ms, config);
    let min_rating: u32 = skill_rating.saturating_sub(window);
    let sum: u32 = skill_rating.saturating_add(window);
    let max_rating: u32 = if sum <= MAX_SKILL_RATING {
        sum
    } else {
        MAX_SKILL_RATING
    };
    (min_rating, max_rating)
}

/// A player's window never narrows as the wait grows, and neither does its stage.
pub proof fn law_window_never_narrows(earlier_ms: u64, later_ms: u64, config: Config)
    requires
        config.valid(),
        earlier_ms <= later_ms,
    ensures
        window_after(earlier_ms, config) <= window_after(later_ms, config),
        stage_after(earlier_ms, config) <= stage_after(later_ms, config),
{
}

/// The window always lies between the first and the last half-width.
pub proof fn law_window_stays_between_first_and_last(elapsed_ms: u64, config: Config)
    requires
        config.valid(),
    ensures
        config.relaxation_stage_1_delta <= window_after(elapsed_ms, config)
            <= config.relaxation_stage_5_delta,
{
}

/// For a rating in the valid range, the bounds are in the valid range, include
/// the rating, and never shrink as the wait grows.
pub proof fn law_bounds_include_the_rating_and_never_shrink(
    skill_rating: u32,
    earlier_ms: u64,
    later_ms: u64,
    config: Config,
)
    requires
        config.valid(),
        skill_rating <= MAX_SKILL_RATING,
        earlier_ms <= later_ms,
    ensures
        ({
            let earlier = bounds_around(skill_rating, window_after(earlier_ms, config));
            let later = bounds_around(skill_rating, window_after(later_ms, config));
            later.0 <= earlier.0 <= skill_rating <= earlier.1 <= later.1 <= MAX_SKILL_RATING
        }),
{
    law_window_never_narrows(earlier_ms, later_ms, config);
}

/// Once the fourth threshold has passed, a fifth half-width of at least
/// [`MAX_SKILL_RATING`] admits every valid rating.
pub proof fn law_last_stage_admits_everyone(skill_rating: u32, elapsed_ms: u64, config: Config)
    requires
        config.valid(),
        skill_rating <= MAX_SKILL_RATING,
        elapsed_ms >= config.relaxation_stage_4_ms,
        config.relaxation_stage_5_delta >= MAX_SKILL_RATING,
    ensures
        bounds_around(skill_rating, window_after(elapsed_ms, config)) == (0u32, MAX_SKILL_RATING),
{
}

/// The stage is one more than the number of thresholds that the wait has reached,
/// and the window is the half-width configured for it, however long the wait.
pub proof fn law_stage_counts_the_thresholds_reached(elapsed_ms: u64, config: Config)
    requires
        config.relaxation_stage_1_ms < config.relaxation_stage_2_ms,
        config.relaxation_stage_2_ms < config.relaxation_stage_3_ms,
        config.relaxation_stage_3_ms < config.relaxation_stage_4_ms,
    ensures
        stage_after(elapsed_ms, config) == 1 + (if elapsed_ms >= config.relaxation_stage_1_ms {
            1int
        } else {
            0
        }) + (if elapsed_ms >= config.relaxation_stage_2_ms {
            1int
        } else {
            0
        }) + (if elapsed_ms >= config.relaxation_stage_3_ms {
            1int
        } else {
            0
        }) + (if elapsed_ms >= config.relaxation_stage_4_ms {
            1int
        } else {
            0
        }),
        elapsed_ms < config.relaxation_stage_1_ms ==> window_after(elapsed_ms, config)
            == config.relaxation_stage_1_delta,
        config.relaxation_stage_1_ms <= elapsed_ms < config.relaxation_stage_2_ms ==> window_after(
            elapsed_ms,
            config,
        ) == config.relaxation_stage_2_delta,
        config.relaxation_stage_2_ms <= elapsed_ms < config.relaxation_stage_3_ms ==> window_after(
            elapsed_ms,
            config,
        ) == config.relaxation_stage_3_delta,
        config.relaxation_stage_3_ms <= elapsed_ms < config.relaxation_stage_4_ms ==> window_after(
            elapsed_ms,
            config,
        ) == config.relaxation_stage_4_delta,
        config.relaxation_stage_4_ms <= elapsed_ms ==> window_after(elapsed_ms, config)
            == config.relaxation_stage_5_delta,
{
}

/// The bounds hold exactly the valid ratings that differ from the player's by no
/// more than the window.
pub proof fn law_bounds_hold_the_ratings_within_the_window(
    skill_rating: u32,
    window: u32,
    other: u32,
)
    requires
        skill_rating <= 3000,
    ensures
        bounds_around(skill_rating, window).0 <= other <= bounds_around(skill_rating, window).1
            <==> other <= 3000 && other - skill_rating <= window && skill_rating - other <= window,
{
}

} // verus!
