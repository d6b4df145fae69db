//! Small helpers: clocks, clamping, averages and bit counts.

use matchmaker::clock::{millis_between, whole_seconds, Clock};
use matchmaker::engine::matcher::unix_ms;
use matchmaker::utils::{
    average_u64, clamp_rating, now_unix_ms, now_unix_secs, popcount_u16, total_u64, unix_ms_of,
    unix_secs_of,
};

#[test]
fn test_now_unix_ms_is_plausible() {
    let ts = now_unix_ms();
    // Must be after 2024-01-01T00:00:00Z = 1_704_067_200_000 ms
    assert!(ts > 1_704_067_200_000, "timestamp must be after 2024-01-01");
}

#[test]
fn test_now_unix_secs_is_plausible() {
    let ts = now_unix_secs();
    assert!(ts > 1_704_067_200, "timestamp must be after 2024-01-01");
}

#[test]
fn test_unix_ms_is_reasonable() {
    let ts = unix_ms();
    assert!(ts > 1_704_067_200_000, "unix_ms must return a plausible timestamp");
}

#[test]
fn test_clamp_rating_within_range() {
    assert_eq!(clamp_rating(1000, 3000), 1000);
}

#[test]
fn test_clamp_rating_at_max() {
    assert_eq!(clamp_rating(3000, 3000), 3000);
}

#[test]
fn test_clamp_rating_above_max() {
    assert_eq!(clamp_rating(5000, 3000), 3000);
}

#[test]
fn test_average_u64_normal() {
    assert_eq!(average_u64(&[100, 200, 300]), 200);
}

#[test]
fn test_average_u64_empty() {
    assert_eq!(average_u64(&[]), 0);
}

#[test]
fn test_average_u64_single() {
    assert_eq!(average_u64(&[42]), 42);
}

#[test]
fn test_popcount_u16_zero() {
    assert_eq!(popcount_u16(0b0000_0000_0000_0000), 0);
}

#[test]
fn test_popcount_u16_all_ones() {
    assert_eq!(popcount_u16(0b0000_0011_1111_1111), 10);
}

#[test]
fn test_popcount_u16_five_bits() {
    // 0b0000_0001_0001_0111 = bits 0,1,2,4,8 set = 5 bits
    assert_eq!(popcount_u16(0b0000_0001_0001_0111), 5);
}

#[test]
fn popcount_agrees_with_the_hardware() {
    for mask in 0..=u16::MAX {
        assert_eq!(popcount_u16(mask), mask.count_ones());
    }
}

#[test]
fn average_rounds_down() {
    assert_eq!(average_u64(&[1, 2]), 1);
    assert_eq!(average_u64(&[u64::MAX - 1, 1]), u64::MAX / 2);
    assert_eq!(total_u64(&[1, 2, 3]), 6);
}

#[test]
fn clock_readings_become_unix_time() {
    assert_eq!(unix_ms_of(None), 0);
    assert_eq!(unix_ms_of(Some((1, 999_999))), 1000);
    assert_eq!(unix_ms_of(Some((1_704_067_200, 123_456_789))), 1_704_067_200_123);
    assert_eq!(unix_ms_of(Some((u64::MAX, 0))), (u64::MAX as u128 * 1000) as u64);
    assert_eq!(unix_secs_of(None), 0);
    assert_eq!(unix_secs_of(Some((7, 999_999_999))), 7);
}

#[test]
fn wall_clock_readings_agree() {
    let before = now_unix_secs();
    let millis = now_unix_ms();
    let after = now_unix_secs();
    assert!(before <= millis / 1000 && millis / 1000 <= after);
}

#[test]
fn monotonic_clock_does_not_go_back() {
    let clock = Clock::start();
    let copy = clock;
    let first = clock.now();
    let second = copy.now();
    assert!(first <= second);
    // A clock starts near zero.
    assert!(first < 60_000_000_000);
}

#[test]
fn elapsed_time_is_whole_milliseconds() {
    assert_eq!(millis_between(0, 999_999), 0);
    assert_eq!(millis_between(0, 1_000_000), 1);
    assert_eq!(millis_between(1_000_000, 5_500_000), 4);
    assert_eq!(millis_between(5, 5), 0);
    assert_eq!(millis_between(9_000_000, 1_000_000), 0);
    assert_eq!(whole_seconds(2_999_999_999), 2);
}
