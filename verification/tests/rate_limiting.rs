use chrono::{DateTime, Local, TimeZone};
use shelv::rate_limiting::{ApiCallRecord, RateLimiter};
use std::time::Duration;

fn nanos(t: DateTime<Local>) -> i64 {
    t.timestamp_nanos_opt().unwrap()
}

fn window(d: Duration) -> u64 {
    d.as_nanos() as u64
}

#[test]
fn test_rate_limiter_allows_initial_calls() {
    let mut limiter = RateLimiter::new(3, window(Duration::from_secs(60)));
    let base_time = Local.with_ymd_and_hms(2023, 1, 1, 12, 0, 0).unwrap();

    assert!(limiter.try_add_call_record(ApiCallRecord::new(nanos(base_time))));
    assert!(limiter.try_add_call_record(ApiCallRecord::new(nanos(base_time))));
    assert!(limiter.try_add_call_record(ApiCallRecord::new(nanos(base_time))));
    assert_eq!(limiter.calls_count(), 3);
}

#[test]
fn test_rate_limiter_blocks_excess_calls() {
    let mut limiter = RateLimiter::new(2, window(Duration::from_secs(60)));
    let base_time = Local.with_ymd_and_hms(2023, 1, 1, 12, 0, 0).unwrap();

    assert!(limiter.try_add_call_record(ApiCallRecord::new(nanos(base_time))));
    assert!(limiter.try_add_call_record(ApiCallRecord::new(nanos(base_time))));
    assert!(!limiter.try_add_call_record(ApiCallRecord::new(nanos(base_time))));
    assert_eq!(limiter.calls_count(), 2);
}

#[test]
fn test_rate_limiter_cleans_old_calls() {
    let mut limiter = RateLimiter::new(2, window(Duration::from_secs(60)));
    let base_time = Local.with_ymd_and_hms(2023, 1, 1, 12, 0, 0).unwrap();
    let later_time = base_time + chrono::Duration::seconds(70);

    assert!(limiter.try_add_call_record(ApiCallRecord::new(nanos(base_time))));
    assert!(limiter.try_add_call_record(ApiCallRecord::new(nanos(base_time))));
    assert!(!limiter.try_add_call_record(ApiCallRecord::new(nanos(base_time))));

    assert!(limiter.try_add_call_record(ApiCallRecord::new(nanos(later_time))));
    assert_eq!(limiter.calls_count(), 2);
}

#[test]
fn test_empty_rate_limiter() {
    let limiter = RateLimiter::new(5, window(Duration::from_secs(60)));
    assert_eq!(limiter.calls_count(), 0);
}

#[test]
fn a_call_exactly_one_window_later_is_still_refused() {
    let mut limiter = RateLimiter::new(1, 10);
    assert!(limiter.try_add_call_record(ApiCallRecord::new(100)));
    assert!(!limiter.try_add_call_record(ApiCallRecord::new(110)));
    assert!(limiter.try_add_call_record(ApiCallRecord::new(111)));
    assert!(!limiter.try_add_call_record(ApiCallRecord::new(115)));
    assert_eq!(limiter.calls_count(), 1);
}

#[test]
fn a_limiter_without_capacity_refuses_everything() {
    let mut limiter = RateLimiter::new(0, 0);
    assert!(!limiter.try_add_call_record(ApiCallRecord::new(i64::MAX)));
    assert_eq!(limiter.calls_count(), 0);
}

#[test]
fn the_oldest_call_makes_room_first() {
    let mut limiter = RateLimiter::new(2, 5);
    assert!(limiter.try_add_call_record(ApiCallRecord::new(0)));
    assert!(limiter.try_add_call_record(ApiCallRecord::new(4)));
    assert!(limiter.try_add_call_record(ApiCallRecord::new(6)));
    assert!(!limiter.try_add_call_record(ApiCallRecord::new(9)));
    assert!(limiter.try_add_call_record(ApiCallRecord::new(10)));
    assert_eq!(limiter.calls_count(), 2);
}
