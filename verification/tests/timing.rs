use std::time::Duration;
use zappy::timing::{duration_for, timeout_to_poll_milliseconds};

#[test]
fn converts_time_units_to_duration() {
    assert_eq!(Duration::from_nanos(duration_for(7, 100)), Duration::from_millis(70));
}

#[test]
fn poll_timeout_rounds_up_sub_milliseconds() {
    assert_eq!(
        timeout_to_poll_milliseconds(Some(Duration::from_micros(1).as_nanos() as u64)),
        1
    );
    assert_eq!(
        timeout_to_poll_milliseconds(Some(Duration::from_millis(2).as_nanos() as u64)),
        2
    );
    assert_eq!(timeout_to_poll_milliseconds(None), -1);
}

#[test]
fn zero_time_units_last_nothing() {
    assert_eq!(duration_for(0, 0), 0);
    assert_eq!(duration_for(126, 1), 126_000_000_000);
    assert_eq!(duration_for(1, 3), 333_333_333);
}

#[test]
fn poll_timeout_edges() {
    assert_eq!(timeout_to_poll_milliseconds(Some(0)), 0);
    assert_eq!(timeout_to_poll_milliseconds(Some(1_000_001)), 2);
    assert_eq!(timeout_to_poll_milliseconds(Some(u64::MAX)), i32::MAX);
}

#[test]
fn durations_round_to_the_nearest_nanosecond() {
    assert_eq!(duration_for(2, 3), 666_666_667);
    assert_eq!(duration_for(1, 2048), 488_281);
    assert_eq!(duration_for(3, 2048), 1_464_844);
    assert_eq!(duration_for(1, 1024), 976_562);
    assert_eq!(duration_for(3, 1024), 2_929_688);
}
