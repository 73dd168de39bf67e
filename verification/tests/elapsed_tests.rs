use randomizer::elapsed::duration_components;

#[test]
fn zero_duration() {
    assert_eq!(duration_components(0), (0, 0, 0, 0));
}

#[test]
fn sub_second_durations_report_whole_milliseconds() {
    assert_eq!(duration_components(500), (0, 0, 0, 500));
    assert_eq!(duration_components(999), (0, 0, 0, 999));
}

#[test]
fn seconds_and_milliseconds() {
    assert_eq!(duration_components(1500), (0, 0, 1, 500));
    assert_eq!(duration_components(59999), (0, 0, 59, 999));
}

#[test]
fn minutes_reduce_seconds() {
    assert_eq!(duration_components(90500), (0, 1, 30, 500));
}

#[test]
fn hours_reduce_minutes() {
    // 25h 1m 1s
    assert_eq!(duration_components(90_061_000), (25, 1, 1, 0));
}

#[test]
fn a_unit_with_no_larger_neighbours_carries_the_total() {
    // 1h, zero whole minutes past the hour: the second count is the whole
    // total, as the printed summary wants it.
    assert_eq!(duration_components(3_630_000), (1, 0, 3630, 0));
}
