use rusty_chromaprint::utils::DurationDisplay;

#[test]
fn duration_display_shows_hours_minutes_seconds_and_hundredths() {
    assert_eq!(DurationDisplay(0).text(), "0:00:00.00");
    assert_eq!(DurationDisplay(5).text(), "0:00:00.05");
    assert_eq!(DurationDisplay(1234).text(), "0:00:12.34");
    assert_eq!(DurationDisplay(366_101).text(), "1:01:01.01");
    assert_eq!(DurationDisplay(35_999_99).text(), "9:59:59.99");
    assert_eq!(DurationDisplay(36_000_00).text(), "10:00:00.00");
    assert_eq!(DurationDisplay(u64::MAX).text(), "51240955760304:18:36.15");
}

#[test]
fn duration_display_parts() {
    assert_eq!(DurationDisplay(366_101).parts(), (1, 1, 1, 1));
    assert_eq!(DurationDisplay(0).parts(), (0, 0, 0, 0));
    assert_eq!(DurationDisplay(12_345_678).parts(), (34, 17, 36, 78));
}
