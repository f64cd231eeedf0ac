//! Reading and showing times.
use kairos::config::DAY_MS;
use kairos::time::{
    can_show, format_exact, format_exact_and_human, format_exact_with, format_human,
    format_human_at, is_relative_time_in_range, now_ms, parse_compound_duration_ms,
    parse_timestamp, parse_timestamp_at, parse_whole, TimeError, MAX_CLOCK_MS, MIN_CLOCK_MS,
};

const NOW: i64 = 1_774_922_400_000;

#[test]
fn clock_is_after_two_thousand_twenty() {
    let ms = now_ms();
    assert!(ms > 1_577_836_800_000);
    assert!(ms <= MAX_CLOCK_MS);
}

#[test]
fn rfc3339_times_are_read() {
    assert_eq!(parse_timestamp_at("2026-03-19T12:00:00+01:00", NOW), Ok(1_773_918_000_000));
    assert_eq!(parse_timestamp_at(" 2026-03-19T11:00:00.250Z ", NOW), Ok(1_773_918_000_250));
    assert_eq!(parse_timestamp("1970-01-01T00:00:00Z"), Ok(0));
}

#[test]
fn unix_seconds_and_millis_are_told_apart_by_length() {
    assert_eq!(parse_timestamp_at("1774922400", NOW), Ok(1_774_922_400_000));
    assert_eq!(parse_timestamp_at("1774922400000", NOW), Ok(1_774_922_400_000));
    assert_eq!(parse_timestamp_at("0", NOW), Ok(0));
    assert_eq!(parse_timestamp_at("-5", NOW), Ok(-5_000));
    assert_eq!(parse_timestamp_at("+7", NOW), Ok(7_000));
    assert_eq!(parse_timestamp_at("0000000000007", NOW), Ok(7));
    assert_eq!(parse_whole("9223372036854775807"), Some(i64::MAX));
    assert_eq!(parse_whole("-9223372036854775808"), Some(i64::MIN));
    assert_eq!(parse_whole("9223372036854775808"), None);
    assert_eq!(parse_whole(""), None);
    assert_eq!(parse_whole("-"), None);
    assert_eq!(parse_whole("1 2"), None);
}

#[test]
fn now_is_read_in_any_case() {
    assert_eq!(parse_timestamp_at("now", NOW), Ok(NOW));
    assert_eq!(parse_timestamp_at("  NoW\n", NOW), Ok(NOW));
    let before = now_ms();
    let read = parse_timestamp("NOW").unwrap();
    assert!(before <= read && read <= now_ms());
}

#[test]
fn relative_times_are_taken_from_now() {
    assert_eq!(parse_timestamp_at("10m ago", NOW), Ok(NOW - 600_000));
    assert_eq!(parse_timestamp_at("2h ago", NOW), Ok(NOW - 7_200_000));
    assert_eq!(parse_timestamp_at("1d ago", NOW), Ok(NOW - DAY_MS));
    assert_eq!(parse_timestamp_at("1w ago", NOW), Ok(NOW - 7 * DAY_MS));
    assert_eq!(parse_timestamp_at("1h 30m 5s ago", NOW), Ok(NOW - 5_405_000));
}

#[test]
fn durations_are_added_up() {
    assert_eq!(parse_compound_duration_ms("1w2d3h4m5s"), Ok(788_645_000));
    assert_eq!(parse_compound_duration_ms("90 s"), Ok(90_000));
    assert_eq!(parse_compound_duration_ms("18446744073709551615w"), Ok(u64::MAX));
}

#[test]
fn each_bad_time_says_what_is_wrong() {
    let bad = |input: &str| {
        let e = parse_timestamp_at(input, NOW).unwrap_err();
        (e, e.message(input))
    };
    assert_eq!(
        bad(" yesterday "),
        (
            TimeError::Unsupported,
            "unsupported timestamp `yesterday`. Use RFC3339, unix seconds/millis, `now`, or \
             values like `2h ago`."
                .to_string()
        )
    );
    // The white space before the word is gone once the text is trimmed.
    assert_eq!(bad(" ago").0, TimeError::Unsupported);
    assert_eq!(
        bad("x  ago"),
        (TimeError::InvalidDuration, "invalid relative duration `x `".to_string())
    );
    assert_eq!(
        bad("5y ago"),
        (TimeError::UnknownUnit('y'), "unsupported duration unit `y` in `5y`".to_string())
    );
    assert_eq!(
        bad("5 ago"),
        (TimeError::MissingUnit, "missing duration unit in `5`".to_string())
    );
    assert_eq!(
        bad("18446744073709551616s ago"),
        (TimeError::NumberTooLarge, "number too large to fit in target type".to_string())
    );
    let empty = parse_compound_duration_ms("  ").unwrap_err();
    assert_eq!(empty, TimeError::EmptyDuration);
    assert_eq!(empty.message("  "), "empty relative duration");
}

#[test]
fn ranges_of_relative_times_are_known() {
    assert!(is_relative_time_in_range("10m ago"));
    assert!(is_relative_time_in_range("tomorrow"));
    // The duration is taken modulo 64 bits, which makes it a small negative number.
    assert!(is_relative_time_in_range("18446744073709551615w ago"));
    assert_eq!(parse_timestamp_at("18446744073709551615w ago", NOW), Ok(NOW + 1));
    // Here it is a large negative one.
    assert!(!is_relative_time_in_range("9223372036854776s ago"));
}

#[test]
fn distances_from_now_are_shown() {
    let at = |delta: i64| format_human_at(NOW - delta, NOW);
    assert_eq!(at(0), "0 seconds ago");
    assert_eq!(at(1_999), "1 second ago");
    assert_eq!(at(59_999), "59 seconds ago");
    assert_eq!(at(60_000), "1 minute ago");
    assert_eq!(at(3_599_999), "59 minutes ago");
    assert_eq!(at(3_600_000), "1 hour ago");
    assert_eq!(at(DAY_MS - 1), "23 hours ago");
    assert_eq!(at(DAY_MS), "1 day ago");
    assert_eq!(at(15 * DAY_MS), "15 days ago");
    assert_eq!(at(-1), "in 0 seconds");
    assert_eq!(at(-2 * DAY_MS), "in 2 days");
}

#[test]
fn exact_times_have_date_time_and_zone() {
    let shown = format_exact(1_773_918_000_123);
    assert_eq!(shown.len(), "2026-03-19 12:00:00.123 +01:00".len());
    assert!(shown.starts_with("2026-03-"));
    assert!(shown.contains(".123 "));
    assert_ne!(format_exact(1_773_918_000_124), shown);
    assert_ne!(format_exact(1_773_918_060_123), shown);
    assert!(shown[24..25] == *"+" || shown[24..25] == *"-");
    assert_eq!(&shown[27..28], ":");
    let near_zero = format_exact(7);
    assert!(near_zero.contains(":00.007 "));
}

#[test]
fn times_beyond_the_clock_are_shown_as_numbers() {
    assert_eq!(format_exact(i64::MAX), "9223372036854775807 ms");
    assert_eq!(format_exact(MAX_CLOCK_MS + 1), format!("{} ms", MAX_CLOCK_MS + 1));
    assert_eq!(format_exact(MIN_CLOCK_MS - 1), format!("{} ms", MIN_CLOCK_MS - 1));
    assert!(!format_exact(MAX_CLOCK_MS).ends_with(" ms"));
    assert!(!format_exact(MIN_CLOCK_MS).ends_with(" ms"));
    assert_eq!(format_exact_with(5, None), "5 ms");
    assert_eq!(format_exact_with(5, Some("then".to_string())), "then");
}

#[test]
fn exact_and_human_stand_together() {
    let ms = now_ms() - 7_200_000 - 30_000;
    assert!(can_show(ms));
    assert!(!can_show(i64::MIN));
    let shown = format_exact_and_human(ms);
    assert!(shown.ends_with(" (2 hours ago)"));
    assert!(shown.starts_with(&format_exact(ms)));
    assert_eq!(format_human(ms), "2 hours ago");
}
