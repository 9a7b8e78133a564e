use arches::calendar::{
    clipped_ms, dates_in_range, day_start, day_text, local_date, local_day, offset, parse_day,
};

fn millis(text: &str) -> i64 {
    text.parse::<jiff::Timestamp>().unwrap().as_millisecond()
}

fn day(text: &str) -> i64 {
    parse_day(text).unwrap()
}

#[test]
fn local_date_follows_the_offset_not_utc() {
    let just_before_local_midnight = millis("2025-06-10T21:59:00Z");
    assert_eq!(local_date(just_before_local_midnight, 7200), "2025-06-10");
    assert_eq!(local_date(just_before_local_midnight, 0), "2025-06-10");

    let after_local_midnight = millis("2025-06-10T22:30:00Z");
    assert_eq!(local_date(after_local_midnight, 7200), "2025-06-11");
    assert_eq!(local_date(after_local_midnight, 0), "2025-06-10");
    // Honolulu is still the previous day.
    assert_eq!(local_date(after_local_midnight, -36000), "2025-06-10");
}

#[test]
fn absurd_offsets_fall_back_to_utc() {
    assert_eq!(offset(999_999), 0);
    assert_eq!(offset(7200), 7200);
    assert_eq!(offset(93_599), 93_599);
    assert_eq!(offset(-93_600), 0);
}

#[test]
fn day_start_is_local_midnight() {
    let date = day("2025-06-10");
    assert_eq!(day_start(date, 7200), millis("2025-06-09T22:00:00Z"));
    assert_eq!(day_start(date, 0), millis("2025-06-10T00:00:00Z"));
}

#[test]
fn dates_in_range_is_inclusive_and_ordered() {
    let from = day("2025-06-09");
    let to = day("2025-06-11");
    let dates: Vec<String> = dates_in_range(from, to)
        .into_iter()
        .map(day_text)
        .collect();
    assert_eq!(dates, ["2025-06-09", "2025-06-10", "2025-06-11"]);
    assert_eq!(dates_in_range(to, from).len(), 0);
    assert_eq!(dates_in_range(from, from).len(), 1);
}

#[test]
fn days_count_from_the_epoch_and_read_back() {
    assert_eq!(day("1970-01-01"), 0);
    assert_eq!(day("1969-12-31"), -1);
    assert_eq!(day("-009999-01-01"), -4_371_587);
    assert_eq!(day("9999-12-31"), 2_932_896);
    assert_eq!(day_text(20_249), "2025-06-10");
    assert_eq!(parse_day("2025-02-30"), None);
    assert_eq!(parse_day("yesterday"), None);
    // Just before the epoch in UTC is the last day of 1969.
    assert_eq!(local_day(-1, 0), -1);
}

#[test]
fn the_ends_of_time_saturate() {
    assert_eq!(day_start(-4_371_587, -93_599), -377_705_023_201_000);
    assert_eq!(day_start(2_932_897, 0), 253_402_207_200_999);
}

/// A late tram ride, 23:40 to 00:20 CEST, belongs to both days with 20 minutes in each, and
/// the two add up to the whole ride.
#[test]
fn a_ride_over_local_midnight_is_split_between_the_days() {
    let start = millis("2025-06-10T21:40:00Z");
    let end = millis("2025-06-10T22:20:00Z");
    let first = clipped_ms(start, end, 7200, 7200, day("2025-06-10"));
    let second = clipped_ms(start, end, 7200, 7200, day("2025-06-11"));
    assert_eq!(first, 20 * 60 * 1000);
    assert_eq!(second, 20 * 60 * 1000);
    assert_eq!(first + second, end - start);
    assert_eq!(clipped_ms(start, end, 7200, 7200, day("2025-06-12")), 0);
}

/// A flight out of Europe: the day is cut at the start offset's midnight on one end and the
/// end offset's on the other.
#[test]
fn a_flight_is_clipped_at_each_end_by_its_own_offset() {
    let start = millis("2025-06-10T21:30:00Z");
    let end = millis("2025-06-10T23:30:00Z");
    assert_eq!(clipped_ms(start, end, 7200, 0, day("2025-06-10")), 120 * 60 * 1000);
}
