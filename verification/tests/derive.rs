use arches::calendar::parse_day;
use arches::confirmation::Confirmation;
use arches::derive::{
    day_totals_fit,
    bucket_by_date, distance_legs, is_a_day, item_dates, push_distinct, summarize, utc_offset,
    Item, PlaceInfo, Sample,
};

fn millis(text: &str) -> i64 {
    text.parse::<jiff::Timestamp>().unwrap().as_millisecond()
}

fn day(text: &str) -> i64 {
    parse_day(text).unwrap()
}

fn item(id: &str, is_visit: bool, start: &str, end: &str, offset: i32) -> Item {
    let start = millis(start);
    let end = millis(end);
    let dates = item_dates(start, end, Some(offset), Some(offset), None, None, None);
    Item {
        id: id.to_string(),
        is_visit,
        start_date: start,
        end_date: end,
        start_offset: offset,
        end_offset: offset,
        activity_type: None,
        local_start_date: dates.local_start_date.unwrap(),
        local_end_date: dates.local_end_date.unwrap(),
        visit_place_id: None,
        visit_country_code: None,
        visit_locality: None,
        confirmation: Confirmation {
            confirmed: true,
            uncertain: false,
        },
    }
}

fn sample(item_id: Option<&str>, date: &str, offset: Option<i32>) -> Sample {
    Sample {
        item_id: item_id.map(str::to_string),
        date: millis(date),
        seconds_from_gmt: offset,
        has_fix: true,
        accurate: true,
    }
}

#[test]
fn offsets_come_from_the_first_and_last_sample() {
    let dates = item_dates(
        millis("2025-06-10T06:00:00Z"),
        millis("2025-06-10T07:00:00Z"),
        Some(7200),
        Some(7200),
        None,
        None,
        None,
    );
    assert_eq!((dates.start_offset, dates.end_offset), (7200, 7200));
    assert_eq!(
        (
            dates.local_start_date.as_deref(),
            dates.local_end_date.as_deref()
        ),
        (Some("2025-06-10"), Some("2025-06-10"))
    );
}

#[test]
fn samples_without_an_offset_do_not_veto_the_ones_that_have_one() {
    // The first and last samples with an offset at all are the one in the middle.
    let dates = item_dates(
        millis("2025-06-10T06:00:00Z"),
        millis("2025-06-10T07:00:00Z"),
        Some(7200),
        Some(7200),
        None,
        None,
        None,
    );
    assert_eq!(dates.start_offset, 7200);
    assert_eq!(dates.end_offset, 7200);
}

/// A flight out of Europe: the samples at each end disagree, and both are right.
#[test]
fn a_flight_keeps_a_different_offset_at_each_end() {
    let dates = item_dates(
        millis("2025-06-10T21:30:00Z"),
        millis("2025-06-10T23:30:00Z"),
        Some(7200),
        Some(0),
        None,
        None,
        None,
    );
    assert_eq!((dates.start_offset, dates.end_offset), (7200, 0));
    // 23:30 local CEST on the 10th, landing at 23:30 UTC still on the 10th.
    assert_eq!(dates.local_start_date.as_deref(), Some("2025-06-10"));
    assert_eq!(dates.local_end_date.as_deref(), Some("2025-06-10"));
}

#[test]
fn a_sampleless_visit_falls_back_to_its_place() {
    let dates = item_dates(
        millis("2025-06-10T21:30:00Z"),
        millis("2025-06-10T23:30:00Z"),
        None,
        None,
        Some(7200),
        None,
        None,
    );
    assert_eq!((dates.start_offset, dates.end_offset), (7200, 7200));
    assert_eq!(
        (
            dates.local_start_date.as_deref(),
            dates.local_end_date.as_deref()
        ),
        (Some("2025-06-10"), Some("2025-06-11"))
    );
}

#[test]
fn a_sampleless_item_falls_back_to_its_neighbours() {
    let dates = item_dates(
        millis("2025-06-10T06:00:00Z"),
        millis("2025-06-10T07:00:00Z"),
        None,
        None,
        None,
        Some((7200, 7200)),
        Some((3600, 3600)),
    );
    // The previous item wins over the next one.
    assert_eq!(dates.start_offset, 7200);
    assert_eq!(dates.end_offset, 7200);
}

#[test]
fn the_next_item_is_used_when_there_is_no_previous_one() {
    let dates = item_dates(
        millis("2025-06-10T06:00:00Z"),
        millis("2025-06-10T07:00:00Z"),
        None,
        None,
        None,
        None,
        Some((-18000, -18000)),
    );
    assert_eq!(dates.start_offset, -18000);
    assert_eq!(dates.end_offset, -18000);
}

#[test]
fn an_item_with_nothing_to_go_on_assumes_utc() {
    let dates = item_dates(
        millis("2025-06-10T23:30:00Z"),
        millis("2025-06-11T00:30:00Z"),
        None,
        None,
        None,
        None,
        None,
    );
    assert_eq!((dates.start_offset, dates.end_offset), (0, 0));
    assert_eq!(
        (
            dates.local_start_date.as_deref(),
            dates.local_end_date.as_deref()
        ),
        (Some("2025-06-10"), Some("2025-06-11"))
    );
}

#[test]
fn an_instant_jiff_cannot_hold_has_no_local_date() {
    let dates = item_dates(i64::MIN, i64::MAX, Some(0), Some(0), None, None, None);
    assert_eq!(dates.local_start_date, None);
    assert_eq!(dates.local_end_date, None);
}

#[test]
fn a_day_needs_a_sample_or_an_item_boundary() {
    // An item stretched over a recording gap does not make the days inside the gap happen.
    let gap = item("gap", false, "2025-01-01T10:00:00Z", "2025-03-01T10:00:00Z", 0);
    assert!(!is_a_day("2025-02-01", std::slice::from_ref(&gap), &[]));
    assert!(is_a_day("2025-01-01", std::slice::from_ref(&gap), &[]));
    assert!(is_a_day("2025-03-01", std::slice::from_ref(&gap), &[]));
    assert!(is_a_day("2025-02-01", &[], &[sample(None, "2025-02-01T10:00:00Z", None)]));
}

#[test]
fn distinct_values_keep_their_first_order() {
    let mut values: Vec<String> = Vec::new();
    push_distinct(&mut values, "b");
    push_distinct(&mut values, "a");
    push_distinct(&mut values, "b");
    assert_eq!(values, ["b", "a"]);
}

#[test]
fn a_long_visit_is_bucketed_on_every_day_it_spans() {
    let visit = item("visit", true, "2025-06-10T08:00:00Z", "2025-06-12T08:00:00Z", 0);
    let other = item("trip", false, "2025-06-12T09:00:00Z", "2025-06-12T10:00:00Z", 0);
    let buckets = bucket_by_date(
        &[visit, other],
        &[day("2025-06-09"), day("2025-06-11"), day("2025-06-12")],
    );
    assert_eq!(buckets, vec![vec![], vec![0], vec![0, 1]]);
}

#[test]
fn the_main_offset_is_the_most_common_and_ties_go_up() {
    let samples = [
        sample(Some("a"), "2025-06-10T08:00:00Z", Some(3600)),
        sample(Some("a"), "2025-06-10T08:01:00Z", Some(7200)),
        sample(Some("a"), "2025-06-10T08:02:00Z", None),
    ];
    assert_eq!(utc_offset(&samples, &[]), Some(7200));
    let more = [
        sample(Some("a"), "2025-06-10T08:00:00Z", Some(3600)),
        sample(Some("a"), "2025-06-10T08:01:00Z", Some(3600)),
        sample(Some("a"), "2025-06-10T08:02:00Z", Some(7200)),
    ];
    assert_eq!(utc_offset(&more, &[]), Some(3600));
    let trip = item("trip", false, "2025-06-10T08:00:00Z", "2025-06-10T09:00:00Z", -3600);
    assert_eq!(utc_offset(&[], std::slice::from_ref(&trip)), Some(-3600));
    assert_eq!(utc_offset(&[], &[]), None);
}

#[test]
fn distance_legs_skip_long_gaps_inaccurate_fixes_and_visits() {
    let trip = item("trip", false, "2025-06-10T08:00:00Z", "2025-06-10T09:00:00Z", 0);
    let visit = item("visit", true, "2025-06-10T09:00:00Z", "2025-06-10T10:00:00Z", 0);
    let mut inaccurate = sample(Some("trip"), "2025-06-10T08:02:00Z", Some(0));
    inaccurate.accurate = false;
    let samples = [
        sample(Some("trip"), "2025-06-10T08:00:00Z", Some(0)),
        sample(Some("trip"), "2025-06-10T08:01:00Z", Some(0)),
        inaccurate,
        sample(Some("trip"), "2025-06-10T08:03:00Z", Some(0)),
        sample(Some("trip"), "2025-06-10T08:30:00Z", Some(0)),
        sample(Some("visit"), "2025-06-10T09:10:00Z", Some(0)),
        sample(Some("visit"), "2025-06-10T09:11:00Z", Some(0)),
    ];
    let legs: Vec<(usize, usize, String)> = distance_legs(&samples, &[trip, visit])
        .into_iter()
        .map(|leg| (leg.from, leg.to, leg.activity))
        .collect();
    // The inaccurate fix is bridged from the last accurate one; the half-hour gap and the
    // visit count nothing.
    assert_eq!(
        legs,
        vec![
            (0, 1, "unknown".to_string()),
            (1, 3, "unknown".to_string())
        ]
    );
}

#[test]
fn a_day_summary_adds_up_its_items() {
    let mut tram = item("tram", false, "2025-06-10T21:40:00Z", "2025-06-10T22:20:00Z", 7200);
    tram.activity_type = Some(24);
    let mut visit = item("visit", true, "2025-06-10T06:00:00Z", "2025-06-10T08:00:00Z", 7200);
    visit.visit_place_id = Some("home".to_string());
    visit.visit_country_code = Some("DE".to_string());
    visit.visit_locality = Some("Dresden".to_string());
    visit.confirmation.confirmed = false;
    let places = [PlaceInfo {
        id: "home".to_string(),
        country_code: None,
        locality: Some("Striesen".to_string()),
    }];
    let samples = [sample(Some("tram"), "2025-06-10T21:45:00Z", Some(7200))];
    let summary = summarize(day("2025-06-10"), &[visit, tram], &samples, &places);
    assert_eq!(summary.item_count, 2);
    assert_eq!((summary.visit_count, summary.trip_count), (1, 1));
    assert_eq!(summary.moving_seconds, 20 * 60);
    assert_eq!(
        summary.duration_by_type,
        vec![("stationary".to_string(), 7200), ("tram".to_string(), 20 * 60)]
    );
    assert_eq!(summary.place_ids, ["home"]);
    // The place has no country, so the visit's own code stands in; its locality wins.
    assert_eq!(summary.country_codes, ["DE"]);
    assert_eq!(summary.localities, ["Striesen"]);
    assert_eq!(summary.unconfirmed_items, 1);
    assert!(!summary.confirmed);
    assert_eq!(summary.utc_offset_seconds, Some(7200));
    assert_eq!(summary.first_sample_at, Some(millis("2025-06-10T21:45:00Z")));
}

#[test]
fn a_day_without_items_is_confirmed_and_times_are_by_time() {
    let samples = [
        sample(Some("b"), "2025-06-10T09:00:00Z", None),
        sample(Some("a"), "2025-06-10T12:00:00Z", None),
        sample(Some("c"), "2025-06-10T08:00:00Z", None),
    ];
    let summary = summarize(day("2025-06-10"), &[], &samples, &[]);
    assert!(summary.confirmed);
    assert_eq!(summary.first_sample_at, Some(millis("2025-06-10T08:00:00Z")));
    assert_eq!(summary.last_sample_at, Some(millis("2025-06-10T12:00:00Z")));
    assert_eq!(summary.utc_offset_seconds, None);
}

fn with_confirmation(mut item: Item, is_visit: bool, confirmed_place: Option<i64>, confirmed_type: Option<i64>) -> Item {
    item.confirmation = Confirmation::new(is_visit, confirmed_place, None, confirmed_type, None);
    item
}

#[test]
fn a_day_is_confirmed_only_once_every_item_on_it_is() {
    let visit = item("visit", true, "2025-06-10T06:00:00Z", "2025-06-10T07:00:00Z", 7200);
    let trip = item("trip", false, "2025-06-10T07:00:00Z", "2025-06-10T08:00:00Z", 7200);
    let samples = [
        sample(Some("visit"), "2025-06-10T06:30:00Z", Some(7200)),
        sample(Some("trip"), "2025-06-10T07:30:00Z", Some(7200)),
    ];
    let visit = with_confirmation(visit, true, Some(1), None);

    // The trip has no confirmed activity type yet, so the day is not reviewed.
    let unreviewed = with_confirmation(trip.clone(), false, None, None);
    let items = [visit.clone(), unreviewed];
    assert!(is_a_day("2025-06-10", &items, &samples));
    let summary = summarize(day("2025-06-10"), &items, &samples, &[]);
    assert_eq!(summary.unconfirmed_items, 1);
    assert!(!summary.confirmed);

    let reviewed = with_confirmation(trip, false, None, Some(24));
    let items = [visit, reviewed];
    let summary = summarize(day("2025-06-10"), &items, &samples, &[]);
    assert_eq!(summary.unconfirmed_items, 0);
    assert!(summary.confirmed);
}

/// A day of nothing but samples has nothing to review.
#[test]
fn a_day_without_items_is_confirmed() {
    let samples = [sample(Some("gone"), "2025-06-10T06:30:00Z", Some(7200))];
    assert!(is_a_day("2025-06-10", &[], &samples));
    let summary = summarize(day("2025-06-10"), &[], &samples, &[]);
    assert_eq!(summary.item_count, 0);
    assert_eq!(summary.unconfirmed_items, 0);
    assert!(summary.confirmed);
}

/// Durations come per type name in name order, whatever order the items came in.
#[test]
fn durations_are_listed_by_type_name() {
    let mut walk = item("walk", false, "2025-06-10T08:00:00Z", "2025-06-10T08:30:00Z", 7200);
    walk.activity_type = Some(2);
    let mut car = item("car", false, "2025-06-10T09:00:00Z", "2025-06-10T09:10:00Z", 7200);
    car.activity_type = Some(5);
    let mut walk_again = item("walk2", false, "2025-06-10T10:00:00Z", "2025-06-10T10:05:00Z", 7200);
    walk_again.activity_type = Some(2);
    let items = [walk, car, walk_again];
    assert!(day_totals_fit(&items, day("2025-06-10")));
    let summary = summarize(day("2025-06-10"), &items, &[], &[]);
    assert_eq!(
        summary.duration_by_type,
        vec![("car".to_string(), 10 * 60), ("walking".to_string(), 35 * 60)]
    );
}
