use arches::api::{
    base_shift, day_range, escape, item_query, like_pattern, parse_limit, range_days, shift_for,
    source, split_commas, HighlightsRequest, RequestError, CELL_ZOOM, PIXEL_SHIFT,
};
use arches::calendar::rfc3339;
use arches::highlights::Kind;

fn params(pairs: &[(&str, &str)]) -> Vec<(String, String)> {
    pairs
        .iter()
        .map(|(key, value)| (key.to_string(), value.to_string()))
        .collect()
}

#[test]
fn limits_default_and_cap() {
    assert_eq!(parse_limit(None, 50, 500).unwrap(), 50);
    assert_eq!(parse_limit(Some("10"), 50, 500).unwrap(), 10);
    assert_eq!(parse_limit(Some("9000"), 50, 500).unwrap(), 500);
    assert!(parse_limit(Some("0"), 50, 500).is_err());
    assert!(parse_limit(Some("many"), 50, 500).is_err());
}

#[test]
fn limit_errors_say_which_rule_failed() {
    assert_eq!(parse_limit(Some("0"), 50, 500), Err(RequestError::LimitBelowOne));
    assert_eq!(parse_limit(Some("-3"), 50, 500), Err(RequestError::LimitBelowOne));
    assert_eq!(
        parse_limit(Some("many"), 50, 500),
        Err(RequestError::NotANumber("many".to_string()))
    );
    assert_eq!(
        parse_limit(Some("99999999999999999999"), 50, 500),
        Err(RequestError::NotANumber("99999999999999999999".to_string()))
    );
    assert_eq!(parse_limit(Some("500"), 50, 500), Ok(500));
}

#[test]
fn timestamps_render_as_rfc_3339() {
    assert_eq!(
        rfc3339(1749542400000).as_deref(),
        Some("2025-06-10T08:00:00Z")
    );
    assert_eq!(rfc3339(i64::MAX), None);
}

/// jiff takes a millisecond count only up to its last whole second, though a parsed instant can
/// reach a little past it.
#[test]
fn the_last_millisecond_count_is_the_last_whole_second() {
    assert_eq!(
        rfc3339(253_402_207_200_000).as_deref(),
        Some("9999-12-30T22:00:00Z")
    );
    assert_eq!(rfc3339(253_402_207_200_001), None);
    assert_eq!(rfc3339(253_402_207_200_500), None);
    assert_eq!(
        arches::gpx::parse_time("9999-12-30T22:00:00.5Z"),
        Some(253_402_207_200_500)
    );
}

#[test]
fn escapes_everything_xml_cares_about() {
    assert_eq!(escape("coffee & cake"), "coffee &amp; cake");
    assert_eq!(
        escape(r#"<a href="x">'y'</a>"#),
        "&lt;a href=&quot;x&quot;&gt;&apos;y&apos;&lt;/a&gt;"
    );
    assert_eq!(escape("Hauptbahnhof"), "Hauptbahnhof");
}

#[test]
fn escaped_text_holds_no_markup() {
    for raw in ["<>\"'&", "Café <Zürich>", "", "plain"] {
        let escaped = escape(raw);
        assert!(!escaped.contains(['<', '>', '"', '\'']), "{escaped}");
    }
}

#[test]
fn the_shift_tracks_the_zoom_and_stops_at_both_ends() {
    let shift = |zoom: f64| shift_for(zoom.round() as i64);
    assert_eq!(shift(14.0), CELL_ZOOM - 14 - 8 + PIXEL_SHIFT as u32);
    assert_eq!(shift(12.4), shift(12.0));
    assert_eq!(shift(12.6), shift(13.0));
    // One step of zoom is one step of coarsening, so cells stay the same size on screen.
    assert_eq!(shift(6.0) - shift(7.0), 1);
    // Zoomed all the way out a cell is a level 5 tile; zoomed in it is the grid itself.
    assert_eq!(shift(0.0), 16);
    assert_eq!(shift(16.0), 0);
    assert_eq!(shift(24.0), 0);
}

#[test]
fn a_shift_is_answered_from_the_coarsest_rollup_below_it() {
    assert_eq!(base_shift(&[1, 2, 4, 8], 0), 0);
    assert_eq!(base_shift(&[1, 2, 4, 8], 1), 1);
    assert_eq!(base_shift(&[1, 2, 4, 8], 7), 4);
    assert_eq!(base_shift(&[8, 4, 2, 1], 9), 8);
    assert_eq!(base_shift(&[], 9), 0);
    assert_eq!(source(0), ("heatmap_cells", String::new()));
    assert_eq!(source(4), ("heatmap_rollup", "shift = 4 AND ".to_string()));
}

#[test]
fn item_queries_select_live_items_only() {
    let query = item_query("id = ?");
    assert!(query.starts_with("SELECT id, is_visit, start_date"));
    assert!(query.contains("visit_place_id, is_visit, visit_confirmed_place"));
    assert!(query.ends_with(
        "FROM items WHERE coalesce(deleted, 0) = 0 AND coalesce(disabled, 0) = 0 AND id = ?"
    ));
}

#[test]
fn ranges_are_counted_inclusively_and_capped() {
    assert_eq!(range_days(10, 10), Ok(1));
    assert_eq!(range_days(10, 409), Ok(400));
    assert_eq!(range_days(10, 410), Err(RequestError::RangeTooLong(401)));
    assert_eq!(range_days(11, 10), Err(RequestError::FromAfterTo));
}

#[test]
fn commas_split_the_way_str_split_does() {
    assert_eq!(split_commas(""), vec![""]);
    assert_eq!(split_commas("a,,b"), vec!["a", "", "b"]);
    assert_eq!(split_commas("flight, longest"), vec!["flight", " longest"]);
    assert_eq!(split_commas(","), vec!["", ""]);
}

#[test]
fn a_highlights_request_needs_a_short_range_the_right_way_round() {
    let request =
        HighlightsRequest::parse(&params(&[("from", "2025-06-01"), ("to", "2025-06-30")])).unwrap();
    assert_eq!(request.from, "2025-06-01");
    assert_eq!(request.to, "2025-06-30");
    assert_eq!(request.kinds, Kind::ALL.to_vec());
    assert!(!request.confirmed_only);

    let err = |pairs: &[(&str, &str)]| HighlightsRequest::parse(&params(pairs)).err().unwrap();
    assert_eq!(err(&[]), RequestError::Missing("from".to_string()));
    assert_eq!(err(&[("from", "2025-06-01")]), RequestError::Missing("to".to_string()));
    assert_eq!(err(&[("to", "2025-06-30")]), RequestError::Missing("from".to_string()));
    assert_eq!(
        err(&[("from", "yesterday"), ("to", "2025-06-30")]),
        RequestError::NotADate("yesterday".to_string())
    );
    assert_eq!(err(&[("from", "2025-06-30"), ("to", "2025-06-01")]), RequestError::FromAfterTo);
    assert_eq!(
        err(&[("from", "2020-01-01"), ("to", "2025-01-01")]),
        RequestError::RangeTooLong(1828)
    );
}

#[test]
fn a_highlights_request_reads_kinds_and_confirmation() {
    let base = [("from", "2025-06-01"), ("to", "2025-06-30")];
    let with = |extra: &[(&str, &str)]| {
        let mut all = base.to_vec();
        all.extend_from_slice(extra);
        HighlightsRequest::parse(&params(&all))
    };
    let request = with(&[("kinds", "flight, longest"), ("confirmed", "true")]).unwrap();
    assert_eq!(request.kinds, vec![Kind::Flight, Kind::Longest]);
    assert!(request.confirmed_only);
    assert!(!with(&[("confirmed", "false")]).unwrap().confirmed_only);
    assert_eq!(
        with(&[("kinds", "weather")]).err(),
        Some(RequestError::NotAKind("weather".to_string()))
    );
    assert_eq!(with(&[("kinds", "")]).err(), Some(RequestError::NotAKind(String::new())));
    assert_eq!(
        with(&[("confirmed", "maybe")]).err(),
        Some(RequestError::NotTrueOrFalse("maybe".to_string()))
    );
}

#[test]
fn a_day_range_defaults_to_the_last_thirty_days() {
    let to = arches::calendar::parse_day("2025-06-30").unwrap();
    let june = arches::calendar::parse_day("2025-06-01").unwrap();
    assert_eq!(day_range(None, to), Ok((june, to)));
    assert_eq!(day_range(Some(to), to), Ok((to, to)));
    assert_eq!(day_range(Some(to + 1), to), Err(RequestError::FromAfterTo));
    assert_eq!(day_range(Some(to - 400), to), Err(RequestError::RangeTooLong(401)));
    assert_eq!(day_range(Some(to - 399), to), Ok((to - 399, to)));
}

#[test]
fn a_place_search_matches_percent_signs_literally() {
    assert_eq!(like_pattern("Café"), "%Café%");
    assert_eq!(like_pattern("100%"), "%100\\%%");
    assert_eq!(like_pattern(""), "%%");
}
