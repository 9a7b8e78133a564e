use arches::calendar::parse_day;
use arches::export::{gpx_document, GpxEntry, GpxFix};
use arches::gpx::parse_time;

fn millis(text: &str) -> i64 {
    parse_time(text).unwrap()
}

fn at(lat: &str, lon: &str) -> Option<(String, String)> {
    Some((lat.to_string(), lon.to_string()))
}

const HEADER: &str = "<?xml version=\"1.0\" encoding=\"UTF-8\"?>\n<gpx version=\"1.1\" creator=\"arches\" xmlns=\"http://www.topografix.com/GPX/1/1\">\n";

#[test]
fn an_empty_day_is_a_header_a_name_and_a_footer() {
    assert!(parse_day("2025-06-10").is_some());
    let gpx = gpx_document("2025-06-10", &[]);
    assert_eq!(
        gpx,
        format!("{HEADER}  <metadata><name>2025-06-10</name></metadata>\n</gpx>\n")
    );
}

#[test]
fn a_visit_is_a_waypoint_named_by_title_then_place_then_visit() {
    let visit = |title: Option<&str>, place: Option<&str>| GpxEntry::Visit {
        position: at("51.0403", "13.732"),
        start_date: millis("2025-06-10T08:00:00Z"),
        custom_title: title.map(str::to_string),
        place_name: place.map(str::to_string),
    };
    let gpx = gpx_document(
        "2025-06-10",
        &[
            visit(Some("coffee & cake"), Some("Dresden Hauptbahnhof")),
            visit(None, Some("Dresden Hauptbahnhof")),
            visit(None, None),
        ],
    );
    let waypoint = |name: &str| {
        format!(
            "  <wpt lat=\"51.0403\" lon=\"13.732\">\n    <time>2025-06-10T08:00:00Z</time>\n    <name>{name}</name>\n  </wpt>\n"
        )
    };
    assert_eq!(
        gpx,
        format!(
            "{HEADER}  <metadata><name>2025-06-10</name></metadata>\n{}{}{}</gpx>\n",
            waypoint("coffee &amp; cake"),
            waypoint("Dresden Hauptbahnhof"),
            waypoint("visit")
        )
    );
    assert!(!gpx.contains("coffee & cake"));
}

#[test]
fn a_visit_without_a_position_and_a_trip_without_fixes_are_left_out() {
    let gpx = gpx_document(
        "2025-06-10",
        &[
            GpxEntry::Visit {
                position: None,
                start_date: millis("2025-06-10T08:00:00Z"),
                custom_title: Some("home".to_string()),
                place_name: None,
            },
            GpxEntry::Trip { activity_type: Some("tram".to_string()), start_date: 0, fixes: None },
        ],
    );
    assert_eq!(gpx, format!("{HEADER}  <metadata><name>2025-06-10</name></metadata>\n</gpx>\n"));
}

#[test]
fn a_trip_is_a_track_of_its_positioned_fixes() {
    let start = millis("2025-06-10T08:20:00Z");
    let gpx = gpx_document(
        "2025-06-10",
        &[GpxEntry::Trip {
            activity_type: Some("tram".to_string()),
            start_date: start,
            fixes: Some(vec![
                GpxFix { position: at("51.0403", "13.732"), altitude: Some("113".to_string()), date: start },
                GpxFix { position: None, altitude: Some("1".to_string()), date: start + 1000 },
                GpxFix { position: at("51.05", "13.74"), altitude: None, date: millis("2025-06-10T08:21:00Z") },
            ]),
        }],
    );
    assert_eq!(
        gpx,
        format!(
            "{HEADER}  <metadata><name>2025-06-10</name></metadata>\n  <trk>\n    <name>tram 2025-06-10T08:20:00Z</name>\n    <type>tram</type>\n    <trkseg>\n      <trkpt lat=\"51.0403\" lon=\"13.732\">\n        <ele>113</ele>\n        <time>2025-06-10T08:20:00Z</time>\n      </trkpt>\n      <trkpt lat=\"51.05\" lon=\"13.74\">\n        <time>2025-06-10T08:21:00Z</time>\n      </trkpt>\n    </trkseg>\n  </trk>\n</gpx>\n"
        )
    );
}

#[test]
fn a_trip_without_a_type_or_a_representable_start_is_named_unknown() {
    let gpx = gpx_document(
        "<day>",
        &[GpxEntry::Trip { activity_type: None, start_date: i64::MAX, fixes: Some(vec![]) }],
    );
    assert_eq!(
        gpx,
        format!(
            "{HEADER}  <metadata><name>&lt;day&gt;</name></metadata>\n  <trk>\n    <name>unknown</name>\n    <type>unknown</type>\n    <trkseg>\n    </trkseg>\n  </trk>\n</gpx>\n"
        )
    );
}
