use arches::enums::ActivityType;
use arches::gpx::Point;
use arches::history::{
    activity_type, covered_by_arc, is_gpx_name, link_items, trip_fixes, trip_id, trip_sample_id,
    visit_end, visit_ids, GpxFile, ItemLink,
};
use arches::ids::deterministic_id;

const SOURCE: &str = "quantified-map-gpx";

fn millis(text: &str) -> i64 {
    text.parse::<jiff::Timestamp>().unwrap().as_millisecond()
}

fn file(name: &str) -> GpxFile {
    GpxFile {
        path: format!("/gpx/{name}"),
        name: name.to_string(),
        mtime: 0,
        len: 0,
    }
}

#[test]
fn a_file_is_keyed_and_dated_by_its_name() {
    let day = file("2016-02-18.gpx");
    assert_eq!(day.relative(), "gpx/2016-02-18.gpx");
    assert_eq!(day.date_from_name(), arches::calendar::parse_day("2016-02-18"));
    assert_eq!(file("export.gpx").date_from_name(), None);
    assert!(is_gpx_name("2016-02-18.gpx"));
    assert!(!is_gpx_name(".2016-02-18.gpx"));
    assert!(!is_gpx_name("2016-02-18.kml"));
}

#[test]
fn arc_wins_from_its_first_day_on() {
    assert!(covered_by_arc(Some(100), Some(100)));
    assert!(covered_by_arc(Some(100), Some(101)));
    assert!(!covered_by_arc(Some(100), Some(99)));
    assert!(!covered_by_arc(None, Some(99)));
    assert!(!covered_by_arc(Some(100), None));
}

#[test]
fn track_types_map_onto_arc_columns() {
    let walking = activity_type(Some(" walking "));
    assert_eq!(walking.classified, ActivityType::Walking);
    assert_eq!(walking.confirmed, Some(ActivityType::Walking));
    assert!(!walking.uncertain);
    let transport = activity_type(Some("transport"));
    assert_eq!(transport.classified, ActivityType::Car);
    assert_eq!(transport.confirmed, None);
    assert!(transport.uncertain);
    for unknown in [None, Some("unknown"), Some("teleporting")] {
        let kind = activity_type(unknown);
        assert_eq!(kind.classified, ActivityType::Unknown);
        assert_eq!(kind.confirmed, None);
        assert!(kind.uncertain);
    }
}

#[test]
fn a_visit_ends_at_the_next_element_within_a_day() {
    let start = millis("2016-02-18T08:10:00Z");
    assert_eq!(visit_end(start, Some(millis("2016-02-18T09:00:00Z"))), millis("2016-02-18T09:00:00Z"));
    assert_eq!(visit_end(start, Some(millis("2016-03-18T09:00:00Z"))), millis("2016-02-19T08:10:00Z"));
    assert_eq!(visit_end(start, Some(millis("2016-02-18T08:00:00Z"))), start);
    assert_eq!(visit_end(start, None), millis("2016-02-18T09:10:00Z"));
}

#[test]
fn element_ids_are_hashes_of_file_and_position() {
    assert_eq!(
        trip_id(SOURCE, "2016-02-18.gpx", 0),
        deterministic_id(SOURCE, "trip", "2016-02-18.gpx#0")
    );
    assert_eq!(
        trip_sample_id(SOURCE, "2016-02-18.gpx", 2, 7),
        deterministic_id(SOURCE, "sample", "2016-02-18.gpx#2#7")
    );
    let ids = visit_ids(SOURCE, Some("Zwinger"), millis("2016-02-18T08:10:00Z"));
    assert_eq!(ids.item, deterministic_id(SOURCE, "visit", "Zwinger@2016-02-18T08:10:00Z"));
    assert_eq!(ids.sample, deterministic_id(SOURCE, "visit-sample", "Zwinger@2016-02-18T08:10:00Z"));
    assert_eq!(ids.place, Some(deterministic_id(SOURCE, "place", "Zwinger")));
    let unnamed = visit_ids(SOURCE, None, millis("2016-02-18T09:10:00Z"));
    assert_eq!(unnamed.name, "Unnamed Visit");
    assert_eq!(unnamed.place, None);
    assert_eq!(
        unnamed.item,
        deterministic_id(SOURCE, "visit", "Unnamed Visit@2016-02-18T09:10:00Z")
    );
}

fn ids(names: &[&str]) -> Vec<String> {
    names.iter().map(|name| name.to_string()).collect()
}

#[test]
fn items_are_chained_in_order_onto_the_previous_file() {
    let previous = ItemLink {
        id: "p".to_string(),
        previous_id: Some("pp".to_string()),
    };
    let links = link_items(&ids(&["a", "b", "c"]), Some(previous));
    let pairs: Vec<(Option<&str>, Option<&str>)> = links
        .links
        .iter()
        .map(|(prev, next)| (prev.as_deref(), next.as_deref()))
        .collect();
    assert_eq!(
        pairs,
        [(Some("p"), Some("b")), (Some("a"), Some("c")), (Some("b"), None)]
    );
    assert_eq!(links.link_back, Some(("p".to_string(), "a".to_string())));
    let last = links.last.unwrap();
    assert_eq!((last.id.as_str(), last.previous_id.as_deref()), ("c", Some("b")));
}

#[test]
fn a_midnight_copy_of_the_last_visit_inherits_its_link() {
    let previous = ItemLink {
        id: "visit".to_string(),
        previous_id: Some("trip".to_string()),
    };
    let links = link_items(&ids(&["visit", "walk"]), Some(previous));
    assert_eq!(links.links[0], (Some("trip".to_string()), Some("walk".to_string())));
    assert_eq!(links.links[1], (Some("visit".to_string()), None));
    // The forward link is written back in case the copy's row is not the one kept.
    assert_eq!(links.link_back, Some(("visit".to_string(), "walk".to_string())));
}

#[test]
fn a_file_without_a_predecessor_starts_a_chain() {
    let links = link_items(&ids(&["a"]), None);
    assert_eq!(links.links, vec![(None, None)]);
    assert_eq!(links.link_back, None);
    let empty = link_items(&ids(&[]), None);
    assert!(empty.links.is_empty());
    assert!(empty.last.is_none());
}

#[test]
fn a_repeated_item_keeps_the_link_of_its_first_copy() {
    let links = link_items(&ids(&["a", "visit", "visit", "b"]), None);
    assert_eq!(links.links[0], (None, Some("visit".to_string())));
    assert_eq!(links.links[1], (Some("a".to_string()), None));
    // The same item again: no link between the copies, and the copy inherits the previous.
    assert_eq!(links.links[2], (Some("a".to_string()), Some("b".to_string())));
    assert_eq!(links.links[3], (Some("visit".to_string()), None));
    assert_eq!(links.last.map(|l| l.id), Some("b".to_string()));
}

fn fix(time: Option<i64>) -> Point<(f64, f64)> {
    Point { position: (51.0, 13.7), altitude: None, time }
}

#[test]
fn a_trip_needs_two_timed_fixes() {
    assert_eq!(trip_fixes(&vec![fix(Some(1)), fix(None), fix(Some(3))]), Some(vec![0, 2]));
    // A single fix is a sliver at a segment boundary, not a trip.
    assert_eq!(trip_fixes(&vec![fix(None), fix(Some(3))]), None);
    assert_eq!(trip_fixes::<(f64, f64)>(&Vec::new()), None);
}
