use arches::gpx::{
    leaf_named, Closing, Document, Element, GpxEvent, Leaf, Lookahead, Reading, Tag, Visit,
};
use quick_xml::escape::unescape;
use quick_xml::events::{BytesStart, Event};
use quick_xml::{Reader, XmlVersion};

type Position = (f64, f64);

fn attribute(start: &BytesStart<'_>, key: &str) -> Option<String> {
    for attribute in start.attributes() {
        let attribute = attribute.unwrap();
        if attribute.key.local_name().as_ref() == key {
            return Some(attribute.normalized_value(XmlVersion::Explicit1_0).unwrap().into_owned());
        }
    }
    None
}

fn position(start: &BytesStart<'_>) -> Option<Position> {
    let number = |raw: Option<String>| raw.and_then(|raw| raw.trim().parse::<f64>().ok());
    let latitude = number(attribute(start, "lat"));
    let longitude = number(attribute(start, "lon"));
    latitude.zip(longitude)
}

/// The XML events of a file, each resolved the way the reading expects them.
fn events(xml: &str) -> Result<Vec<GpxEvent<Position>>, quick_xml::Error> {
    let mut reader = Reader::from_str(xml);
    let mut out = Vec::new();
    loop {
        let event = reader.read_event()?;
        match event {
            Event::Eof => return Ok(out),
            Event::Start(start) => {
                let name = start.local_name().as_ref().to_string();
                let tag = match name.as_str() {
                    "gpx" => Tag::Gpx(attribute(&start, "creator")),
                    "wpt" => Tag::Wpt(position(&start)),
                    "trk" => Tag::Trk,
                    "trkpt" => Tag::Trkpt(position(&start)),
                    other => match leaf_named(other) {
                        Some(leaf) => {
                            let end = start.to_end().into_owned();
                            let raw = reader.read_text(end.name())?;
                            let text = unescape(&raw).unwrap().trim().to_string();
                            Tag::Leaf(leaf, text)
                        }
                        None => Tag::Other,
                    },
                };
                out.push(GpxEvent::Start(tag));
            }
            Event::Empty(start) => {
                let tag = match start.local_name().as_ref() {
                    "gpx" => Tag::Gpx(attribute(&start, "creator")),
                    "wpt" => Tag::Wpt(position(&start)),
                    "trkpt" => Tag::Trkpt(position(&start)),
                    _ => Tag::Other,
                };
                out.push(GpxEvent::Empty(tag));
            }
            Event::End(end) => {
                let closing = match end.local_name().as_ref() {
                    "trkpt" => Closing::Trkpt,
                    "wpt" => Closing::Wpt,
                    "trk" => Closing::Trk,
                    _ => Closing::Other,
                };
                out.push(GpxEvent::End(closing));
            }
            _ => {}
        }
    }
}

fn parse(xml: &str) -> Document<Position> {
    let mut reading = Reading::new();
    for event in events(xml).unwrap() {
        reading.step(event);
    }
    reading.finish()
}

fn next_element_time(xml: &str, skip: Option<(&str, i64)>) -> Option<i64> {
    let skip = skip.map(|(name, start)| (name.to_string(), start));
    let mut lookahead = Lookahead::new();
    for event in events(xml).unwrap() {
        if let Some(time) = lookahead.step(event, &skip) {
            return Some(time);
        }
    }
    None
}

fn time(text: &str) -> i64 {
    text.parse::<jiff::Timestamp>().unwrap().as_millisecond()
}

const DAY: &str = r#"<?xml version="1.0" encoding="UTF-8"?>
<gpx version="1.1" xmlns="http://www.topografix.com/GPX/1/1" creator="quantified-map-gpx">
  <trk>
    <name>Walking</name>
    <type>walking</type>
    <trkseg>
      <trkpt lat="51.0403" lon="13.7320">
        <ele>113.5</ele>
        <time>2016-02-18T08:00:00Z</time>
      </trkpt>
      <trkpt lat="51.0499" lon="13.7333">
        <time>2016-02-18T08:20:00Z</time>
      </trkpt>
    </trkseg>
  </trk>
  <wpt lat="51.0526" lon="13.7380">
    <time>2016-02-18T08:20:00Z</time>
    <name>coffee &amp; cake</name>
  </wpt>
  <somethingNew foo="bar">
    <time>2016-02-18T09:00:00Z</time>
  </somethingNew>
  <wpt lat="51.0380" lon="13.7300">
    <time>2016-02-18T10:00:00Z</time>
    <name>Unnamed Visit</name>
  </wpt>
</gpx>
"#;

#[test]
fn reads_tracks_and_waypoints_in_document_order() {
    let document = parse(DAY);

    assert_eq!(document.creator.as_deref(), Some("quantified-map-gpx"));
    assert_eq!(document.elements.len(), 3);

    let Element::Track(track) = &document.elements[0] else {
        panic!("first element is not a track: {:?}", document.elements[0]);
    };
    assert_eq!(track.name.as_deref(), Some("Walking"));
    assert_eq!(track.kind.as_deref(), Some("walking"));
    assert_eq!(track.points.len(), 2);
    assert_eq!(track.points[0].position.0, 51.0403);
    assert_eq!(track.points[0].position.1, 13.7320);
    let altitude = track.points[0].altitude.as_deref().and_then(|a| a.parse::<f64>().ok());
    assert_eq!(altitude, Some(113.5));
    assert_eq!(track.points[0].time, Some(time("2016-02-18T08:00:00Z")));
    // Altitude is per fix, not per track: only the older sources recorded it.
    assert_eq!(track.points[1].altitude, None);
    assert_eq!(document.elements[0].time(), Some(time("2016-02-18T08:00:00Z")));
}

#[test]
fn waypoints_decode_entities_and_unknown_elements_are_ignored() {
    let document = parse(DAY);

    let Element::Waypoint(waypoint) = &document.elements[1] else {
        panic!("second element is not a waypoint");
    };
    assert_eq!(waypoint.name.as_deref(), Some("coffee & cake"));
    assert_eq!(waypoint.position.0, 51.0526);
    assert_eq!(waypoint.time, Some(time("2016-02-18T08:20:00Z")));

    let Element::Waypoint(unnamed) = &document.elements[2] else {
        panic!("third element is not a waypoint");
    };
    assert_eq!(unnamed.name.as_deref(), Some("Unnamed Visit"));
    assert_eq!(unnamed.time, Some(time("2016-02-18T10:00:00Z")));
}

#[test]
fn self_closing_and_empty_elements_parse() {
    let document = parse(
        r#"<gpx creator="x">
                 <wpt lat="51.05" lon="13.73"/>
                 <trk><trkseg><trkpt lat="51.06" lon="13.74"/></trkseg></trk>
               </gpx>"#,
    );

    assert_eq!(document.elements.len(), 2);
    let Element::Track(track) = &document.elements[1] else {
        panic!("not a track");
    };
    assert_eq!(track.points.len(), 1);
    assert_eq!(track.points[0].time, None);
    assert_eq!(document.elements[1].time(), None);
}

#[test]
fn a_fix_without_coordinates_is_dropped_and_the_rest_survives() {
    let document = parse(
        r#"<gpx creator="x"><trk><trkseg>
                 <trkpt lon="13.74"><time>2016-02-18T08:00:00Z</time></trkpt>
                 <trkpt lat="51.06" lon="13.74"><time>2016-02-18T08:01:00Z</time></trkpt>
               </trkseg></trk></gpx>"#,
    );

    let Element::Track(track) = &document.elements[0] else {
        panic!("not a track");
    };
    assert_eq!(track.points.len(), 1);
    assert_eq!(track.points[0].time, Some(time("2016-02-18T08:01:00Z")));
}

#[test]
fn next_element_time_is_the_first_element_that_is_not_the_same_visit() {
    assert_eq!(next_element_time(DAY, None), Some(time("2016-02-18T08:00:00Z")));

    // A visit repeated at the head of the next file is the same visit, so the answer is
    // what comes after it.
    let midnight = r#"<gpx creator="x">
                 <wpt lat="51.05" lon="13.73">
                   <time>2016-02-17T22:00:00Z</time>
                   <name>4.1 WG</name>
                 </wpt>
                 <trk><trkseg><trkpt lat="51.06" lon="13.74">
                   <time>2016-02-18T07:30:00Z</time>
                 </trkpt></trkseg></trk>
               </gpx>"#;
    let start = time("2016-02-17T22:00:00Z");
    assert_eq!(
        next_element_time(midnight, Some(("4.1 WG", start))),
        Some(time("2016-02-18T07:30:00Z"))
    );
    // A different visit at the same instant is not the same visit.
    assert_eq!(next_element_time(midnight, Some(("Elsewhere", start))), Some(start));
    assert_eq!(next_element_time(midnight, None), Some(start));
}

#[test]
fn a_leaf_inside_a_fix_never_reaches_the_track_or_the_waypoint() {
    let mut reading: Reading<Position> = Reading::new();
    reading.step(GpxEvent::Start(Tag::Trk));
    reading.step(GpxEvent::Start(Tag::Trkpt(Some((1.0, 2.0)))));
    reading.step(GpxEvent::Start(Tag::Leaf(Leaf::Name, "fix".to_string())));
    reading.step(GpxEvent::Start(Tag::Leaf(Leaf::Time, "not a time".to_string())));
    reading.step(GpxEvent::End(Closing::Trkpt));
    reading.step(GpxEvent::Start(Tag::Leaf(Leaf::Name, "track".to_string())));
    reading.step(GpxEvent::End(Closing::Trk));
    let document = reading.finish();
    let Element::Track(track) = &document.elements[0] else {
        panic!("not a track");
    };
    assert_eq!(track.name.as_deref(), Some("track"));
    assert_eq!(track.points.len(), 1);
    // An unreadable timestamp costs the fix its time, nothing more.
    assert_eq!(track.points[0].time, None);
    assert_eq!(document.creator, None);
}

#[test]
fn leaves_are_known_by_their_local_name() {
    assert_eq!(leaf_named("time"), Some(Leaf::Time));
    assert_eq!(leaf_named("name"), Some(Leaf::Name));
    assert_eq!(leaf_named("type"), Some(Leaf::Type));
    assert_eq!(leaf_named("ele"), Some(Leaf::Ele));
    assert_eq!(leaf_named("desc"), None);
}

#[test]
fn a_repeat_needs_both_the_name_and_the_start() {
    let visit = Visit { time: Some(5), name: None };
    assert!(arches::gpx::repeats(&visit, &Some((String::new(), 5))));
    assert!(!arches::gpx::repeats(&visit, &Some(("x".to_string(), 5))));
    assert!(!arches::gpx::repeats(&visit, &Some((String::new(), 6))));
    assert!(!arches::gpx::repeats(&visit, &None));
    let named = Visit { time: Some(5), name: Some("home".to_string()) };
    assert!(arches::gpx::repeats(&named, &Some(("home".to_string(), 5))));
}

#[test]
fn an_untimed_visit_is_passed_over() {
    let xml = r#"<gpx><wpt lat="1" lon="2"><name>a</name></wpt>
                 <wpt lat="1" lon="2"><time>2016-02-18T09:00:00Z</time></wpt></gpx>"#;
    assert_eq!(next_element_time(xml, None), Some(time("2016-02-18T09:00:00Z")));
    assert_eq!(next_element_time("<gpx></gpx>", None), None);
}
