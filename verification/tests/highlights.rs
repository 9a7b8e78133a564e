use anyhow::Result;

use arches::enums::ActivityType;
use arches::highlights::{
    compute, countries, country_name, flight, format_distance, localities, longest,
    nearest_visit, DayRow, Detail, Direction, Endpoint, FlightRow, Highlight, Input, Kind,
    Neighbour, TripRow, MAX_HOPS,
};

fn day(date: &str, countries: &[&str], localities: &[&str], confirmed: bool) -> DayRow {
    DayRow {
        date: date.to_string(),
        country_codes: countries.iter().map(|code| code.to_string()).collect(),
        localities: localities.iter().map(|name| name.to_string()).collect(),
        confirmed,
    }
}

/// A trip of `metres`, held in millimetres.
fn trip(id: &str, date: &str, activity: ActivityType, metres: u64) -> TripRow {
    TripRow {
        item_id: id.to_string(),
        date: date.to_string(),
        activity_type: activity,
        distance_mm: Some(metres * 1000),
        duration_seconds: 600,
        confirmed: true,
    }
}

fn titles(highlights: &[Highlight]) -> Vec<&str> {
    highlights
        .iter()
        .map(|highlight| highlight.title.as_str())
        .collect()
}

/// "First" means first ever, not first in the range: a country seen before `from` is old
/// news however often it comes back.
#[test]
fn a_country_is_reported_only_on_the_day_it_was_first_seen() {
    let days = [
        day("2024-01-05", &["de"], &["Dresden"], true),
        day("2024-06-01", &["de"], &["Dresden"], true),
        day("2024-06-02", &["pt"], &["Lisboa"], true),
        day("2024-06-09", &["pt"], &["Porto"], false),
    ];

    let found = countries(&days, "2024-06-01", "2024-06-30");

    assert_eq!(titles(&found), ["First time in Portugal"]);
    assert_eq!(found[0].date, "2024-06-02");
    assert_eq!(
        found[0].detail,
        Detail::Country {
            country_code: "PT".to_string(),
            country: Some("Portugal".to_string()),
        }
    );
    // Germany was first seen well before the range, so nothing is reported for it.
    assert!(
        countries(&days, "2024-06-01", "2024-06-30")
            .iter()
            .all(|highlight| highlight.date != "2024-01-05")
    );
    // A day after `to` has not happened yet as far as this request is concerned.
    assert!(countries(&days, "2024-06-01", "2024-06-05").len() == 1);
}

/// Arc stores a country code as its source had it, so the same country shows up as "pt" one
/// day and "PT" the next, and sometimes both on one day.
#[test]
fn a_country_is_the_same_country_whatever_its_case() {
    let days = [
        day("2024-06-02", &["pt", "PT"], &["Porto"], true),
        day("2024-06-09", &["PT"], &["Porto"], true),
    ];

    let found = countries(&days, "2024-06-01", "2024-06-30");

    assert_eq!(titles(&found), ["First time in Portugal"]);
    // One country on the day, so the locality is not in doubt either.
    assert_eq!(
        localities(&days, "2024-06-01", "2024-06-30")[0].detail,
        Detail::Locality {
            locality: "Porto".to_string(),
            country_code: Some("PT".to_string()),
        }
    );
}

/// There is a Paris in Texas, so the same name in another country is a first time again.
#[test]
fn a_locality_is_first_per_country() {
    let days = [
        day("2024-02-01", &["fr"], &["Paris"], true),
        day("2024-03-01", &["fr"], &["Paris"], true),
        day("2024-04-01", &["us"], &["Paris"], false),
        // Two countries in one day: which one the locality is in is not knowable, and a
        // name that has already been somewhere is not a first time again.
        day("2024-05-01", &["de", "cz"], &["Paris", "Praha"], true),
        // Nor the other way round: Praha is known now, but it is not new any more.
        day("2024-05-02", &["cz"], &["Praha"], true),
    ];

    let found = localities(&days, "2024-01-01", "2024-12-31");

    assert_eq!(
        titles(&found),
        [
            "First time in Paris",
            "First time in Paris",
            "First time in Praha"
        ],
        "{found:?}"
    );
    assert_eq!(found[0].date, "2024-02-01");
    assert_eq!(
        found[0].detail,
        Detail::Locality {
            locality: "Paris".to_string(),
            country_code: Some("FR".to_string()),
        }
    );
    assert_eq!(found[1].date, "2024-04-01");
    assert!(!found[1].confirmed);
    assert_eq!(found[2].date, "2024-05-01");
    assert_eq!(
        found[2].detail,
        Detail::Locality {
            locality: "Praha".to_string(),
            country_code: None,
        }
    );
}

#[test]
fn the_longest_trip_per_type_needs_a_kilometre() {
    let trips = [
        trip("a", "2024-06-01", ActivityType::Walking, 900),
        trip("b", "2024-06-02", ActivityType::Walking, 4200),
        trip("c", "2024-06-03", ActivityType::Walking, 3100),
        trip("d", "2024-06-04", ActivityType::Cycling, 62_000),
        trip("e", "2024-06-05", ActivityType::Running, 800),
    ];

    let found = longest(&trips);

    assert_eq!(
        titles(&found),
        ["Longest walk: 4.2 km", "Longest ride: 62 km"]
    );
    assert_eq!(found[0].date, "2024-06-02");
    assert_eq!(
        found[1].detail,
        Detail::Longest {
            item_id: "d".to_string(),
            activity_type: "cycling".to_string(),
            distance_mm: 62_000_000,
            duration_seconds: 600,
        }
    );
    // Running never got off the ground, and hiking never happened at all.
    assert!(longest(&trips[4..]).is_empty());
}

#[test]
fn ties_for_the_longest_go_to_the_earlier_trip() {
    let trips = [
        trip("first", "2024-06-01", ActivityType::Hiking, 5000),
        trip("second", "2024-06-02", ActivityType::Hiking, 5000),
    ];
    let found = longest(&trips);
    assert_eq!(titles(&found), ["Longest hike: 5 km"]);
    assert_eq!(found[0].date, "2024-06-01");
}

/// A flight is bracketed by visits, but a walk through the terminal in between is normal.
#[test]
fn a_flight_finds_the_visit_past_a_non_visit() {
    let items = |id: &str| -> Result<Option<Neighbour>> {
        Ok(match id {
            "walk" => Some(Neighbour {
                is_visit: false,
                previous_item_id: None,
                next_item_id: Some("gate".to_string()),
                endpoint: Endpoint::default(),
            }),
            "gate" => Some(Neighbour {
                is_visit: true,
                previous_item_id: None,
                next_item_id: None,
                endpoint: Endpoint {
                    locality: Some("Porto".to_string()),
                    country_code: Some("pt".to_string()),
                    place_name: Some("Aeroporto do Porto".to_string()),
                },
            }),
            "nowhere" => Some(Neighbour {
                is_visit: true,
                previous_item_id: None,
                next_item_id: None,
                endpoint: Endpoint::default(),
            }),
            _ => None,
        })
    };

    let found = nearest_visit(Some("walk"), Direction::Next, items)
        .unwrap()
        .unwrap();
    assert_eq!(found.locality.as_deref(), Some("Porto"));
    // Arc had the code in lowercase; ISO 3166-1 writes it in caps and so does the API.
    assert_eq!(found.country_code.as_deref(), Some("PT"));

    // Nothing to walk from, an id that is not there, and a visit with nothing to say.
    assert!(
        nearest_visit(None, Direction::Next, items)
            .unwrap()
            .is_none()
    );
    assert!(
        nearest_visit(Some("gone"), Direction::Next, items)
            .unwrap()
            .is_none()
    );
    assert!(
        nearest_visit(Some("nowhere"), Direction::Next, items)
            .unwrap()
            .is_none()
    );
}

/// A chain of nothing but trips runs out rather than walking the whole timeline.
#[test]
fn the_walk_to_an_endpoint_gives_up_after_a_few_links() {
    let mut fetched = 0;
    let endless = |_: &str| -> Result<Option<Neighbour>> {
        fetched += 1;
        Ok(Some(Neighbour {
            is_visit: false,
            previous_item_id: Some("more".to_string()),
            next_item_id: Some("more".to_string()),
            endpoint: Endpoint::default(),
        }))
    };

    assert!(
        nearest_visit(Some("trip"), Direction::Previous, endless)
            .unwrap()
            .is_none()
    );
    assert_eq!(fetched, MAX_HOPS);
}

#[test]
fn a_failed_lookup_ends_the_walk_with_its_error() {
    let failing = |_: &str| -> Result<Option<Neighbour>> { Err(anyhow::Error::msg("database gone")) };
    let error = nearest_visit(Some("trip"), Direction::Next, failing).unwrap_err();
    assert_eq!(error.to_string(), "database gone");
}

/// The taxi to the runway is airplane-typed too; it is not a flight worth a line in a feed.
#[test]
fn short_airplane_legs_are_not_flights() {
    let short = FlightRow {
        trip: trip("taxi", "2024-06-02", ActivityType::Airplane, 800),
        from: None,
        to: None,
    };
    let long = FlightRow {
        trip: trip("f", "2024-06-02", ActivityType::Airplane, 1_600_000),
        from: None,
        to: None,
    };
    let flights = [short, long];
    let input = Input {
        from: "2024-06-01",
        to: "2024-06-30",
        days: &[],
        flights: &flights,
        trips: &[],
        kinds: &[Kind::Flight],
        confirmed_only: false,
    };
    let found = compute(&input);
    assert_eq!(found.len(), 1);
    assert_eq!(found[0].title, "Flight of 1600 km");
}

#[test]
fn events_are_sorted_by_day_then_kind_then_title() {
    let days = [
        day("2024-06-02", &["pt"], &["Porto", "Lisboa"], true),
        day("2024-06-03", &["pt"], &["Porto"], true),
    ];
    let flight = FlightRow {
        trip: TripRow {
            confirmed: false,
            ..trip("f", "2024-06-02", ActivityType::Airplane, 1_600_000)
        },
        from: Some(Endpoint {
            locality: Some("Dresden".to_string()),
            country_code: Some("de".to_string()),
            place_name: None,
        }),
        to: Some(Endpoint {
            locality: Some("Lisboa".to_string()),
            country_code: Some("pt".to_string()),
            place_name: None,
        }),
    };
    let trips = [trip("w", "2024-06-03", ActivityType::Walking, 8000)];
    let input = Input {
        from: "2024-06-01",
        to: "2024-06-30",
        days: &days,
        flights: std::slice::from_ref(&flight),
        trips: &trips,
        kinds: &Kind::ALL,
        confirmed_only: false,
    };

    let found = compute(&input);

    assert_eq!(
        titles(&found),
        [
            "First time in Portugal",
            "First time in Lisboa",
            "First time in Porto",
            "Flight from Dresden to Lisboa",
            "Longest walk: 8 km",
        ]
    );

    // One kind at a time, and only what has been reviewed.
    let flights_only = compute(&Input {
        kinds: &[Kind::Flight],
        ..input
    });
    assert_eq!(flights_only.len(), 1);
    let reviewed = compute(&Input {
        confirmed_only: true,
        ..input
    });
    assert_eq!(reviewed.len(), 4, "{reviewed:?}");
    assert!(reviewed.iter().all(|highlight| highlight.confirmed));
}

#[test]
fn a_flight_without_both_ends_falls_back_to_its_distance() {
    let row = FlightRow {
        trip: trip("f", "2024-06-02", ActivityType::Airplane, 1_600_000),
        from: Some(Endpoint {
            locality: Some("Dresden".to_string()),
            country_code: Some("de".to_string()),
            place_name: None,
        }),
        to: None,
    };

    assert_eq!(flight(&row).title, "Flight of 1600 km");
    assert_eq!(
        flight(&FlightRow {
            trip: TripRow {
                distance_mm: None,
                ..row.trip.clone()
            },
            from: None,
            to: None,
        })
        .title,
        "Flight"
    );
}

#[test]
fn an_end_without_a_locality_is_named_by_its_place() {
    let row = FlightRow {
        trip: trip("f", "2024-06-02", ActivityType::Airplane, 1_600_000),
        from: Some(Endpoint {
            locality: None,
            country_code: None,
            place_name: Some("Flughafen".to_string()),
        }),
        to: Some(Endpoint {
            locality: Some("Lisboa".to_string()),
            country_code: None,
            place_name: None,
        }),
    };
    assert_eq!(flight(&row).title, "Flight from Flughafen to Lisboa");
    // An empty locality is no name, and the place name is not consulted then.
    let empty = FlightRow {
        from: Some(Endpoint {
            locality: Some(String::new()),
            country_code: None,
            place_name: Some("Flughafen".to_string()),
        }),
        ..row.clone()
    };
    assert_eq!(flight(&empty).title, "Flight of 1600 km");
}

#[test]
fn distances_read_the_way_a_person_would_say_them() {
    assert_eq!(format_distance(980_400), "980 m");
    assert_eq!(format_distance(1_000_000), "1 km");
    assert_eq!(format_distance(3_421_000), "3.4 km");
    assert_eq!(format_distance(62_000_000), "62 km");
    assert_eq!(format_distance(1_612_345_000), "1612 km");
}

#[test]
fn distances_round_at_the_edges_of_each_unit() {
    assert_eq!(format_distance(0), "0 m");
    assert_eq!(format_distance(499), "0 m");
    assert_eq!(format_distance(500), "1 m");
    assert_eq!(format_distance(999_600), "1000 m");
    assert_eq!(format_distance(99_960_000), "100 km");
    assert_eq!(format_distance(100_000_000), "100 km");
    // A tenth written to one place takes an exact half to the even tenth.
    assert_eq!(format_distance(1_250_000), "1.2 km");
    assert_eq!(format_distance(1_750_000), "1.8 km");
    assert_eq!(format_distance(1_250_001), "1.3 km");
    assert_eq!(format_distance(1_949_999), "1.9 km");
    assert_eq!(format_distance(u64::MAX), "18446744073710 km");
}

#[test]
fn country_codes_map_to_english_short_names() {
    assert_eq!(country_name("de").as_deref(), Some("Germany"));
    assert_eq!(country_name("PT").as_deref(), Some("Portugal"));
    assert_eq!(country_name("zz"), None);
}

#[test]
fn kinds_round_trip_through_their_names() {
    for kind in Kind::ALL {
        assert_eq!(Kind::parse(kind.as_str()), Some(kind));
    }
    assert_eq!(Kind::parse("longest-ever"), None);
}

#[test]
fn kinds_are_ordered_as_declared() {
    let orders: Vec<usize> = Kind::ALL.iter().map(|kind| kind.order()).collect();
    assert_eq!(orders, [0, 1, 2, 3]);
}

#[test]
fn an_unknown_country_code_is_its_own_title() {
    let days = [day("2024-06-02", &[" zz "], &[], true)];
    let found = countries(&days, "2024-06-01", "2024-06-30");
    assert_eq!(titles(&found), ["First time in ZZ"]);
    assert_eq!(
        found[0].detail,
        Detail::Country {
            country_code: "ZZ".to_string(),
            country: None,
        }
    );
}

#[test]
fn a_day_codes_list_is_trimmed_uppercased_and_distinct() {
    let row = day("2024-06-02", &["pt", " PT ", "", "de"], &[], true);
    assert_eq!(row.codes(), ["PT", "DE"]);
    assert_eq!(row.only_country(), None);
    assert_eq!(day("2024-06-02", &["fr", "FR"], &[], true).only_country().as_deref(), Some("FR"));
}

/// Only the kinds asked for come out, and the reviewed feed is the full feed with the
/// unreviewed events taken out, in the same order.
#[test]
fn a_reviewed_feed_is_the_full_feed_without_the_unreviewed() {
    let days = [
        day("2024-06-01", &["de"], &["Dresden"], false),
        day("2024-06-02", &["pt"], &["Lisboa"], true),
        day("2024-06-03", &["es"], &["Madrid"], true),
    ];
    let flights = [FlightRow {
        trip: TripRow { confirmed: false, ..trip("f", "2024-06-02", ActivityType::Airplane, 1_600_000) },
        from: None,
        to: None,
    }];
    let trips = [trip("w", "2024-06-03", ActivityType::Walking, 8000)];
    let full = Input {
        from: "2024-06-01",
        to: "2024-06-30",
        days: &days,
        flights: &flights,
        trips: &trips,
        kinds: &[Kind::Country, Kind::Flight, Kind::Longest],
        confirmed_only: false,
    };
    let all = compute(&full);
    assert!(all.iter().all(|h| [Kind::Country, Kind::Flight, Kind::Longest].contains(&h.kind)));
    assert!(all.iter().any(|h| !h.confirmed));
    let reviewed = compute(&Input { confirmed_only: true, ..full });
    let filtered: Vec<&str> = all.iter().filter(|h| h.confirmed).map(|h| h.title.as_str()).collect();
    assert_eq!(titles(&reviewed), filtered);
    assert!(!reviewed.is_empty());
}
