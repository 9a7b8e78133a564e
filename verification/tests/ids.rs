use arches::ids::{deterministic_id, format_uuid};

#[test]
fn ids_are_uuid_shaped_and_stable() {
    let id = deterministic_id("quantified-map-gpx", "trip", "2016-02-18.gpx#0");

    // Pinned: changing the hash would fork every id in an existing database.
    assert_eq!(id, "7F325572-9C54-8496-9BD5-E4A71FC10F65");
    assert_eq!(id.len(), 36);
    assert_eq!(
        id.chars().filter(|c| *c == '-').count(),
        4,
        "not a UUID shape: {id}"
    );
    // Version 8, RFC 4122 variant.
    assert_eq!(&id[14..15], "8");
    assert!(["8", "9", "A", "B"].contains(&&id[19..20]));
}

#[test]
fn every_part_changes_the_id() {
    let id = deterministic_id("quantified-map-gpx", "trip", "2016-02-18.gpx#0");
    for other in [
        deterministic_id("other", "trip", "2016-02-18.gpx#0"),
        deterministic_id("quantified-map-gpx", "sample", "2016-02-18.gpx#0"),
        deterministic_id("quantified-map-gpx", "trip", "2016-02-18.gpx#1"),
        // The separator keeps a shifted split from colliding.
        deterministic_id("quantified-map-gpx", "tri", "p2016-02-18.gpx#0"),
    ] {
        assert_ne!(id, other);
    }
    assert_eq!(
        id,
        deterministic_id("quantified-map-gpx", "trip", "2016-02-18.gpx#0")
    );
}

#[test]
fn uuids_set_the_version_and_variant_bits() {
    assert_eq!(format_uuid(0), "00000000-0000-8000-8000-000000000000");
    assert_eq!(format_uuid(u128::MAX), "FFFFFFFF-FFFF-8FFF-BFFF-FFFFFFFFFFFF");
    for hash in [1u128, 0x1234_5678_9abc_def0_1234_5678_9abc_def0, u128::MAX / 3] {
        let id = format_uuid(hash);
        assert_eq!(id.len(), 36);
        assert_eq!(&id[14..15], "8");
        assert!("89AB".contains(&id[19..20]));
    }
}
