use arches::backup::BucketKind;
use arches::ingest::{
    is_unchanged, joined_errors, mirror_path, relative_path, run_summary, upsert_sql, Counters, SeenFile,
};

#[test]
fn a_copy_lands_under_raw_and_the_device() {
    assert_eq!(
        mirror_path("/data", "DEVICE", "samples/2025-W24.json.gz"),
        "/data/raw/DEVICE/samples/2025-W24.json.gz"
    );
    assert_eq!(relative_path(BucketKind::Samples, "2025-W24.json.gz"), "samples/2025-W24.json.gz");
}

#[test]
fn a_file_is_unchanged_only_for_the_same_device_mtime_and_length() {
    let seen = Some(SeenFile {
        device_id: "A".to_string(),
        mtime: 10,
        len: 20,
    });
    assert!(is_unchanged(&seen, "A", 10, 20));
    assert!(!is_unchanged(&seen, "B", 10, 20));
    assert!(!is_unchanged(&seen, "A", 11, 20));
    assert!(!is_unchanged(&seen, "A", 10, 21));
    assert!(!is_unchanged(&None, "A", 10, 20));
}

#[test]
fn errors_are_joined_one_per_line() {
    assert_eq!(joined_errors(&vec![]), None);
    assert_eq!(joined_errors(&vec!["a: x".to_string()]).as_deref(), Some("a: x"));
    assert_eq!(
        joined_errors(&vec!["a".to_string(), "b".to_string(), "c".to_string()]).as_deref(),
        Some("a\nb\nc")
    );
}

#[test]
fn upserts_only_let_a_newer_record_win() {
    assert_eq!(
        upsert_sql("places", &["id", "name", "last_saved"]),
        "INSERT INTO places (id, name, last_saved) VALUES (?, ?, ?) \
         ON CONFLICT(id) DO UPDATE SET name = excluded.name, last_saved = excluded.last_saved \
         WHERE excluded.last_saved > places.last_saved"
    );
    assert_eq!(
        upsert_sql("t", &["a", "id"]),
        "INSERT INTO t (a, id) VALUES (?, ?) ON CONFLICT(id) DO UPDATE SET a = excluded.a \
         WHERE excluded.last_saved > t.last_saved"
    );
}

#[test]
fn a_run_summary_carries_the_counters_and_the_errors() {
    let mut counters = Counters::default();
    assert_eq!((counters.files_seen, counters.files_ingested, counters.days), (0, 0, 0));
    counters.files_seen = 3;
    counters.files_ingested = 2;
    counters.places = 1;
    counters.items = 9;
    counters.samples = 23;
    counters.days = 4;
    let errors = vec!["samples/2025-W24.json.gz: truncated".to_string(), "gpx/x.gpx: bad".to_string()];
    let summary = run_summary(7, 100, 250, 150, Some("device".to_string()), Some(90), counters, &errors);
    assert_eq!(summary.id, 7);
    assert_eq!((summary.started_at, summary.finished_at, summary.elapsed_ms), (100, 250, 150));
    assert_eq!(summary.schema_version, arches::schema::SCHEMA_VERSION);
    assert_eq!(summary.device_id.as_deref(), Some("device"));
    assert_eq!(summary.last_backup_date, Some(90));
    assert_eq!((summary.files_seen, summary.files_ingested), (3, 2));
    assert_eq!((summary.places_upserted, summary.items_upserted, summary.samples_upserted), (1, 9, 23));
    assert_eq!(summary.days_recomputed, 4);
    assert_eq!(summary.error.as_deref(), Some("samples/2025-W24.json.gz: truncated\ngpx/x.gpx: bad"));

    let clean = run_summary(8, 0, 0, 0, None, None, Counters::default(), &Vec::new());
    assert_eq!(clean.error, None);
}
