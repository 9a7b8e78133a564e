use arches::schema::migrations;
use rusqlite::Connection;
use rusqlite_migration::{Migrations, M};

fn all() -> Migrations<'static> {
    Migrations::new(migrations().into_iter().map(M::up).collect())
}

#[test]
fn migrations_are_valid() {
    all().validate().unwrap();
}

/// An existing database has to come out of the migration queryable by local day without
/// waiting for `arches derive`.
#[test]
fn migration_two_backfills_sample_local_dates() {
    let mut conn = Connection::open_in_memory().unwrap();
    let migrations = all();
    migrations.to_version(&mut conn, 1).unwrap();
    conn.execute(
        "INSERT INTO samples (id, date, last_saved, seconds_from_gmt) VALUES
             ('a', 1749592800000, 0, 7200),
             ('b', 1749592800000, 0, NULL)",
        [],
    )
    .unwrap();
    migrations.to_latest(&mut conn).unwrap();

    let dates: Vec<Option<String>> = conn
        .prepare("SELECT local_date FROM samples ORDER BY id")
        .unwrap()
        .query_map([], |row| row.get(0))
        .unwrap()
        .collect::<Result<_, _>>()
        .unwrap();
    assert_eq!(dates, [Some("2025-06-11".to_string()), None]);
}

#[test]
fn in_memory_has_the_schema() {
    let mut conn = Connection::open_in_memory().unwrap();
    all().to_latest(&mut conn).unwrap();
    for table in [
        "places",
        "items",
        "samples",
        "ingest_files",
        "ingest_runs",
        "day_summaries",
        "heatmap_cells",
        "heatmap_rollup",
    ] {
        let count: i64 = conn
            .query_row(&format!("SELECT count(*) FROM {table}"), [], |row| row.get(0))
            .unwrap();
        assert_eq!(count, 0);
    }
}
