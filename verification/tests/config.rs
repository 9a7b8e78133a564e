use std::time::Duration;

use arches::config::{expand_home, join_path, parse_interval, Config, InvalidInterval};

fn config(pairs: &[(&str, &str)]) -> Config {
    let pairs: Vec<(String, String)> = pairs
        .iter()
        .map(|(key, value)| (key.to_string(), value.to_string()))
        .collect();
    Config::from_pairs(pairs).unwrap()
}

#[test]
fn defaults_expand_home_and_parse_interval() {
    let config = config(&[("HOME", "/home/kilian")]);
    assert_eq!(
        config.arc_dir,
        "/home/kilian/Library/Mobile Documents/iCloud~com~bigpaua~Arc-Timeline-Editor/Documents"
    );
    assert_eq!(config.data_dir, "/home/kilian/Library/Application Support/arches");
    assert_eq!(config.bind, "127.0.0.1:8471");
    assert_eq!(config.map_style, "https://tiles.openfreemap.org/styles/liberty");
    assert_eq!(
        Duration::from_secs(config.ingest_interval_seconds),
        Duration::from_secs(15 * 60)
    );
}

#[test]
fn overrides_win_over_defaults() {
    let config = config(&[
        ("HOME", "/home/kilian"),
        ("ARCHES_ARC_DIR", "/custom/arc"),
        ("ARCHES_DATA_DIR", "/custom/data"),
        ("ARCHES_BIND", "0.0.0.0:9000"),
        ("ARCHES_MAP_STYLE", "https://example.com/style.json"),
        ("ARCHES_INGEST_INTERVAL", "30s"),
    ]);
    assert_eq!(config.arc_dir, "/custom/arc");
    assert_eq!(config.data_dir, "/custom/data");
    assert_eq!(config.bind, "0.0.0.0:9000");
    assert_eq!(config.map_style, "https://example.com/style.json");
    assert_eq!(Duration::from_secs(config.ingest_interval_seconds), Duration::from_secs(30));
}

#[test]
fn parses_seconds_minutes_and_hours() {
    assert_eq!(parse_interval("45s").map(Duration::from_secs).unwrap(), Duration::from_secs(45));
    assert_eq!(parse_interval("2m").map(Duration::from_secs).unwrap(), Duration::from_secs(120));
    assert_eq!(
        parse_interval("3h").map(Duration::from_secs).unwrap(),
        Duration::from_secs(3 * 3600)
    );
}

#[test]
fn rejects_invalid_intervals() {
    assert!(parse_interval("").is_err());
    assert!(parse_interval("10").is_err());
    assert!(parse_interval("10x").is_err());
    assert!(parse_interval("abcm").is_err());
}

#[test]
fn an_interval_error_names_the_trimmed_input() {
    assert_eq!(
        parse_interval("  10x \n"),
        Err(InvalidInterval { raw: "10x".to_string() })
    );
    assert_eq!(parse_interval(" 5m ").unwrap(), 300);
    assert_eq!(parse_interval("+5s").unwrap(), 5);
    assert!(parse_interval("-5s").is_err());
    assert!(arches::config::interval_would_panic("10é"));
    assert!(arches::config::interval_would_panic("18446744073709551615h"));
    assert!(!arches::config::interval_would_panic("18446744073709551615s"));
}

#[test]
fn the_last_setting_of_a_name_wins_and_the_dark_style_has_a_default() {
    let config = config(&[
        ("ARCHES_BIND", "first"),
        ("ARCHES_BIND", "second"),
        ("ARCHES_GPX_DIR", "~/gpx"),
        ("HOME", "/home/k"),
    ]);
    assert_eq!(config.bind, "second");
    assert_eq!(config.gpx_dir.as_deref(), Some("/home/k/gpx"));
    assert_eq!(config.map_style_dark, "https://tiles.openfreemap.org/styles/dark");
    assert_eq!(config.db_path(), "~/Library/Application Support/arches/arches.db".replace('~', "/home/k"));
}

#[test]
fn paths_join_the_way_pathbuf_does() {
    assert_eq!(join_path("/data", "arches.db"), "/data/arches.db");
    assert_eq!(join_path("/data/", "arches.db"), "/data/arches.db");
    assert_eq!(join_path("", "arches.db"), "arches.db");
    assert_eq!(join_path("/data", "/abs"), "/abs");
    assert_eq!(expand_home("~/x", Some("/home/k")), "/home/k/x");
    assert_eq!(expand_home("~/x", None), "~/x");
    assert_eq!(expand_home("~x", Some("/home/k")), "~x");
    assert_eq!(expand_home("/abs/~/x", Some("/home/k")), "/abs/~/x");
}
