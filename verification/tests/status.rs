use arches::status::{by_source, SourceCounts};

fn items(source: &str, items: i64, first: i64, last: i64) -> SourceCounts {
    SourceCounts {
        source: Some(source.to_string()),
        items,
        samples: 0,
        first_item_start: Some(first),
        last_item_start: Some(last),
    }
}

/// The rows `GROUP BY source` gives for three items and four samples, one of them from before
/// the column existed.
#[test]
fn counts_rows_per_source() {
    let by_source = by_source(
        vec![items("LocoKit2", 2, 10, 30), items("quantified-map-gpx", 1, 5, 5)],
        vec![
            (None, 1),
            (Some("quantified-map-gpx".to_string()), 2),
            (Some("LocoKit2".to_string()), 1),
        ],
    );

    assert_eq!(by_source.len(), 3);
    assert_eq!(by_source[0].source.as_deref(), Some("LocoKit2"));
    assert_eq!((by_source[0].items, by_source[0].samples), (2, 1));
    assert_eq!(by_source[0].first_item_start, Some(10));
    assert_eq!(by_source[0].last_item_start, Some(30));
    assert_eq!(by_source[1].source.as_deref(), Some("quantified-map-gpx"));
    assert_eq!((by_source[1].items, by_source[1].samples), (1, 2));
    // A sample from before the column existed still has to be counted somewhere.
    assert_eq!(by_source[2].source, None);
    assert_eq!((by_source[2].items, by_source[2].samples), (0, 1));
}

#[test]
fn equal_item_counts_are_listed_by_source() {
    let listed = by_source(
        vec![items("b", 3, 0, 0), items("a", 3, 0, 0), items("c", 5, 0, 0)],
        vec![(Some("z".to_string()), 9), (None, 4)],
    );
    let order: Vec<(Option<&str>, i64, i64)> = listed
        .iter()
        .map(|row| (row.source.as_deref(), row.items, row.samples))
        .collect();
    assert_eq!(
        order,
        [
            (Some("c"), 5, 0),
            (Some("a"), 3, 0),
            (Some("b"), 3, 0),
            (None, 0, 4),
            (Some("z"), 0, 9)
        ]
    );
}
