use arches::api::{RequestError, CELL_ZOOM, MAX_SHIFT};
use arches::heatmap::{
    cell_sums_fit_in,
    aggregate, cell_extent, coarser, date_bounds, parse_weight, HeatRow, Weight, MAX_POINTS,
};

fn row(date: &str, x: i64, y: i64, samples: i64) -> HeatRow {
    HeatRow { date: date.to_string(), x, y, samples }
}

/// The rows a window reads at `shift`, from the fine table when it is 0 and from the level-1
/// rollup otherwise, the way the API reads them.
fn window(fine: &[HeatRow], rollup: &[HeatRow], shift: u32) -> Vec<HeatRow> {
    let (table, base) = if shift == 0 { (fine, 0) } else { (rollup, 1) };
    table
        .iter()
        .map(|r| row(&r.date, r.x >> (shift - base), r.y >> (shift - base), r.samples))
        .collect()
}

/// Too many points is a rendering problem, not a data problem, so the answer is bigger cells
/// rather than fewer of them: every sample counted still ends up in the response.
#[test]
fn the_point_cap_coarsens_rather_than_dropping_cells() {
    // 12 100 adjacent cells, comfortably over a cap of 10 000 and exactly a quarter of that
    // once the indices are shifted by one.
    let side = 110;
    let base = 1i64 << (CELL_ZOOM - 1);
    let mut fine = Vec::new();
    for x in 0..side {
        for y in 0..side {
            fine.push(row("2025-06-10", base + x, base + y, 1));
        }
    }
    // The coarsened request reads the level 1 rollup, seeded the way derive would.
    let mut rollup = Vec::new();
    for x in 0..((side + 1) / 2) {
        for y in 0..((side + 1) / 2) {
            rollup.push(row("2025-06-10", (base >> 1) + x, (base >> 1) + y, 4));
        }
    }

    assert_eq!(aggregate(&window(&fine, &rollup, 0), Weight::Samples).cells.len(), 12_100);

    let cap = 10_000;
    let mut shift = 0;
    let mut result = aggregate(&window(&fine, &rollup, shift), Weight::Samples);
    while let Some(next) = coarser(result.cells.len(), cap, shift) {
        shift = next;
        result = aggregate(&window(&fine, &rollup, shift), Weight::Samples);
    }

    assert_eq!(shift, 1);
    assert_eq!(result.cells.len(), 55 * 55);
    assert_eq!(result.days, 1);
    let (max_weight, _) = cell_extent(&result.cells);
    // Four fine cells to a coarse one, and not one sample lost on the way.
    assert_eq!(max_weight, 4);
    let total: i64 = result.cells.iter().map(|&(_, _, weight)| weight).sum();
    assert_eq!(total, side * side);
}

#[test]
fn a_cell_counts_distinct_days_or_samples() {
    let rows = vec![
        row("2025-06-10", 3, 4, 10),
        row("2025-06-11", 1, 9, 2),
        row("2025-06-10", 3, 4, 5),
        row("2025-06-12", 3, 4, 1),
        row("2025-06-11", 1, 2, 7),
    ];

    let days = aggregate(&rows, Weight::Days);
    // Sorted by x, then y.
    assert_eq!(days.cells, vec![(1, 2, 1), (1, 9, 1), (3, 4, 2)]);
    assert_eq!(days.days, 3);

    let samples = aggregate(&rows, Weight::Samples);
    assert_eq!(samples.cells, vec![(1, 2, 7), (1, 9, 2), (3, 4, 16)]);
    assert_eq!(samples.days, 3);

    let empty = aggregate(&Vec::new(), Weight::Days);
    assert!(empty.cells.is_empty());
    assert_eq!(empty.days, 0);
}

#[test]
fn the_extent_frames_every_cell() {
    let cells = vec![(5, -2, 3), (-1, 7, 9), (2, 0, 1)];
    assert_eq!(cell_extent(&cells), (9, Some((-1, -2, 5, 7))));
    assert_eq!(cell_extent(&Vec::new()), (0, None));
}

#[test]
fn coarsening_stops_under_the_cap_or_at_the_coarsest_level() {
    assert_eq!(coarser(MAX_POINTS + 1, MAX_POINTS, 3), Some(4));
    assert_eq!(coarser(MAX_POINTS, MAX_POINTS, 3), None);
    assert_eq!(coarser(MAX_POINTS + 1, MAX_POINTS, MAX_SHIFT), None);
}

#[test]
fn weights_are_days_unless_samples_are_asked_for() {
    assert_eq!(parse_weight(None), Ok(Weight::Days));
    assert_eq!(parse_weight(Some("days")), Ok(Weight::Days));
    assert_eq!(parse_weight(Some("samples")), Ok(Weight::Samples));
    assert_eq!(parse_weight(Some("hours")), Err(RequestError::NotAWeight("hours".to_string())));
}

#[test]
fn an_open_range_runs_from_the_start_to_the_last_storable_day() {
    assert_eq!(date_bounds(None, None), Ok((String::new(), "9999-12-31".to_string())));
    assert_eq!(
        date_bounds(Some("2025-06-10"), Some("2025-06-12")),
        Ok(("2025-06-10".to_string(), "2025-06-12".to_string()))
    );
    assert_eq!(date_bounds(Some("2025-06-12"), Some("2025-06-10")), Err(RequestError::FromAfterTo));
    assert_eq!(
        date_bounds(Some("June"), None),
        Err(RequestError::NotADate("June".to_string()))
    );
    assert_eq!(
        date_bounds(None, Some("2025-13-01")),
        Err(RequestError::NotADate("2025-13-01".to_string()))
    );
}

/// Only a cell whose own running sum leaves an i64 overflows; large sums in different cells do
/// not add up.
#[test]
fn cell_sums_are_checked_per_cell_and_per_row() {
    let apart = vec![row("2025-06-10", 0, 0, i64::MAX), row("2025-06-10", 1, 0, i64::MAX)];
    assert!(cell_sums_fit_in(&apart));
    let together = vec![row("2025-06-10", 0, 0, i64::MAX), row("2025-06-11", 0, 0, 1)];
    assert!(!cell_sums_fit_in(&together));
    // The running sum leaves the range before the last row brings it back.
    let through = vec![
        row("2025-06-10", 0, 0, i64::MAX),
        row("2025-06-11", 0, 0, 1),
        row("2025-06-12", 0, 0, -1),
    ];
    assert!(!cell_sums_fit_in(&through));
    assert!(cell_sums_fit_in(&vec![]));
}
