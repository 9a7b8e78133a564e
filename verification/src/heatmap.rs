//! `/api/heatmap` without the map projection: what a request asks for besides its viewport,
//! how the rows of the cell tables are aggregated into weighted points, and when a response has
//! to be coarsened.
//!
//! `heatmap_cells` holds one row per local day per fine cell. A request's cells are the fine
//! ones right-shifted to its zoom; the caller reads the rows of its window already shifted, and
//! everything from there on is integers.

use vstd::prelude::*;
use vstd::string::*;
use crate::api::{parse_date, RequestError, MAX_SHIFT};
use crate::calendar::{civil_day_of, civil_text, day_text};
use crate::derive::{push_distinct, with_distinct, with_distinct_keeps_values_distinct};
use crate::lists::texts;
use crate::text::{owned, same_text, seq_less, str_less};

verus! {

/// What a cell's weight counts.
#[derive(Debug, Clone, Copy, PartialEq, Eq, Structural)]
pub enum Weight {
    /// Distinct days the cell was visited on. The default: a night at home is thousands of
    /// samples in one cell and would drown out every route the person actually took.
    Days,
    Samples,
}

/// The `weight` parameter: `days` unless it says `samples`.
pub fn parse_weight(raw: Option<&str>) -> (r: Result<Weight, RequestError>)
    ensures
        match raw {
            None => r == Ok::<Weight, RequestError>(Weight::Days),
            Some(text) => if text@ == "days"@ {
                r == Ok::<Weight, RequestError>(Weight::Days)
            } else if text@ == "samples"@ {
                r == Ok::<Weight, RequestError>(Weight::Samples)
            } else {
                r matches Err(RequestError::NotAWeight(w)) && w@ == text@
            },
        },
{
    match raw {
        None => Ok(Weight::Days),
        Some(text) => if same_text(text, "days") {
            Ok(Weight::Days)
        } else if same_text(text, "samples") {
            Ok(Weight::Samples)
        } else {
            Err(RequestError::NotAWeight(owned(text)))
        },
    }
}

/// The bound a date parameter puts on the rows: the date as stored when it is one, the given
/// default when the parameter is absent, and nothing when it is no date.
pub open spec fn bound_of(raw: Option<Seq<char>>, default: Seq<char>) -> Option<Seq<char>> {
    match raw {
        None => Some(default),
        Some(text) => match civil_day_of(text) {
            Some(d) => Some(civil_text(d)),
            None => None,
        },
    }
}

pub open spec fn param_text(raw: Option<&str>) -> Option<Seq<char>> {
    match raw {
        Some(t) => Some(t@),
        None => None,
    }
}

/// The last date arches can store; an absent `to` leaves the range open at that end.
pub open spec fn last_date() -> Seq<char> {
    "9999-12-31"@
}

/// The inclusive date range of a request, as the texts the rows' dates are compared with. An
/// absent `from` is the empty text, which sorts before every date.
pub fn date_bounds(from: Option<&str>, to: Option<&str>) -> (r: Result<(String, String), RequestError>)
    ensures
        ({
            let f = bound_of(param_text(from), Seq::empty());
            let t = bound_of(param_text(to), last_date());
            if f is None {
                r matches Err(RequestError::NotADate(d)) && d@ == from->0@
            } else if t is None {
                r matches Err(RequestError::NotADate(d)) && d@ == to->0@
            } else if f->0.len() > 0 && seq_less(t->0, f->0) {
                r matches Err(RequestError::FromAfterTo)
            } else {
                r matches Ok((a, b)) && a@ == f->0 && b@ == t->0
            }
        }),
{
    let first = match from {
        Some(raw) => match parse_date(raw) {
            Ok(day) => day_text(day),
            Err(e) => return Err(e),
        },
        None => String::new(),
    };
    let last = match to {
        Some(raw) => match parse_date(raw) {
            Ok(day) => day_text(day),
            Err(e) => return Err(e),
        },
        None => owned("9999-12-31"),
    };
    if first.as_str().unicode_len() > 0 && str_less(last.as_str(), first.as_str()) {
        return Err(RequestError::FromAfterTo);
    }
    Ok((first, last))
}

// ---------------------------------------------------------------------------------------------
// Aggregation
// ---------------------------------------------------------------------------------------------

/// One row of a cell table in a request's window: the local date, the cell already coarsened
/// to the request's grid, and the samples the fine cell holds that day.
#[derive(Debug, Clone)]
pub struct HeatRow {
    pub date: String,
    pub x: i64,
    pub y: i64,
    pub samples: i64,
}

pub struct HeatRowView {
    pub date: Seq<char>,
    pub key: (i64, i64),
    pub samples: i64,
}

impl View for HeatRow {
    type V = HeatRowView;

    open spec fn view(&self) -> HeatRowView {
        HeatRowView { date: self.date@, key: (self.x, self.y), samples: self.samples }
    }
}

pub open spec fn row_views(rows: Seq<HeatRow>) -> Seq<HeatRowView> {
    rows.map_values(|r: HeatRow| r@)
}

/// The dates on which some row put something into cell `key`.
pub open spec fn dates_at(rows: Seq<HeatRowView>, key: (i64, i64)) -> Set<Seq<char>>
    decreases rows.len(),
{
    if rows.len() == 0 {
        Set::empty()
    } else if rows.last().key == key {
        dates_at(rows.drop_last(), key).insert(rows.last().date)
    } else {
        dates_at(rows.drop_last(), key)
    }
}

/// The samples all rows put into cell `key`.
pub open spec fn samples_at(rows: Seq<HeatRowView>, key: (i64, i64)) -> int
    decreases rows.len(),
{
    if rows.len() == 0 {
        0
    } else if rows.last().key == key {
        samples_at(rows.drop_last(), key) + rows.last().samples
    } else {
        samples_at(rows.drop_last(), key)
    }
}

/// The dates of all rows.
pub open spec fn all_dates(rows: Seq<HeatRowView>) -> Set<Seq<char>>
    decreases rows.len(),
{
    if rows.len() == 0 {
        Set::empty()
    } else {
        all_dates(rows.drop_last()).insert(rows.last().date)
    }
}

/// The cells some row falls into.
pub open spec fn cells_of(rows: Seq<HeatRowView>) -> Set<(i64, i64)>
    decreases rows.len(),
{
    if rows.len() == 0 {
        Set::empty()
    } else {
        cells_of(rows.drop_last()).insert(rows.last().key)
    }
}

/// Whether every cell's running sum of samples fits an `i64` after each row: what adding them
/// up row by row needs.
pub open spec fn cell_sums_fit(rows: Seq<HeatRowView>) -> bool {
    forall|i: int, k: (i64, i64)|
        0 <= i <= rows.len() ==> i64::MIN <= #[trigger] samples_at(rows.take(i), k) <= i64::MAX
}

/// A cell's weight.
pub open spec fn weight_at(rows: Seq<HeatRowView>, key: (i64, i64), weight: Weight) -> int {
    match weight {
        Weight::Days => dates_at(rows, key).len() as int,
        Weight::Samples => samples_at(rows, key),
    }
}

/// Cells in order: by `x`, then by `y`.
pub open spec fn key_less(a: (i64, i64), b: (i64, i64)) -> bool {
    a.0 < b.0 || (a.0 == b.0 && a.1 < b.1)
}

fn is_before(a: (i64, i64), b: (i64, i64)) -> (r: bool)
    ensures
        r == key_less(a, b),
{
    a.0 < b.0 || (a.0 == b.0 && a.1 < b.1)
}

pub open spec fn cell_key(c: (i64, i64, i64)) -> (i64, i64) {
    (c.0, c.1)
}

/// The weighted cells of a window, in cell order, and how many distinct days put anything into
/// the window at all.
#[derive(Debug, Clone)]
pub struct Aggregate {
    pub cells: Vec<(i64, i64, i64)>,
    pub days: i64,
}

/// A cell being accumulated.
struct Acc {
    x: i64,
    y: i64,
    days: Vec<String>,
    samples: i64,
}

spec fn acc_key(acc: Acc) -> (i64, i64) {
    (acc.x, acc.y)
}

/// What an accumulated cell holds after the rows so far.
spec fn acc_holds(acc: Acc, rows: Seq<HeatRowView>, weight: Weight) -> bool {
    &&& texts(acc.days@).no_duplicates()
    &&& weight == Weight::Days ==> texts(acc.days@).to_set() == dates_at(rows, (acc.x, acc.y))
    &&& weight == Weight::Samples ==> acc.samples == samples_at(rows, (acc.x, acc.y))
}

proof fn lemma_dates_finite(rows: Seq<HeatRowView>, key: (i64, i64))
    ensures
        dates_at(rows, key).finite(),
        all_dates(rows).finite(),
    decreases rows.len(),
{
    if rows.len() > 0 {
        lemma_dates_finite(rows.drop_last(), key);
    }
}

proof fn lemma_with_distinct_set(values: Seq<Seq<char>>, value: Seq<char>)
    ensures
        with_distinct(values, value).to_set() == values.to_set().insert(value),
{
    if values.contains(value) {
        assert(values.to_set().insert(value) =~= values.to_set());
    } else {
        values.lemma_push_to_set_commute(value);
    }
}

proof fn lemma_samples_outside(rows: Seq<HeatRowView>, key: (i64, i64))
    requires
        !cells_of(rows).contains(key),
    ensures
        samples_at(rows, key) == 0,
    decreases rows.len(),
{
    if rows.len() > 0 {
        lemma_samples_outside(rows.drop_last(), key);
    }
}

proof fn lemma_sums_fit_from_steps(rows: Seq<HeatRowView>, i: int, k: (i64, i64))
    requires
        0 <= i <= rows.len(),
        forall|j: int|
            0 <= j < rows.len() ==> i64::MIN <= #[trigger] samples_at(rows.take(j + 1), rows[j].key)
                <= i64::MAX,
    ensures
        i64::MIN <= samples_at(rows.take(i), k) <= i64::MAX,
    decreases i,
{
    if i > 0 {
        let upto = rows.take(i);
        assert(upto.drop_last() =~= rows.take(i - 1));
        assert(upto.last() == rows[i - 1]);
        if rows[i - 1].key != k {
            lemma_sums_fit_from_steps(rows, i - 1, k);
        } else {
            assert(i64::MIN <= samples_at(rows.take((i - 1) + 1), rows[i - 1].key) <= i64::MAX);
        }
    }
}

/// Whether [`aggregate`] can add up every cell's samples row by row in an `i64`.
pub fn cell_sums_fit_in(rows: &Vec<HeatRow>) -> (r: bool)
    ensures
        r == cell_sums_fit(row_views(rows@)),
{
    let ghost all = row_views(rows@);
    // Each cell seen so far with its running sum.
    let mut sums: Vec<(i64, i64, i128)> = Vec::new();
    let mut n: usize = 0;
    while n < rows.len()
        invariant
            n <= rows@.len(),
            all == row_views(rows@),
            forall|m: int| 0 <= m < sums@.len() ==> {
                let c = #[trigger] sums@[m];
                &&& c.2 == samples_at(all.take(n as int), (c.0, c.1))
                &&& i64::MIN <= c.2 <= i64::MAX
            },
            forall|k: (i64, i64)|
                cells_of(all.take(n as int)).contains(k) ==> exists|m: int|
                    0 <= m < sums@.len() && (#[trigger] sums@[m]).0 == k.0 && sums@[m].1 == k.1,
            forall|a: int, b: int|
                0 <= a < b < sums@.len() ==> !((#[trigger] sums@[a]).0 == (#[trigger] sums@[b]).0
                    && sums@[a].1 == sums@[b].1),
            forall|j: int|
                0 <= j < n ==> i64::MIN <= #[trigger] samples_at(all.take(j + 1), all[j].key) <= i64::MAX,
        decreases rows.len() - n,
    {
        let ghost before = all.take(n as int);
        let ghost upto = all.take(n + 1);
        let row = &rows[n];
        proof {
            assert(upto.drop_last() =~= before);
            assert(upto.last() == row@);
            assert(all[n as int] == row@);
        }
        let mut m: usize = 0;
        while m < sums.len() && !(sums[m].0 == row.x && sums[m].1 == row.y)
            invariant
                m <= sums@.len(),
                forall|q: int| 0 <= q < m ==> !((#[trigger] sums@[q]).0 == row.x && sums@[q].1 == row.y),
            decreases sums.len() - m,
        {
            m = m + 1;
        }
        let key = (row.x, row.y);
        let ghost old_sums = sums@;
        let sum: i128;
        if m < sums.len() {
            sum = sums[m].2 + row.samples as i128;
            sums.set(m, (row.x, row.y, sum));
        } else {
            proof {
                if cells_of(before).contains(key) {
                    let q = choose|q: int|
                        0 <= q < old_sums.len() && (#[trigger] old_sums[q]).0 == key.0 && old_sums[q].1 == key.1;
                    assert(!((old_sums[q]).0 == row.x && old_sums[q].1 == row.y));
                }
                lemma_samples_outside(before, key);
            }
            sum = row.samples as i128;
            sums.push((row.x, row.y, sum));
        }
        assert(sum == samples_at(upto, key));
        if sum < i64::MIN as i128 || sum > i64::MAX as i128 {
            proof {
                assert(all.take(n + 1) == upto);
                assert(!(i64::MIN <= samples_at(all.take(n + 1), key) <= i64::MAX));
                assert(!cell_sums_fit(all)) by {
                    if cell_sums_fit(all) {
                        assert(i64::MIN <= samples_at(all.take(n + 1), key) <= i64::MAX);
                    }
                }
            }
            return false;
        }
        proof {
            assert forall|q: int| 0 <= q < sums@.len() implies {
                let c = #[trigger] sums@[q];
                &&& c.2 == samples_at(upto, (c.0, c.1))
                &&& i64::MIN <= c.2 <= i64::MAX
            } by {
                if q != m {
                    assert(sums@[q] == old_sums[q]);
                    if q < m {
                        assert(!((old_sums[q]).0 == row.x && old_sums[q].1 == row.y));
                    } else {
                        assert(!((old_sums[m as int]).0 == (old_sums[q]).0 && old_sums[m as int].1 == old_sums[q].1));
                    }
                    assert((old_sums[q].0, old_sums[q].1) != key);
                    assert(samples_at(upto, (old_sums[q].0, old_sums[q].1)) == samples_at(before, (old_sums[q].0, old_sums[q].1)));
                }
            }
            assert forall|a: int, b: int| 0 <= a < b < sums@.len() implies !((#[trigger] sums@[a]).0
                == (#[trigger] sums@[b]).0 && sums@[a].1 == sums@[b].1) by {
                if a != m && b != m {
                    assert(sums@[a] == old_sums[a] && sums@[b] == old_sums[b]);
                } else if a == m {
                    assert(sums@[b] == old_sums[b]);
                    if m < old_sums.len() {
                        assert(!((old_sums[a]).0 == (old_sums[b]).0 && old_sums[a].1 == old_sums[b].1));
                    }
                } else {
                    assert(sums@[a] == old_sums[a]);
                    assert(!((old_sums[a]).0 == row.x && old_sums[a].1 == row.y));
                }
            }
            assert forall|k: (i64, i64)| cells_of(upto).contains(k) implies exists|q: int|
                0 <= q < sums@.len() && (#[trigger] sums@[q]).0 == k.0 && sums@[q].1 == k.1 by {
                if k == key {
                    assert(sums@[m as int].0 == k.0 && sums@[m as int].1 == k.1);
                } else {
                    assert(cells_of(before).contains(k));
                    let q = choose|q: int|
                        0 <= q < old_sums.len() && (#[trigger] old_sums[q]).0 == k.0 && old_sums[q].1 == k.1;
                    assert(sums@[q] == old_sums[q]);
                }
            }
            assert forall|j: int| 0 <= j < n + 1 implies i64::MIN <= #[trigger] samples_at(
                all.take(j + 1),
                all[j].key,
            ) <= i64::MAX by {
                if j == n {
                    assert(all.take(j + 1) == upto);
                }
            }
        }
        n = n + 1;
    }
    proof {
        assert forall|i: int, k: (i64, i64)| 0 <= i <= all.len() implies i64::MIN <= #[trigger] samples_at(
            all.take(i),
            k,
        ) <= i64::MAX by {
            lemma_sums_fit_from_steps(all, i, k);
        }
    }
    true
}

/// Rows that fall into the same cell are added up: by the distinct dates among them or by
/// their samples. One pass over the rows; the cells come out in cell order, which keeps
/// responses identical for the same request.
pub fn aggregate(rows: &Vec<HeatRow>, weight: Weight) -> (r: Aggregate)
    requires
        weight == Weight::Samples ==> cell_sums_fit(row_views(rows@)),
        rows@.len() <= i64::MAX,
    ensures
        r.days == all_dates(row_views(rows@)).len(),
        forall|i: int, j: int|
            0 <= i < j < r.cells@.len() ==> key_less(
                cell_key(#[trigger] r.cells@[i]),
                cell_key(#[trigger] r.cells@[j]),
            ),
        forall|k: (i64, i64)|
            cells_of(row_views(rows@)).contains(k) <==> exists|i: int|
                0 <= i < r.cells@.len() && cell_key(#[trigger] r.cells@[i]) == k,
        forall|i: int|
            0 <= i < r.cells@.len() ==> (#[trigger] r.cells@[i]).2 == weight_at(
                row_views(rows@),
                cell_key(r.cells@[i]),
                weight,
            ),
{
    let ghost all = row_views(rows@);
    let mut cells: Vec<Acc> = Vec::new();
    let mut dates: Vec<String> = Vec::new();
    let mut n: usize = 0;
    while n < rows.len()
        invariant
            n <= rows@.len(),
            all == row_views(rows@),
            rows@.len() <= i64::MAX,
            weight == Weight::Samples ==> cell_sums_fit(all),
            texts(dates@).no_duplicates(),
            texts(dates@).to_set() == all_dates(all.take(n as int)),
            forall|i: int, j: int|
                0 <= i < j < cells@.len() ==> key_less(
                    acc_key(#[trigger] cells@[i]),
                    acc_key(#[trigger] cells@[j]),
                ),
            forall|i: int| 0 <= i < cells@.len() ==> acc_holds(#[trigger] cells@[i], all.take(n as int), weight),
            forall|k: (i64, i64)|
                cells_of(all.take(n as int)).contains(k) <==> exists|i: int|
                    0 <= i < cells@.len() && acc_key(#[trigger] cells@[i]) == k,
        decreases rows.len() - n,
    {
        let ghost before = all.take(n as int);
        let ghost upto = all.take(n + 1);
        let row = &rows[n];
        proof {
            assert(upto.drop_last() =~= before);
            assert(upto.last() == row@);
            lemma_with_distinct_set(texts(dates@), row.date@);
            with_distinct_keeps_values_distinct(texts(dates@), row.date@);
        }
        push_distinct(&mut dates, row.date.as_str());
        let key = (row.x, row.y);
        // The first cell not before this row's.
        let mut j: usize = 0;
        while j < cells.len() && is_before((cells[j].x, cells[j].y), key)
            invariant
                j <= cells@.len(),
                forall|i: int| 0 <= i < j ==> key_less(acc_key(#[trigger] cells@[i]), key),
            decreases cells.len() - j,
        {
            j = j + 1;
        }
        let found = j < cells.len() && cells[j].x == row.x && cells[j].y == row.y;
        let ghost old_cells = cells@;
        if found {
            let mut acc = cells.remove(j);
            proof {
                assert(acc == old_cells[j as int]);
                assert(acc_holds(acc, before, weight));
                lemma_with_distinct_set(texts(acc.days@), row.date@);
                with_distinct_keeps_values_distinct(texts(acc.days@), row.date@);
            }
            if weight == Weight::Days {
                push_distinct(&mut acc.days, row.date.as_str());
            } else {
                proof {
                    assert(samples_at(upto, key) == samples_at(before, key) + row.samples);
                    assert(i64::MIN <= samples_at(all.take(n + 1), key) <= i64::MAX);
                }
                acc.samples = acc.samples + row.samples;
            }
            cells.insert(j, acc);
            assert(cells@ =~= old_cells.update(j as int, acc));
        } else {
            let mut days: Vec<String> = Vec::new();
            if weight == Weight::Days {
                days.push(owned(row.date.as_str()));
            }
            let acc = Acc { x: row.x, y: row.y, days, samples: row.samples };
            proof {
                if weight == Weight::Days {
                    assert(texts(acc.days@) =~= seq![row.date@]);
                    assert(seq![row.date@].to_set() =~= Set::empty().insert(row.date@)) by {
                        Seq::<Seq<char>>::empty().lemma_push_to_set_commute(row.date@);
                        assert(seq![row.date@] =~= Seq::<Seq<char>>::empty().push(row.date@));
                        assert(Seq::<Seq<char>>::empty().to_set() =~= Set::<Seq<char>>::empty());
                    }
                } else {
                    assert(texts(acc.days@) =~= Seq::<Seq<char>>::empty());
                }
                // No row so far fell into this cell.
                assert(!cells_of(before).contains(key)) by {
                    if cells_of(before).contains(key) {
                        let i = choose|i: int| 0 <= i < old_cells.len() && acc_key(#[trigger] old_cells[i]) == key;
                        if i < j {
                            assert(key_less(acc_key(old_cells[i]), key));
                        } else if i > j {
                            assert(key_less(acc_key(old_cells[j as int]), acc_key(old_cells[i])));
                        }
                    }
                }
                lemma_absent_cell(before, key);
            }
            cells.insert(j, acc);
        }
        proof {
            let now = cells@;
            assert(all.take(n + 1) == upto);
            // The order holds: the row's cell sits between the cells before and after it.
            assert forall|a: int, b: int| 0 <= a < b < now.len() implies key_less(
                acc_key(#[trigger] now[a]),
                acc_key(#[trigger] now[b]),
            ) by {
                if found {
                    assert(now[a] == old_cells[a] || a == j);
                    assert(now[b] == old_cells[b] || b == j);
                    if a == j {
                        assert(old_cells[a].x == now[a].x && old_cells[a].y == now[a].y);
                    }
                    if b == j {
                        assert(old_cells[b].x == now[b].x && old_cells[b].y == now[b].y);
                    }
                } else {
                    if a < j && b == j {
                    } else if a == j && b > j {
                        assert(now[b] == old_cells[b - 1]);
                        if b - 1 > j {
                            assert(key_less(acc_key(old_cells[j as int]), acc_key(old_cells[b - 1])));
                        }
                    } else if a < j && b > j {
                        assert(now[a] == old_cells[a] && now[b] == old_cells[b - 1]);
                    } else if a > j {
                        assert(now[a] == old_cells[a - 1] && now[b] == old_cells[b - 1]);
                    } else {
                        assert(now[a] == old_cells[a] && now[b] == old_cells[b]);
                    }
                }
            }
            // Every cell holds what the rows so far put into it.
            assert forall|i: int| 0 <= i < now.len() implies acc_holds(#[trigger] now[i], upto, weight) by {
                let c = now[i];
                if (c.x, c.y) != key {
                    let o = if found || i < j { i } else { i - 1 };
                    assert(now[i] == old_cells[o]);
                    assert(acc_holds(old_cells[o], before, weight));
                    assert(dates_at(upto, (c.x, c.y)) == dates_at(before, (c.x, c.y)));
                    assert(samples_at(upto, (c.x, c.y)) == samples_at(before, (c.x, c.y)));
                } else {
                    if found && i != j {
                        assert(now[i] == old_cells[i]);
                        assert(key_less(acc_key(now[i]), acc_key(now[j as int]))
                            || key_less(acc_key(now[j as int]), acc_key(now[i])));
                    }
                    if !found && i != j {
                        let o = if i < j { i } else { i - 1 };
                        assert(now[i] == old_cells[o]);
                        assert(cells_of(before).contains(key));
                    }
                }
            }
            // The cells are exactly those some row so far fell into.
            assert(acc_key(now[j as int]) == key);
            assert forall|k: (i64, i64)| cells_of(upto).contains(k) implies exists|i: int|
                0 <= i < now.len() && acc_key(#[trigger] now[i]) == k by {
                if k == key {
                    assert(acc_key(now[j as int]) == k);
                } else {
                    assert(cells_of(before).contains(k));
                    let o = choose|o: int| 0 <= o < old_cells.len() && acc_key(#[trigger] old_cells[o]) == k;
                    if found {
                        assert(o != j);
                        assert(now[o] == old_cells[o]);
                        assert(acc_key(now[o]) == k);
                    } else if o < j {
                        assert(now[o] == old_cells[o]);
                        assert(acc_key(now[o]) == k);
                    } else {
                        assert(now[o + 1] == old_cells[o]);
                        assert(acc_key(now[o + 1]) == k);
                    }
                }
            }
            assert forall|i: int| 0 <= i < now.len() implies cells_of(upto).contains(
                #[trigger] acc_key(now[i]),
            ) by {
                let k = acc_key(now[i]);
                if k != key {
                    if found {
                        assert(i != j);
                        assert(now[i] == old_cells[i]);
                        assert(acc_key(old_cells[i]) == k);
                    } else if i < j {
                        assert(now[i] == old_cells[i]);
                        assert(acc_key(old_cells[i]) == k);
                    } else {
                        assert(i != j);
                        assert(now[i] == old_cells[i - 1]);
                        assert(acc_key(old_cells[i - 1]) == k);
                    }
                    assert(cells_of(before).contains(k));
                }
            }
        }
        n = n + 1;
    }
    proof {
        assert(all.take(rows@.len() as int) =~= all);
        lemma_dates_finite(all, (0, 0));
        texts(dates@).unique_seq_to_set();
        lemma_all_dates_bounded(all);
    }
    let days = dates.len() as i64;
    let mut out: Vec<(i64, i64, i64)> = Vec::new();
    let mut i: usize = 0;
    while i < cells.len()
        invariant
            i <= cells@.len(),
            out@.len() == i,
            forall|a: int, b: int|
                0 <= a < b < cells@.len() ==> key_less(
                    acc_key(#[trigger] cells@[a]),
                    acc_key(#[trigger] cells@[b]),
                ),
            forall|k: int| 0 <= k < cells@.len() ==> acc_holds(#[trigger] cells@[k], all, weight),
            forall|k: int| 0 <= k < i ==> cell_key(#[trigger] out@[k]) == acc_key(cells@[k]),
            forall|k: (i64, i64)|
                cells_of(all).contains(k) <==> exists|c: int| 0 <= c < cells@.len() && acc_key(#[trigger] cells@[c]) == k,
            forall|k: int| 0 <= k < i ==> (#[trigger] out@[k]).2 == weight_at(all, cell_key(out@[k]), weight),
            all == row_views(rows@),
            rows@.len() <= i64::MAX,
        decreases cells.len() - i,
    {
        let c = &cells[i];
        let w = match weight {
            Weight::Days => {
                proof {
                    assert(acc_holds(cells@[i as int], all, weight));
                    texts(c.days@).unique_seq_to_set();
                    lemma_days_bounded(all, (c.x, c.y));
                }
                c.days.len() as i64
            },
            Weight::Samples => c.samples,
        };
        out.push((c.x, c.y, w));
        i = i + 1;
    }
    proof {
        assert forall|k: (i64, i64)| cells_of(all).contains(k) implies exists|c: int|
            0 <= c < out@.len() && cell_key(#[trigger] out@[c]) == k by {
            let c = choose|c: int| 0 <= c < cells@.len() && acc_key(#[trigger] cells@[c]) == k;
            assert(cell_key(out@[c]) == k);
        }
        assert forall|c: int| 0 <= c < out@.len() implies cells_of(all).contains(
            #[trigger] cell_key(out@[c]),
        ) by {
            assert(acc_key(cells@[c]) == cell_key(out@[c]));
        }
        assert forall|a: int, b: int| 0 <= a < b < out@.len() implies key_less(
            cell_key(#[trigger] out@[a]),
            cell_key(#[trigger] out@[b]),
        ) by {
            assert(key_less(acc_key(cells@[a]), acc_key(cells@[b])));
        }
        assert(forall|k: (i64, i64)| cells_of(all).contains(k) ==> exists|i: int|
                0 <= i < out@.len() && cell_key(#[trigger] out@[i]) == k);
        assert(forall|k: (i64, i64)| (exists|i: int|
                0 <= i < out@.len() && cell_key(#[trigger] out@[i]) == k) ==> cells_of(all).contains(k));
    }
    let r = Aggregate { cells: out, days };
    assert(r.cells@ == out@);
    assert(forall|k: (i64, i64)|
            cells_of(row_views(rows@)).contains(k) <==> exists|i: int|
                0 <= i < r.cells@.len() && cell_key(#[trigger] r.cells@[i]) == k);
    r
}

proof fn lemma_all_dates_bounded(rows: Seq<HeatRowView>)
    ensures
        all_dates(rows).len() <= rows.len(),
        all_dates(rows).finite(),
    decreases rows.len(),
{
    if rows.len() > 0 {
        lemma_all_dates_bounded(rows.drop_last());
    }
}

proof fn lemma_absent_cell(rows: Seq<HeatRowView>, key: (i64, i64))
    requires
        !cells_of(rows).contains(key),
    ensures
        dates_at(rows, key) == Set::<Seq<char>>::empty(),
        samples_at(rows, key) == 0,
    decreases rows.len(),
{
    if rows.len() > 0 {
        lemma_absent_cell(rows.drop_last(), key);
    }
}

proof fn lemma_days_bounded(rows: Seq<HeatRowView>, key: (i64, i64))
    ensures
        dates_at(rows, key).len() <= rows.len(),
        dates_at(rows, key).finite(),
    decreases rows.len(),
{
    if rows.len() > 0 {
        lemma_days_bounded(rows.drop_last(), key);
    }
}

// ---------------------------------------------------------------------------------------------
// Rendering
// ---------------------------------------------------------------------------------------------

/// More points than this and MapLibre spends longer uploading the source than drawing it. Going
/// over means coarsening, never truncating: half a heatmap is a lie about where someone was.
pub const MAX_POINTS: usize = 40_000;

/// The shift to aggregate at next when `points` cells came out at `shift`: one level coarser
/// while there are more than `cap` and a coarser level is left, otherwise none.
pub fn coarser(points: usize, cap: usize, shift: u32) -> (r: Option<u32>)
    ensures
        r == if points > cap && shift < MAX_SHIFT {
            Some((shift + 1) as u32)
        } else {
            None::<u32>
        },
{
    if points > cap && shift < MAX_SHIFT {
        Some(shift + 1)
    } else {
        None
    }
}

/// The largest weight of the cells, 0 when there are none, and the smallest box
/// `(min x, min y, max x, max y)` around them, none when there are none.
pub fn cell_extent(cells: &Vec<(i64, i64, i64)>) -> (r: (i64, Option<(i64, i64, i64, i64)>))
    ensures
        r.0 >= 0,
        forall|i: int| 0 <= i < cells@.len() ==> (#[trigger] cells@[i]).2 <= r.0,
        r.0 == 0 || exists|i: int| 0 <= i < cells@.len() && (#[trigger] cells@[i]).2 == r.0,
        match r.1 {
            None => cells@.len() == 0,
            Some((min_x, min_y, max_x, max_y)) => {
                &&& cells@.len() > 0
                &&& forall|i: int| 0 <= i < cells@.len() ==> min_x <= (#[trigger] cells@[i]).0 <= max_x
                    && min_y <= cells@[i].1 <= max_y
                &&& exists|i: int| 0 <= i < cells@.len() && (#[trigger] cells@[i]).0 == min_x
                &&& exists|i: int| 0 <= i < cells@.len() && (#[trigger] cells@[i]).1 == min_y
                &&& exists|i: int| 0 <= i < cells@.len() && (#[trigger] cells@[i]).0 == max_x
                &&& exists|i: int| 0 <= i < cells@.len() && (#[trigger] cells@[i]).1 == max_y
            },
        },
{
    let mut max_weight: i64 = 0;
    let mut extent: Option<(i64, i64, i64, i64)> = None;
    let mut i: usize = 0;
    while i < cells.len()
        invariant
            i <= cells@.len(),
            max_weight >= 0,
            forall|k: int| 0 <= k < i ==> (#[trigger] cells@[k]).2 <= max_weight,
            max_weight == 0 || exists|k: int| 0 <= k < i && (#[trigger] cells@[k]).2 == max_weight,
            match extent {
                None => i == 0,
                Some((min_x, min_y, max_x, max_y)) => {
                    &&& i > 0
                    &&& forall|k: int| 0 <= k < i ==> min_x <= (#[trigger] cells@[k]).0 <= max_x
                        && min_y <= cells@[k].1 <= max_y
                    &&& exists|k: int| 0 <= k < i && (#[trigger] cells@[k]).0 == min_x
                    &&& exists|k: int| 0 <= k < i && (#[trigger] cells@[k]).1 == min_y
                    &&& exists|k: int| 0 <= k < i && (#[trigger] cells@[k]).0 == max_x
                    &&& exists|k: int| 0 <= k < i && (#[trigger] cells@[k]).1 == max_y
                },
            },
        decreases cells.len() - i,
    {
        let (x, y, weight) = cells[i];
        if weight > max_weight {
            max_weight = weight;
        }
        extent = match extent {
            None => Some((x, y, x, y)),
            Some((min_x, min_y, max_x, max_y)) => Some((
                if x < min_x { x } else { min_x },
                if y < min_y { y } else { min_y },
                if x > max_x { x } else { max_x },
                if y > max_y { y } else { max_y },
            )),
        };
        i = i + 1;
    }
    (max_weight, extent)
}

// ---------------------------------------------------------------------------------------------
// What aggregation keeps
// ---------------------------------------------------------------------------------------------

/// The samples of all rows, added up.
pub open spec fn sum_samples(rows: Seq<HeatRowView>) -> int
    decreases rows.len(),
{
    if rows.len() == 0 {
        0
    } else {
        sum_samples(rows.drop_last()) + rows.last().samples
    }
}

/// The weights of cells, added up.
pub open spec fn sum_weights(cells: Seq<(i64, i64, i64)>) -> int
    decreases cells.len(),
{
    if cells.len() == 0 {
        0
    } else {
        sum_weights(cells.drop_last()) + cells.last().2
    }
}

/// What the rows put into each of the given cells, added up.
spec fn samples_in(keys: Seq<(i64, i64)>, rows: Seq<HeatRowView>) -> int
    decreases keys.len(),
{
    if keys.len() == 0 {
        0
    } else {
        samples_in(keys.drop_last(), rows) + samples_at(rows, keys.last())
    }
}

proof fn lemma_samples_in_push(keys: Seq<(i64, i64)>, rows: Seq<HeatRowView>, row: HeatRowView)
    requires
        keys.no_duplicates(),
    ensures
        samples_in(keys, rows.push(row)) == samples_in(keys, rows) + if keys.contains(row.key) {
            row.samples as int
        } else {
            0
        },
    decreases keys.len(),
{
    assert(rows.push(row).drop_last() =~= rows);
    if keys.len() > 0 {
        let shorter = keys.drop_last();
        assert(shorter.no_duplicates()) by {
            assert forall|i: int, j: int| 0 <= i < shorter.len() && 0 <= j < shorter.len() && i != j
                implies shorter[i] != shorter[j] by {
                assert(shorter[i] == keys[i] && shorter[j] == keys[j]);
            }
        }
        lemma_samples_in_push(shorter, rows, row);
        crate::lists::lemma_contains_push(shorter, keys.last(), row.key);
        assert(keys =~= shorter.push(keys.last()));
        if keys.last() == row.key && shorter.contains(row.key) {
            let i = choose|i: int| 0 <= i < shorter.len() && shorter[i] == row.key;
            assert(keys[i] == keys[keys.len() - 1]);
        }
    }
}

proof fn lemma_samples_in_rows(keys: Seq<(i64, i64)>, rows: Seq<HeatRowView>)
    requires
        keys.no_duplicates(),
        forall|i: int| 0 <= i < rows.len() ==> keys.contains(#[trigger] rows[i].key),
    ensures
        samples_in(keys, rows) == sum_samples(rows),
    decreases rows.len(),
{
    if rows.len() == 0 {
        lemma_samples_in_empty(keys, rows);
    } else {
        let shorter = rows.drop_last();
        assert forall|i: int| 0 <= i < shorter.len() implies keys.contains(#[trigger] shorter[i].key) by {
            assert(shorter[i] == rows[i]);
        }
        lemma_samples_in_rows(keys, shorter);
        assert(keys.contains(rows[rows.len() - 1].key));
        lemma_samples_in_push(keys, shorter, rows.last());
        assert(rows =~= shorter.push(rows.last()));
    }
}

proof fn lemma_samples_in_empty(keys: Seq<(i64, i64)>, rows: Seq<HeatRowView>)
    requires
        rows.len() == 0,
    ensures
        samples_in(keys, rows) == 0,
    decreases keys.len(),
{
    if keys.len() > 0 {
        lemma_samples_in_empty(keys.drop_last(), rows);
    }
}

/// Weighted by samples, aggregation loses nothing: the cells' weights add up to the samples of
/// all the rows, whatever cells they were coarsened into.
pub proof fn samples_are_never_lost(rows: Seq<HeatRowView>, cells: Seq<(i64, i64, i64)>)
    requires
        forall|i: int, j: int|
            0 <= i < j < cells.len() ==> key_less(cell_key(#[trigger] cells[i]), cell_key(#[trigger] cells[j])),
        forall|k: (i64, i64)|
            cells_of(rows).contains(k) <==> exists|i: int| 0 <= i < cells.len() && cell_key(#[trigger] cells[i]) == k,
        forall|i: int| 0 <= i < cells.len() ==> (#[trigger] cells[i]).2 == samples_at(rows, cell_key(cells[i])),
    ensures
        sum_weights(cells) == sum_samples(rows),
{
    let keys = cells.map_values(|c: (i64, i64, i64)| cell_key(c));
    assert(keys.no_duplicates()) by {
        assert forall|i: int, j: int| 0 <= i < keys.len() && 0 <= j < keys.len() && i != j implies keys[i]
            != keys[j] by {
            if i < j {
                assert(key_less(cell_key(cells[i]), cell_key(cells[j])));
            } else {
                assert(key_less(cell_key(cells[j]), cell_key(cells[i])));
            }
        }
    }
    assert forall|i: int| 0 <= i < rows.len() implies keys.contains(#[trigger] rows[i].key) by {
        lemma_row_cell(rows, i);
        let c = choose|c: int| 0 <= c < cells.len() && cell_key(#[trigger] cells[c]) == rows[i].key;
        assert(keys[c] == rows[i].key);
    }
    lemma_samples_in_rows(keys, rows);
    lemma_weights_are_samples_in(cells, rows);
}

proof fn lemma_row_cell(rows: Seq<HeatRowView>, i: int)
    requires
        0 <= i < rows.len(),
    ensures
        cells_of(rows).contains(rows[i].key),
    decreases rows.len(),
{
    if i < rows.len() - 1 {
        lemma_row_cell(rows.drop_last(), i);
        assert(rows.drop_last()[i] == rows[i]);
    }
}

proof fn lemma_weights_are_samples_in(cells: Seq<(i64, i64, i64)>, rows: Seq<HeatRowView>)
    requires
        forall|i: int| 0 <= i < cells.len() ==> (#[trigger] cells[i]).2 == samples_at(rows, cell_key(cells[i])),
    ensures
        sum_weights(cells) == samples_in(cells.map_values(|c: (i64, i64, i64)| cell_key(c)), rows),
    decreases cells.len(),
{
    if cells.len() > 0 {
        let shorter = cells.drop_last();
        assert forall|i: int| 0 <= i < shorter.len() implies (#[trigger] shorter[i]).2 == samples_at(
            rows,
            cell_key(shorter[i]),
        ) by {
            assert(shorter[i] == cells[i]);
        }
        lemma_weights_are_samples_in(shorter, rows);
        let keys = cells.map_values(|c: (i64, i64, i64)| cell_key(c));
        assert(keys.drop_last() =~= shorter.map_values(|c: (i64, i64, i64)| cell_key(c)));
        assert(cells[cells.len() - 1].2 == samples_at(rows, cell_key(cells[cells.len() - 1])));
    }
}

} // verus!
