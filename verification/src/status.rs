//! How much of the database each source contributed.
//!
//! Items and samples are counted per source separately: a sample carries its own source, and
//! joining millions of them to their items to find out would cost far more than a status call
//! is worth. The two tallies are merged here.

use vstd::prelude::*;
use crate::text::{clone_opt, opt_view, order_str, seq_less, Order};

verus! {

/// Items and samples of one source.
#[derive(Debug, Clone)]
pub struct SourceCounts {
    /// `None` for rows old enough to predate the column.
    pub source: Option<String>,
    pub items: i64,
    pub samples: i64,
    pub first_item_start: Option<i64>,
    pub last_item_start: Option<i64>,
}

pub struct SourceView {
    pub source: Option<Seq<char>>,
    pub items: i64,
    pub samples: i64,
    pub first_item_start: Option<i64>,
    pub last_item_start: Option<i64>,
}

impl View for SourceCounts {
    type V = SourceView;

    open spec fn view(&self) -> SourceView {
        SourceView {
            source: opt_view(self.source),
            items: self.items,
            samples: self.samples,
            first_item_start: self.first_item_start,
            last_item_start: self.last_item_start,
        }
    }
}

/// Sources in order: no source first, then by name.
pub open spec fn source_less(a: Option<Seq<char>>, b: Option<Seq<char>>) -> bool {
    match (a, b) {
        (None, Some(_)) => true,
        (Some(x), Some(y)) => seq_less(x, y),
        _ => false,
    }
}

/// Whether `a` is listed before `b`: most items first, then by source.
pub open spec fn listed_before(a: SourceView, b: SourceView) -> bool {
    a.items > b.items || (a.items == b.items && source_less(a.source, b.source))
}

/// `x` placed into a listing after everything not listed strictly after it.
pub open spec fn placed(list: Seq<SourceView>, x: SourceView) -> Seq<SourceView>
    decreases list.len(),
{
    if list.len() > 0 && listed_before(x, list.last()) {
        placed(list.drop_last(), x).push(list.last())
    } else {
        list.push(x)
    }
}

/// A stable sort by [`listed_before`].
pub open spec fn listing(rows: Seq<SourceView>) -> Seq<SourceView>
    decreases rows.len(),
{
    if rows.len() == 0 {
        Seq::empty()
    } else {
        placed(listing(rows.drop_last()), rows.last())
    }
}

/// The sample tally for `source` that is still unclaimed, and the tallies without it.
pub open spec fn take_samples(tallies: Seq<(Option<Seq<char>>, i64)>, source: Option<Seq<char>>) -> (i64, Seq<(Option<Seq<char>>, i64)>)
    decreases tallies.len(),
{
    if tallies.len() == 0 {
        (0, tallies)
    } else if tallies[0].0 == source {
        (tallies[0].1, tallies.drop_first())
    } else {
        let (n, rest) = take_samples(tallies.drop_first(), source);
        (n, seq![tallies[0]] + rest)
    }
}

/// The item rows with their sample tallies filled in, then a row for each source that has
/// samples but no items, in the order the tallies came.
pub open spec fn merged(items: Seq<SourceView>, tallies: Seq<(Option<Seq<char>>, i64)>) -> Seq<SourceView>
    decreases items.len(),
{
    if items.len() == 0 {
        tallies.map_values(|t: (Option<Seq<char>>, i64)| SourceView {
            source: t.0,
            items: 0,
            samples: t.1,
            first_item_start: None,
            last_item_start: None,
        })
    } else {
        let (n, rest) = take_samples(tallies, items[0].source);
        seq![SourceView { samples: n, ..items[0] }] + merged(items.drop_first(), rest)
    }
}

fn source_is_less(a: &Option<String>, b: &Option<String>) -> (r: bool)
    ensures
        r == source_less(opt_view(*a), opt_view(*b)),
{
    match (a, b) {
        (None, Some(_)) => true,
        (Some(x), Some(y)) => order_str(x.as_str(), y.as_str()) == Order::Less,
        _ => false,
    }
}

fn same_source(a: &Option<String>, b: &Option<String>) -> (r: bool)
    ensures
        r == (opt_view(*a) == opt_view(*b)),
{
    match (a, b) {
        (Some(x), Some(y)) => crate::text::same_text(x.as_str(), y.as_str()),
        (None, None) => true,
        _ => false,
    }
}

pub open spec fn tally_views(v: Seq<(Option<String>, i64)>) -> Seq<(Option<Seq<char>>, i64)> {
    v.map_values(|t: (Option<String>, i64)| (opt_view(t.0), t.1))
}

pub open spec fn row_views(v: Seq<SourceCounts>) -> Seq<SourceView> {
    v.map_values(|r: SourceCounts| r@)
}

/// Claims the tally of `source`, removing it.
fn claim(tallies: &mut Vec<(Option<String>, i64)>, source: &Option<String>) -> (n: i64)
    ensures
        (n, tally_views(final(tallies)@)) == take_samples(tally_views(old(tallies)@), opt_view(*source)),
{
    let ghost all = tally_views(tallies@);
    let mut i: usize = 0;
    while i < tallies.len()
        invariant
            i <= tallies@.len(),
            all == tally_views(tallies@),
            all == tally_views(old(tallies)@),
            forall|k: int| 0 <= k < i ==> all[k].0 != opt_view(*source),
        decreases tallies.len() - i,
    {
        if same_source(&tallies[i].0, source) {
            proof {
                lemma_take_samples_at(all, opt_view(*source), i as int);
            }
            let (_, n) = tallies.remove(i);
            assert(tally_views(tallies@) =~= all.take(i as int) + all.skip(i + 1));
            return n;
        }
        i = i + 1;
    }
    proof {
        lemma_take_samples_at(all, opt_view(*source), i as int);
    }
    0
}

proof fn lemma_take_samples_at(tallies: Seq<(Option<Seq<char>>, i64)>, source: Option<Seq<char>>, j: int)
    requires
        0 <= j <= tallies.len(),
        forall|k: int| 0 <= k < j ==> tallies[k].0 != source,
        j < tallies.len() ==> tallies[j].0 == source,
    ensures
        take_samples(tallies, source) == if j < tallies.len() {
            (tallies[j].1, tallies.take(j) + tallies.skip(j + 1))
        } else {
            (0i64, tallies)
        },
    decreases tallies.len(),
{
    if tallies.len() > 0 && j > 0 {
        lemma_take_samples_at(tallies.drop_first(), source, j - 1);
        if j < tallies.len() {
            assert(seq![tallies[0]] + (tallies.drop_first().take(j - 1) + tallies.drop_first().skip(j))
                =~= tallies.take(j) + tallies.skip(j + 1));
        } else {
            assert(seq![tallies[0]] + tallies.drop_first() =~= tallies);
        }
    } else if j == 0 && tallies.len() > 0 {
        assert(tallies.take(0) + tallies.skip(1) =~= tallies.drop_first());
    }
}

proof fn lemma_placed_at(list: Seq<SourceView>, x: SourceView, j: int)
    requires
        0 <= j <= list.len(),
        forall|k: int| j <= k < list.len() ==> listed_before(x, #[trigger] list[k]),
        j == 0 || !listed_before(x, list[j - 1]),
    ensures
        placed(list, x) == list.insert(j, x),
    decreases list.len() - j,
{
    if j == list.len() {
        assert(list.insert(j, x) =~= list.push(x));
    } else {
        let shorter = list.drop_last();
        lemma_placed_at(shorter, x, j);
        assert(list.insert(j, x) =~= shorter.insert(j, x).push(list.last()));
    }
}

/// Items and samples per source: the item rows with their sample counts, a row for every
/// source with samples but no items, most items first and then by source.
pub fn by_source(item_rows: Vec<SourceCounts>, sample_rows: Vec<(Option<String>, i64)>) -> (r: Vec<SourceCounts>)
    ensures
        row_views(r@) == listing(merged(row_views(item_rows@), tally_views(sample_rows@))),
{
    let mut tallies = sample_rows;
    let ghost items_all = row_views(item_rows@);
    let ghost tallies_all = tally_views(tallies@);
    let mut rows: Vec<SourceCounts> = Vec::new();
    let mut i: usize = 0;
    assert(items_all.skip(0) =~= items_all);
    assert(row_views(rows@) + merged(items_all, tallies_all) =~= merged(items_all, tallies_all));
    while i < item_rows.len()
        invariant
            i <= item_rows@.len(),
            items_all == row_views(item_rows@),
            merged(items_all, tallies_all) == row_views(rows@) + merged(items_all.skip(i as int), tally_views(tallies@)),
        decreases item_rows.len() - i,
    {
        let row = &item_rows[i];
        let ghost before = tally_views(tallies@);
        let n = claim(&mut tallies, &row.source);
        let filled = SourceCounts {
            source: clone_opt(&row.source),
            items: row.items,
            samples: n,
            first_item_start: row.first_item_start,
            last_item_start: row.last_item_start,
        };
        proof {
            let rest = items_all.skip(i as int);
            assert(rest[0] == row@);
            assert(rest.drop_first() =~= items_all.skip(i + 1));
            assert(row_views(rows@.push(filled)) =~= row_views(rows@).push(filled@));
            assert(merged(rest, before) == seq![filled@] + merged(items_all.skip(i + 1), tally_views(tallies@)));
            assert(row_views(rows@).push(filled@) + merged(items_all.skip(i + 1), tally_views(tallies@))
                =~= row_views(rows@) + (seq![filled@] + merged(items_all.skip(i + 1), tally_views(tallies@))));
        }
        rows.push(filled);
        i = i + 1;
    }
    let ghost leftover = tally_views(tallies@);
    let mut k: usize = 0;
    assert(items_all.skip(i as int) =~= Seq::<SourceView>::empty());
    while k < tallies.len()
        invariant
            k <= tallies@.len(),
            leftover == tally_views(tallies@),
            merged(items_all, tallies_all) == row_views(rows@) + merged(Seq::empty(), leftover.skip(k as int)),
        decreases tallies.len() - k,
    {
        let row = SourceCounts {
            source: clone_opt(&tallies[k].0),
            items: 0,
            samples: tallies[k].1,
            first_item_start: None,
            last_item_start: None,
        };
        proof {
            let rest = leftover.skip(k as int);
            assert(rest.drop_first() =~= leftover.skip(k + 1));
            let f = |t: (Option<Seq<char>>, i64)| SourceView {
                source: t.0,
                items: 0,
                samples: t.1,
                first_item_start: None,
                last_item_start: None,
            };
            assert(rest.map_values(f) =~= seq![row@] + rest.drop_first().map_values(f));
            assert(row_views(rows@.push(row)) =~= row_views(rows@).push(row@));
            assert(row_views(rows@).push(row@) + merged(Seq::empty(), leftover.skip(k + 1)) =~= row_views(rows@)
                + merged(Seq::empty(), leftover.skip(k as int)));
        }
        rows.push(row);
        k = k + 1;
    }
    assert(leftover.skip(k as int) =~= Seq::<(Option<Seq<char>>, i64)>::empty());
    assert(merged(Seq::<SourceView>::empty(), Seq::<(Option<Seq<char>>, i64)>::empty()) =~= Seq::<SourceView>::empty());
    assert(row_views(rows@) =~= merged(items_all, tallies_all));
    sort_listing(rows)
}

/// Sorts rows stably into listing order.
fn sort_listing(rows: Vec<SourceCounts>) -> (r: Vec<SourceCounts>)
    ensures
        row_views(r@) == listing(row_views(rows@)),
{
    let ghost all = row_views(rows@);
    let mut sorted: Vec<SourceCounts> = Vec::new();
    let mut i: usize = 0;
    while i < rows.len()
        invariant
            i <= rows@.len(),
            all == row_views(rows@),
            row_views(sorted@) == listing(all.take(i as int)),
        decreases rows.len() - i,
    {
        assert(all.take(i + 1).drop_last() =~= all.take(i as int));
        let row = &rows[i];
        let x = SourceCounts {
            source: clone_opt(&row.source),
            items: row.items,
            samples: row.samples,
            first_item_start: row.first_item_start,
            last_item_start: row.last_item_start,
        };
        assert(x@ == all[i as int]);
        let mut j: usize = sorted.len();
        while j > 0 && (sorted[j - 1].items < x.items || (sorted[j - 1].items == x.items
            && source_is_less(&x.source, &sorted[j - 1].source)))
            invariant
                j <= sorted@.len(),
                forall|k: int| j <= k < sorted@.len() ==> listed_before(x@, #[trigger] row_views(sorted@)[k]),
            decreases j,
        {
            j = j - 1;
        }
        proof {
            lemma_placed_at(row_views(sorted@), x@, j as int);
            assert(row_views(sorted@.insert(j as int, x)) =~= row_views(sorted@).insert(j as int, x@));
        }
        sorted.insert(j, x);
        i = i + 1;
    }
    assert(all.take(rows@.len() as int) =~= all);
    sorted
}

/// The last `ingest_runs` row. `finished_at` unset means a run is in flight or crashed.
#[derive(Debug, Clone)]
pub struct RunRow {
    pub id: i64,
    pub started_at: i64,
    pub finished_at: Option<i64>,
    pub device_id: Option<String>,
    pub schema_version: Option<i64>,
    pub last_backup_date: Option<i64>,
    pub files_seen: i64,
    pub files_ingested: i64,
    pub places_upserted: i64,
    pub items_upserted: i64,
    pub samples_upserted: i64,
    pub days_recomputed: i64,
    pub error: Option<String>,
}

/// Rows per table.
#[derive(Debug, Clone, Copy)]
pub struct Counts {
    pub places: i64,
    pub items: i64,
    pub samples: i64,
    pub files: i64,
    pub day_summaries: i64,
    pub heatmap_cells: i64,
}

/// No row of the sequence is listed before a row that precedes it.
pub open spec fn in_listing_order(s: Seq<SourceView>) -> bool {
    forall|i: int, j: int| 0 <= i < j < s.len() ==> !listed_before(#[trigger] s[j], #[trigger] s[i])
}

/// Two rows that share a place in a listing: as many items, the same source.
pub open spec fn same_place(a: SourceView, b: SourceView) -> bool {
    a.items == b.items && a.source == b.source
}

proof fn lemma_listed_order(a: SourceView, b: SourceView, c: SourceView)
    ensures
        !listed_before(a, a),
        listed_before(a, b) && listed_before(b, c) ==> listed_before(a, c),
        listed_before(a, b) || listed_before(b, a) || same_place(a, b),
        listed_before(a, b) && same_place(b, c) ==> listed_before(a, c),
        same_place(a, b) && listed_before(b, c) ==> listed_before(a, c),
{
    if let Some(x) = a.source {
        crate::text::lemma_seq_less_irreflexive(x);
    }
    match (a.source, b.source) {
        (Some(x), Some(y)) => {
            crate::text::lemma_seq_less_total(x, y);
        },
        _ => {},
    }
    match (a.source, b.source, c.source) {
        (Some(x), Some(y), Some(z)) => {
            if seq_less(x, y) && seq_less(y, z) {
                crate::text::lemma_seq_less_transitive(x, y, z);
            }
        },
        _ => {},
    }
}

proof fn lemma_placed_in_order(list: Seq<SourceView>, x: SourceView)
    requires
        in_listing_order(list),
    ensures
        in_listing_order(placed(list, x)),
        placed(list, x).to_multiset() == list.to_multiset().insert(x),
    decreases list.len(),
{
    broadcast use vstd::seq_lib::group_to_multiset_ensures;

    if list.len() > 0 && listed_before(x, list.last()) {
        let shorter = list.drop_last();
        let last = list.last();
        assert(in_listing_order(shorter)) by {
            assert forall|i: int, j: int| 0 <= i < j < shorter.len() implies !listed_before(
                #[trigger] shorter[j],
                #[trigger] shorter[i],
            ) by {
                assert(shorter[i] == list[i] && shorter[j] == list[j]);
            }
        }
        lemma_placed_in_order(shorter, x);
        let p = placed(shorter, x);
        assert forall|i: int| 0 <= i < p.len() implies !listed_before(last, #[trigger] p[i]) by {
            assert(p.to_multiset().count(p[i]) > 0);
            assert(shorter.to_multiset().insert(x).count(p[i]) > 0);
            if p[i] == x {
                lemma_listed_order(x, last, x);
            } else {
                assert(shorter.to_multiset().count(p[i]) > 0);
                assert(shorter.contains(p[i]));
                let k = choose|k: int| 0 <= k < shorter.len() && shorter[k] == p[i];
                assert(list[k] == p[i]);
                assert(!listed_before(list[list.len() - 1], list[k]));
            }
        }
        assert forall|i: int, j: int| 0 <= i < j < p.len() + 1 implies !listed_before(
            #[trigger] p.push(last)[j],
            #[trigger] p.push(last)[i],
        ) by {
            if j == p.len() {
                assert(p.push(last)[j] == last);
            } else {
                assert(p.push(last)[j] == p[j] && p.push(last)[i] == p[i]);
            }
        }
        assert(list =~= shorter.push(last));
    } else {
        assert forall|i: int, j: int| 0 <= i < j < list.len() + 1 implies !listed_before(
            #[trigger] list.push(x)[j],
            #[trigger] list.push(x)[i],
        ) by {
            if j == list.len() {
                let e = list[i];
                let last = list.last();
                if i < list.len() - 1 {
                    assert(!listed_before(list[list.len() - 1], list[i]));
                }
                lemma_listed_order(x, e, last);
                lemma_listed_order(e, last, x);
                lemma_listed_order(last, e, x);
                lemma_listed_order(x, last, e);
                lemma_listed_order(last, x, e);
            } else {
                assert(list.push(x)[j] == list[j] && list.push(x)[i] == list[i]);
            }
        }
    }
}

/// The sources of a status are listed most items first, then by source, and the listing holds
/// exactly the rows it was made of.
pub proof fn listing_is_sorted_permutation(rows: Seq<SourceView>)
    ensures
        in_listing_order(listing(rows)),
        listing(rows).to_multiset() == rows.to_multiset(),
    decreases rows.len(),
{
    broadcast use vstd::seq_lib::group_to_multiset_ensures;

    if rows.len() > 0 {
        listing_is_sorted_permutation(rows.drop_last());
        lemma_placed_in_order(listing(rows.drop_last()), rows.last());
        assert(rows =~= rows.drop_last().push(rows.last()));
    }
}

} // verus!
