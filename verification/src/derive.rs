//! What arches derives from Arc's items and samples: each item's local offsets and dates, and a
//! summary per local day.
//!
//! Items carry no timezone of their own; the offset has to come from the samples Arc attached
//! to them. Start and end are resolved separately because a flight legitimately starts in one
//! offset and ends in another. An item that runs over local midnight belongs to both days and
//! is clipped into each.

use vstd::prelude::*;
use std::collections::HashMap;
use crate::calendar::{
    civil_day_of, civil_text, clipped_ms, clipped_of, is_day, is_millis, local_day_of,
    millis_to_local_date, parse_day, MAX_CLIPPED_MS,
};
use crate::confirmation::Confirmation;
use crate::enums::ActivityType;
use crate::lists::{lemma_texts_push, texts};
use crate::text::{opt_view, owned, same_text, seq_less, str_less};

verus! {

// ---------------------------------------------------------------------------------------------
// Item offsets and dates
// ---------------------------------------------------------------------------------------------

/// The offset a sampleless end of an item borrows: whatever was going on either side of it, the
/// previous item's end first, then the next item's start, and UTC when neither is known. A
/// neighbour counts only once both its offsets are resolved.
pub open spec fn borrowed_offset(previous: Option<(i32, i32)>, next: Option<(i32, i32)>) -> i32 {
    match previous {
        Some(p) => p.1,
        None => match next {
            Some(n) => n.0,
            None => 0,
        },
    }
}

/// One end's offset: its own sample's, else the visit's place's, else the borrowed one.
pub open spec fn end_offset_of(
    sample: Option<i32>,
    place: Option<i32>,
    previous: Option<(i32, i32)>,
    next: Option<(i32, i32)>,
) -> i32 {
    match sample {
        Some(o) => o,
        None => match place {
            Some(o) => o,
            None => borrowed_offset(previous, next),
        },
    }
}

/// The offsets resolved for an item and the local dates they give its two ends.
pub struct ItemDates {
    pub start_offset: i32,
    pub end_offset: i32,
    /// `None` for an instant jiff cannot represent.
    pub local_start_date: Option<String>,
    pub local_end_date: Option<String>,
}

/// Resolves an item's offsets and local dates. `first_sample` and `last_sample` are the offsets
/// of the first and last sample that has one at all: a sample recorded before Arc captured
/// timezones has none, and it should not veto the ones that do. `place` is the visit's place's
/// own offset, `previous` and `next` the resolved offsets of the neighbouring items.
pub fn item_dates(
    start_date: i64,
    end_date: i64,
    first_sample: Option<i32>,
    last_sample: Option<i32>,
    place: Option<i32>,
    previous: Option<(i32, i32)>,
    next: Option<(i32, i32)>,
) -> (r: ItemDates)
    ensures
        r.start_offset == end_offset_of(first_sample, place, previous, next),
        r.end_offset == end_offset_of(last_sample, place, previous, next),
        match r.local_start_date {
            Some(t) => is_millis(start_date as int) && t@ == civil_text(
                local_day_of(start_date as int, r.start_offset as int),
            ),
            None => !is_millis(start_date as int),
        },
        match r.local_end_date {
            Some(t) => is_millis(end_date as int) && t@ == civil_text(
                local_day_of(end_date as int, r.end_offset as int),
            ),
            None => !is_millis(end_date as int),
        },
{
    let fallback: i32 = match previous {
        Some(p) => p.1,
        None => match next {
            Some(n) => n.0,
            None => 0,
        },
    };
    let start = match first_sample {
        Some(o) => o,
        None => match place {
            Some(o) => o,
            None => fallback,
        },
    };
    let end = match last_sample {
        Some(o) => o,
        None => match place {
            Some(o) => o,
            None => fallback,
        },
    };
    ItemDates {
        start_offset: start,
        end_offset: end,
        local_start_date: millis_to_local_date(start_date, start),
        local_end_date: millis_to_local_date(end_date, end),
    }
}

/// Where each end of an item gets its offset. A sample's own offset wins, then the visit's
/// place's. An end with neither is in whatever time zone the neighbours say: the previous item
/// had ended in, when the previous item's offsets are known, else the one the next item started
/// in, else UTC. Both ends borrow the same offset.
pub proof fn a_sampleless_end_borrows_from_its_neighbours(
    sample: Option<i32>,
    place: Option<i32>,
    previous: Option<(i32, i32)>,
    next: Option<(i32, i32)>,
)
    ensures
        sample matches Some(o) ==> end_offset_of(sample, place, previous, next) == o,
        sample is None ==> (place matches Some(o) ==> end_offset_of(sample, place, previous, next) == o),
        sample is None && place is None ==> (previous matches Some((_, previous_end))
            ==> end_offset_of(sample, place, previous, next) == previous_end),
        sample is None && place is None && previous is None ==> (next matches Some((next_start, _))
            ==> end_offset_of(sample, place, previous, next) == next_start),
        sample is None && place is None && previous is None && next is None ==> end_offset_of(
            sample,
            place,
            previous,
            next,
        ) == 0,
{
}

// ---------------------------------------------------------------------------------------------
// Items and samples of a day
// ---------------------------------------------------------------------------------------------

/// Visits have no activity type of their own, but the day still spent that time somewhere.
pub const STATIONARY: &'static str = "stationary";

/// An item as a day summary reads it.
#[derive(Debug, Clone)]
pub struct Item {
    pub id: String,
    pub is_visit: bool,
    pub start_date: i64,
    pub end_date: i64,
    pub start_offset: i32,
    pub end_offset: i32,
    pub activity_type: Option<i32>,
    pub local_start_date: String,
    pub local_end_date: String,
    pub visit_place_id: Option<String>,
    pub visit_country_code: Option<String>,
    pub visit_locality: Option<String>,
    pub confirmation: Confirmation,
}

/// What a day summary is told about a sample: its item, its time and offset, whether it has a
/// position at all and whether that position is accurate enough to measure distance with.
#[derive(Debug, Clone)]
pub struct Sample {
    pub item_id: Option<String>,
    pub date: i64,
    pub seconds_from_gmt: Option<i32>,
    pub has_fix: bool,
    pub accurate: bool,
}

/// A place's country code and locality, the two fields a day summary borrows from it.
#[derive(Debug, Clone)]
pub struct PlaceInfo {
    pub id: String,
    pub country_code: Option<String>,
    pub locality: Option<String>,
}

impl Item {
    /// The name the item's time is filed under: its activity type, or stationary for a visit.
    pub open spec fn kind_label_of(self) -> Seq<char> {
        if self.is_visit {
            STATIONARY@
        } else {
            ActivityType::of_raw(
                match self.activity_type {
                    Some(t) => t,
                    None => -1i32,
                },
            ).label()
        }
    }

    pub fn kind_label(&self) -> (r: String)
        ensures
            r@ == self.kind_label_of(),
    {
        if self.is_visit {
            return owned(STATIONARY);
        }
        let raw = match self.activity_type {
            Some(t) => t,
            None => ActivityType::Unknown.raw(),
        };
        ActivityType::from_raw(raw).as_str()
    }

    /// How much of the item falls on a local day, in milliseconds.
    pub open spec fn clipped_on(self, day: int) -> int {
        clipped_of(
            self.start_date as int,
            self.end_date as int,
            self.start_offset as int,
            self.end_offset as int,
            day,
        )
    }

    pub fn clipped_ms(&self, day: i64) -> (r: i64)
        requires
            is_day(day as int),
        ensures
            r == self.clipped_on(day as int),
            0 <= r <= MAX_CLIPPED_MS,
    {
        clipped_ms(self.start_date, self.end_date, self.start_offset, self.end_offset, day)
    }
}

/// Whether a day happened at all. A sample or an item boundary is evidence that it did; an item
/// merely spanning the day is not, because a months-long recording gap shows up in Arc as one
/// bogus item stretched across it, and those days have no data in them to summarize.
pub open spec fn is_a_day_of(date: Seq<char>, items: Seq<Item>, sample_count: nat) -> bool {
    sample_count > 0 || exists|i: int|
        0 <= i < items.len() && (#[trigger] items[i].local_start_date@ == date
            || items[i].local_end_date@ == date)
}

pub fn is_a_day(date: &str, items: &[Item], samples: &[Sample]) -> (r: bool)
    ensures
        r == is_a_day_of(date@, items@, samples@.len()),
{
    if samples.len() > 0 {
        return true;
    }
    let mut i: usize = 0;
    while i < items.len()
        invariant
            i <= items@.len(),
            forall|k: int| 0 <= k < i ==> !(#[trigger] items@[k].local_start_date@ == date@
                || items@[k].local_end_date@ == date@),
        decreases items.len() - i,
    {
        if same_text(items[i].local_start_date.as_str(), date) || same_text(
            items[i].local_end_date.as_str(),
            date,
        ) {
            return true;
        }
        i = i + 1;
    }
    false
}

/// `values` with `value` added at the end, unless it is already there.
pub open spec fn with_distinct(values: Seq<Seq<char>>, value: Seq<char>) -> Seq<Seq<char>> {
    if values.contains(value) {
        values
    } else {
        values.push(value)
    }
}

pub fn push_distinct(values: &mut Vec<String>, value: &str)
    ensures
        texts(final(values)@) == with_distinct(texts(old(values)@), value@),
{
    let mut i: usize = 0;
    while i < values.len()
        invariant
            i <= values@.len(),
            forall|k: int| 0 <= k < i ==> values@[k]@ != value@,
        decreases values.len() - i,
    {
        if same_text(values[i].as_str(), value) {
            assert(texts(values@)[i as int] == value@);
            return;
        }
        i = i + 1;
    }
    proof {
        if texts(values@).contains(value@) {
            let k = choose|k: int| 0 <= k < texts(values@).len() && texts(values@)[k] == value@;
            assert(values@[k]@ == value@);
        }
    }
    let s = owned(value);
    proof {
        lemma_texts_push(values@, s);
    }
    values.push(s);
}

/// Whether an item's local dates span a day: both parse, and the day lies between them.
pub open spec fn spans(item: Item, day: int) -> bool {
    match (civil_day_of(item.local_start_date@), civil_day_of(item.local_end_date@)) {
        (Some(from), Some(to)) => from <= day <= to,
        _ => false,
    }
}

/// The positions of the items whose local dates span `day`, in order.
pub open spec fn items_spanning(items: Seq<Item>, day: int) -> Seq<int>
    decreases items.len(),
{
    if items.len() == 0 {
        Seq::empty()
    } else if spans(items.last(), day) {
        items_spanning(items.drop_last(), day).push(items.len() - 1)
    } else {
        items_spanning(items.drop_last(), day)
    }
}

/// For each wanted day, the positions of the items whose local dates span it, in order. An
/// item whose dates do not parse is on no day at all.
pub fn bucket_by_date(items: &[Item], wanted: &[i64]) -> (r: Vec<Vec<usize>>)
    ensures
        r@.len() == wanted@.len(),
        forall|k: int| 0 <= k < wanted@.len() ==> (#[trigger] r@[k])@.map_values(|i: usize| i as int)
            == items_spanning(items@, wanted@[k] as int),
{
    let mut ranges: Vec<Option<(i64, i64)>> = Vec::new();
    let mut i: usize = 0;
    while i < items.len()
        invariant
            i <= items@.len(),
            ranges@.len() == i,
            forall|j: int| 0 <= j < i ==> match #[trigger] ranges@[j] {
                Some(p) => civil_day_of(items@[j].local_start_date@) == Some(p.0 as int)
                    && civil_day_of(items@[j].local_end_date@) == Some(p.1 as int),
                None => civil_day_of(items@[j].local_start_date@) is None || civil_day_of(
                    items@[j].local_end_date@,
                ) is None,
            },
        decreases items.len() - i,
    {
        let from = parse_day(items[i].local_start_date.as_str());
        let to = parse_day(items[i].local_end_date.as_str());
        let range = match (from, to) {
            (Some(a), Some(b)) => Some((a, b)),
            _ => None,
        };
        ranges.push(range);
        i = i + 1;
    }
    let mut buckets: Vec<Vec<usize>> = Vec::new();
    let mut k: usize = 0;
    while k < wanted.len()
        invariant
            k <= wanted@.len(),
            ranges@.len() == items@.len(),
            forall|j: int| 0 <= j < items@.len() ==> match #[trigger] ranges@[j] {
                Some(p) => civil_day_of(items@[j].local_start_date@) == Some(p.0 as int)
                    && civil_day_of(items@[j].local_end_date@) == Some(p.1 as int),
                None => civil_day_of(items@[j].local_start_date@) is None || civil_day_of(
                    items@[j].local_end_date@,
                ) is None,
            },
            buckets@.len() == k,
            forall|m: int| 0 <= m < k ==> (#[trigger] buckets@[m])@.map_values(|i: usize| i as int)
                == items_spanning(items@, wanted@[m] as int),
        decreases wanted.len() - k,
    {
        let day = wanted[k];
        let mut bucket: Vec<usize> = Vec::new();
        let mut j: usize = 0;
        while j < items.len()
            invariant
                j <= items@.len(),
                ranges@.len() == items@.len(),
                forall|x: int| 0 <= x < items@.len() ==> match #[trigger] ranges@[x] {
                    Some(p) => civil_day_of(items@[x].local_start_date@) == Some(p.0 as int)
                        && civil_day_of(items@[x].local_end_date@) == Some(p.1 as int),
                    None => civil_day_of(items@[x].local_start_date@) is None || civil_day_of(
                        items@[x].local_end_date@,
                    ) is None,
                },
                bucket@.map_values(|i: usize| i as int) == items_spanning(
                    items@.take(j as int),
                    day as int,
                ),
            decreases items.len() - j,
        {
            let ghost upto = items@.take(j + 1);
            assert(upto.drop_last() =~= items@.take(j as int));
            assert(upto.last() == items@[j as int]);
            let inside = match ranges[j] {
                Some((a, b)) => a <= day && day <= b,
                None => false,
            };
            assert(inside == spans(items@[j as int], day as int));
            if inside {
                bucket.push(j);
                assert(bucket@.map_values(|i: usize| i as int) =~= items_spanning(
                    items@.take(j as int),
                    day as int,
                ).push(j as int));
            }
            j = j + 1;
        }
        assert(items@.take(items@.len() as int) =~= items@);
        buckets.push(bucket);
        k = k + 1;
    }
    buckets
}


// ---------------------------------------------------------------------------------------------
// What the items of a day add up to
// ---------------------------------------------------------------------------------------------

/// The whole seconds of an item on a day.
pub open spec fn seconds_on(item: Item, day: int) -> int {
    item.clipped_on(day) / 1000
}

/// `totals` with `amount` added to the entry called `name`, or with a new entry for it where
/// its name sorts among the others.
pub open spec fn add_to(totals: Seq<(Seq<char>, int)>, name: Seq<char>, amount: int) -> Seq<
    (Seq<char>, int),
>
    decreases totals.len(),
{
    if totals.len() == 0 {
        seq![(name, amount)]
    } else if totals[0].0 == name {
        totals.update(0, (name, totals[0].1 + amount))
    } else if seq_less(name, totals[0].0) {
        seq![(name, amount)] + totals
    } else {
        seq![totals[0]] + add_to(totals.drop_first(), name, amount)
    }
}

/// Seconds on the day per type name, in name order.
pub open spec fn durations(items: Seq<Item>, day: int) -> Seq<(Seq<char>, int)>
    decreases items.len(),
{
    if items.len() == 0 {
        Seq::empty()
    } else {
        add_to(durations(items.drop_last(), day), items.last().kind_label_of(), seconds_on(items.last(), day))
    }
}

pub open spec fn count_visits(items: Seq<Item>) -> nat
    decreases items.len(),
{
    if items.len() == 0 {
        0
    } else {
        count_visits(items.drop_last()) + if items.last().is_visit { 1nat } else { 0nat }
    }
}

pub open spec fn count_unconfirmed(items: Seq<Item>) -> nat
    decreases items.len(),
{
    if items.len() == 0 {
        0
    } else {
        count_unconfirmed(items.drop_last()) + if items.last().confirmation.confirmed { 0nat } else { 1nat }
    }
}

/// The seconds on the day spent in trips.
pub open spec fn moving_seconds_of(items: Seq<Item>, day: int) -> int
    decreases items.len(),
{
    if items.len() == 0 {
        0
    } else {
        moving_seconds_of(items.drop_last(), day) + if items.last().is_visit {
            0
        } else {
            seconds_on(items.last(), day)
        }
    }
}

/// The first place listed under `id`.
pub open spec fn place_of(places: Seq<PlaceInfo>, id: Seq<char>) -> Option<PlaceInfo>
    decreases places.len(),
{
    if places.len() == 0 {
        None
    } else if places[0].id@ == id {
        Some(places[0])
    } else {
        place_of(places.drop_first(), id)
    }
}

/// A visit's place, when it has one that is known.
pub open spec fn visit_place(item: Item, places: Seq<PlaceInfo>) -> Option<PlaceInfo> {
    match item.visit_place_id {
        Some(id) => place_of(places, id@),
        None => None,
    }
}

/// A visit's country code: its place's, or the one the visit recorded itself. The place is the
/// better source; a visit that never got one still knows roughly where it was.
pub open spec fn visit_country(item: Item, places: Seq<PlaceInfo>) -> Option<Seq<char>> {
    let from_place = match visit_place(item, places) {
        Some(p) => opt_view(p.country_code),
        None => None,
    };
    match from_place {
        Some(c) => Some(c),
        None => opt_view(item.visit_country_code),
    }
}

/// A visit's locality, chosen the same way.
pub open spec fn visit_locality(item: Item, places: Seq<PlaceInfo>) -> Option<Seq<char>> {
    let from_place = match visit_place(item, places) {
        Some(p) => opt_view(p.locality),
        None => None,
    };
    match from_place {
        Some(l) => Some(l),
        None => opt_view(item.visit_locality),
    }
}

/// The distinct place ids of the day's visits, in order.
pub open spec fn place_ids_of(items: Seq<Item>) -> Seq<Seq<char>>
    decreases items.len(),
{
    if items.len() == 0 {
        Seq::empty()
    } else {
        let before = place_ids_of(items.drop_last());
        let item = items.last();
        if item.is_visit && item.visit_place_id is Some {
            with_distinct(before, item.visit_place_id->0@)
        } else {
            before
        }
    }
}

/// The distinct country codes of the day's visits, in order.
pub open spec fn country_codes_of(items: Seq<Item>, places: Seq<PlaceInfo>) -> Seq<Seq<char>>
    decreases items.len(),
{
    if items.len() == 0 {
        Seq::empty()
    } else {
        let before = country_codes_of(items.drop_last(), places);
        let item = items.last();
        if item.is_visit && visit_country(item, places) is Some {
            with_distinct(before, visit_country(item, places)->0)
        } else {
            before
        }
    }
}

/// The distinct localities of the day's visits, in order.
pub open spec fn localities_of(items: Seq<Item>, places: Seq<PlaceInfo>) -> Seq<Seq<char>>
    decreases items.len(),
{
    if items.len() == 0 {
        Seq::empty()
    } else {
        let before = localities_of(items.drop_last(), places);
        let item = items.last();
        if item.is_visit && visit_locality(item, places) is Some {
            with_distinct(before, visit_locality(item, places)->0)
        } else {
            before
        }
    }
}

/// Type names and totals as plain values.
pub open spec fn totals_view(v: Seq<(String, i64)>) -> Seq<(Seq<char>, int)> {
    v.map_values(|p: (String, i64)| (p.0@, p.1 as int))
}

/// Type names and totals as plain values, from totals kept wide while they are added up.
pub open spec fn wide_totals_view(v: Seq<(String, i128)>) -> Seq<(Seq<char>, int)> {
    v.map_values(|p: (String, i128)| (p.0@, p.1 as int))
}

proof fn lemma_add_to_at(totals: Seq<(Seq<char>, int)>, name: Seq<char>, amount: int, j: int)
    requires
        0 <= j <= totals.len(),
        forall|k: int| 0 <= k < j ==> totals[k].0 != name && !seq_less(name, #[trigger] totals[k].0),
        j < totals.len() ==> totals[j].0 == name || seq_less(name, totals[j].0),
    ensures
        add_to(totals, name, amount) == if j < totals.len() && totals[j].0 == name {
            totals.update(j, (name, totals[j].1 + amount))
        } else {
            totals.insert(j, (name, amount))
        },
    decreases totals.len(),
{
    if totals.len() > 0 && j > 0 {
        assert(totals[0].0 != name && !seq_less(name, totals[0].0));
        let rest = totals.drop_first();
        assert forall|k: int| 0 <= k < j - 1 implies rest[k].0 != name && !seq_less(name, #[trigger] rest[k].0) by {
            assert(rest[k] == totals[k + 1]);
        }
        lemma_add_to_at(rest, name, amount, j - 1);
        if j < totals.len() && totals[j].0 == name {
            assert(seq![totals[0]] + rest.update(j - 1, (name, totals[j].1 + amount))
                =~= totals.update(j, (name, totals[j].1 + amount)));
        } else {
            assert(seq![totals[0]] + rest.insert(j - 1, (name, amount)) =~= totals.insert(
                j,
                (name, amount),
            ));
        }
    } else if totals.len() == 0 {
        assert(seq![(name, amount)] =~= totals.insert(0, (name, amount)));
    } else if totals[0].0 != name {
        assert(seq![(name, amount)] + totals =~= totals.insert(0, (name, amount)));
    }
}

/// Adds `amount` seconds under `name`.
fn add_seconds(totals: &mut Vec<(String, i128)>, name: String, amount: i128)
    requires
        forall|k: int| 0 <= k < wide_totals_view(old(totals)@).len() ==> 0 <= #[trigger] wide_totals_view(
            old(totals)@,
        )[k].1 <= i128::MAX - amount,
        amount >= 0,
    ensures
        wide_totals_view(final(totals)@) == add_to(wide_totals_view(old(totals)@), name@, amount as int),
{
    let ghost before = wide_totals_view(totals@);
    let mut j: usize = 0;
    while j < totals.len() && !same_text(totals[j].0.as_str(), name.as_str()) && !str_less(
        name.as_str(),
        totals[j].0.as_str(),
    )
        invariant
            j <= totals@.len(),
            wide_totals_view(totals@) == before,
            before == wide_totals_view(old(totals)@),
            forall|k: int| 0 <= k < j ==> before[k].0 != name@ && !seq_less(name@, #[trigger] before[k].0),
        decreases totals.len() - j,
    {
        assert(before[j as int].0 == totals@[j as int].0@);
        j = j + 1;
    }
    if j < totals.len() {
        assert(before[j as int].0 == totals@[j as int].0@);
    }
    proof {
        lemma_add_to_at(before, name@, amount as int, j as int);
    }
    if j < totals.len() && same_text(totals[j].0.as_str(), name.as_str()) {
        assert(totals@[j as int].1 == before[j as int].1);
        let sum = totals[j].1 + amount;
        totals.set(j, (name, sum));
        assert(wide_totals_view(totals@) =~= before.update(j as int, (name@, before[j as int].1 + amount)));
    } else {
        let ghost name_view = name@;
        totals.insert(j, (name, amount));
        assert(wide_totals_view(totals@) =~= before.insert(j as int, (name_view, amount as int)));
    }
}

/// The first place listed under `id`.
fn find_place(places: &[PlaceInfo], id: &str) -> (r: Option<usize>)
    ensures
        match r {
            Some(i) => i < places@.len() && place_of(places@, id@) == Some(places@[i as int]),
            None => place_of(places@, id@) is None,
        },
{
    let mut i: usize = 0;
    assert(places@.skip(0) =~= places@);
    while i < places.len()
        invariant
            i <= places@.len(),
            place_of(places@, id@) == place_of(places@.skip(i as int), id@),
        decreases places.len() - i,
    {
        assert(places@.skip(i as int).drop_first() =~= places@.skip(i + 1));
        if same_text(places[i].id.as_str(), id) {
            return Some(i);
        }
        i = i + 1;
    }
    None
}

/// What the items of a day add up to.
pub struct ItemTotals {
    pub visit_count: u64,
    pub trip_count: u64,
    /// Kept wide, so that no count of items can overflow it.
    pub moving_seconds: i128,
    pub unconfirmed_items: u64,
    /// Kept wide, so that no count of items can overflow them.
    pub duration_by_type: Vec<(String, i128)>,
    pub place_ids: Vec<String>,
    pub country_codes: Vec<String>,
    pub localities: Vec<String>,
}

/// Adds up the items of `day`.
pub fn item_totals(items: &[Item], day: i64, places: &[PlaceInfo]) -> (r: ItemTotals)
    requires
        is_day(day as int),
    ensures
        r.visit_count == count_visits(items@),
        r.trip_count == items@.len() - count_visits(items@),
        r.moving_seconds == moving_seconds_of(items@, day as int),
        r.unconfirmed_items == count_unconfirmed(items@),
        wide_totals_view(r.duration_by_type@) == durations(items@, day as int),
        forall|k: int| 0 <= k < wide_totals_view(r.duration_by_type@).len() ==> 0 <= #[trigger] wide_totals_view(r.duration_by_type@)[k].1,
        r.moving_seconds >= 0,
        texts(r.place_ids@) == place_ids_of(items@),
        texts(r.country_codes@) == country_codes_of(items@, places@),
        texts(r.localities@) == localities_of(items@, places@),
{
    let mut totals = ItemTotals {
        visit_count: 0,
        trip_count: 0,
        moving_seconds: 0,
        unconfirmed_items: 0,
        duration_by_type: Vec::new(),
        place_ids: Vec::new(),
        country_codes: Vec::new(),
        localities: Vec::new(),
    };
    let mut i: usize = 0;
    while i < items.len()
        invariant
            i <= items@.len(),
            is_day(day as int),
            totals.visit_count == count_visits(items@.take(i as int)),
            totals.trip_count == i - count_visits(items@.take(i as int)),
            count_visits(items@.take(i as int)) <= i,
            totals.unconfirmed_items == count_unconfirmed(items@.take(i as int)),
            count_unconfirmed(items@.take(i as int)) <= i,
            totals.moving_seconds == moving_seconds_of(items@.take(i as int), day as int),
            0 <= totals.moving_seconds <= i * 273_598,
            wide_totals_view(totals.duration_by_type@) == durations(items@.take(i as int), day as int),
            forall|k: int| 0 <= k < wide_totals_view(totals.duration_by_type@).len() ==> 0 <= #[trigger] wide_totals_view(totals.duration_by_type@)[k].1 <= i * 273_598,
            texts(totals.place_ids@) == place_ids_of(items@.take(i as int)),
            texts(totals.country_codes@) == country_codes_of(items@.take(i as int), places@),
            texts(totals.localities@) == localities_of(items@.take(i as int), places@),
        decreases items.len() - i,
    {
        let ghost upto = items@.take(i + 1);
        assert(upto.drop_last() =~= items@.take(i as int));
        let item = &items[i];
        assert(upto.last() == *item);
        let seconds = item.clipped_ms(day) / 1000;
        assert(seconds <= 273_598);
        assert(i <= 0xffff_ffff_ffff_ffff);
        assert(i * 273_598 <= 0xffff_ffff_ffff_ffff * 273_598) by (nonlinear_arith)
            requires
                i <= 0xffff_ffff_ffff_ffff,
        ;
        proof {
            lemma_add_to_bounded(wide_totals_view(totals.duration_by_type@), item.kind_label_of(), seconds as int, i * 273_598);
        }
        add_seconds(&mut totals.duration_by_type, item.kind_label(), seconds as i128);
        if !item.confirmation.confirmed {
            totals.unconfirmed_items = totals.unconfirmed_items + 1;
        }
        if item.is_visit {
            totals.visit_count = totals.visit_count + 1;
            let place = match &item.visit_place_id {
                Some(id) => find_place(places, id.as_str()),
                None => None,
            };
            if let Some(id) = &item.visit_place_id {
                push_distinct(&mut totals.place_ids, id.as_str());
            }
            let country = match place {
                Some(p) => match &places[p].country_code {
                    Some(c) => Some(c.clone()),
                    None => crate::text::clone_opt(&item.visit_country_code),
                },
                None => crate::text::clone_opt(&item.visit_country_code),
            };
            let locality = match place {
                Some(p) => match &places[p].locality {
                    Some(l) => Some(l.clone()),
                    None => crate::text::clone_opt(&item.visit_locality),
                },
                None => crate::text::clone_opt(&item.visit_locality),
            };
            assert(opt_view(country) == visit_country(*item, places@));
            assert(opt_view(locality) == visit_locality(*item, places@));
            if let Some(code) = &country {
                push_distinct(&mut totals.country_codes, code.as_str());
            }
            if let Some(name) = &locality {
                push_distinct(&mut totals.localities, name.as_str());
            }
        } else {
            totals.trip_count = totals.trip_count + 1;
            totals.moving_seconds = totals.moving_seconds + seconds as i128;
        }
        i = i + 1;
    }
    assert(items@.take(items@.len() as int) =~= items@);
    totals
}

proof fn lemma_add_to_bounded(totals: Seq<(Seq<char>, int)>, name: Seq<char>, amount: int, bound: int)
    requires
        forall|k: int| 0 <= k < totals.len() ==> 0 <= #[trigger] totals[k].1 <= bound,
        0 <= amount <= 273_598,
        bound >= 0,
    ensures
        forall|k: int| 0 <= k < add_to(totals, name, amount).len() ==> 0 <= #[trigger] add_to(
            totals,
            name,
            amount,
        )[k].1 <= bound + 273_598,
    decreases totals.len(),
{
    if totals.len() > 0 && totals[0].0 != name && seq_less(name, totals[0].0) {
        assert forall|k: int| 0 <= k < add_to(totals, name, amount).len() implies 0
            <= #[trigger] add_to(totals, name, amount)[k].1 <= bound + 273_598 by {
            if k > 0 {
                assert(add_to(totals, name, amount)[k] == totals[k - 1]);
            }
        }
    } else if totals.len() > 0 && totals[0].0 != name {
        lemma_add_to_bounded(totals.drop_first(), name, amount, bound);
        let rest = add_to(totals.drop_first(), name, amount);
        assert forall|k: int| 0 <= k < add_to(totals, name, amount).len() implies 0
            <= #[trigger] add_to(totals, name, amount)[k].1 <= bound + 273_598 by {
            if k > 0 {
                assert(add_to(totals, name, amount)[k] == rest[k - 1]);
            }
        }
    }
}


// ---------------------------------------------------------------------------------------------
// What the samples of a day add up to
// ---------------------------------------------------------------------------------------------

/// Arc sleeps between samples; a longer gap than this many milliseconds is not a straight line
/// someone walked, so the pair contributes no distance.
pub const MAX_SAMPLE_GAP_MS: i64 = 600_000;

/// How many samples carry the offset `o`.
pub open spec fn offset_count(samples: Seq<Sample>, o: i32) -> nat
    decreases samples.len(),
{
    if samples.len() == 0 {
        0
    } else {
        offset_count(samples.drop_last(), o) + if samples.last().seconds_from_gmt == Some(o) {
            1nat
        } else {
            0nat
        }
    }
}

/// Whether `o` is the offset most samples carry, ties going to the larger offset only so the
/// result does not depend on the order of anything.
pub open spec fn is_main_offset(samples: Seq<Sample>, o: i32) -> bool {
    &&& offset_count(samples, o) > 0
    &&& forall|p: i32| #[trigger] offset_count(samples, p) > 0 ==> offset_count(samples, p) < offset_count(samples, o)
        || (offset_count(samples, p) == offset_count(samples, o) && p <= o)
}

/// The day's offset: the one most samples carry, else the first item's start offset.
pub open spec fn utc_offset_of(samples: Seq<Sample>, items: Seq<Item>) -> Option<i32> {
    if exists|o: i32| offset_count(samples, o) > 0 {
        Some(choose|o: i32| is_main_offset(samples, o))
    } else if items.len() > 0 {
        Some(items[0].start_offset)
    } else {
        None
    }
}

proof fn lemma_main_offset_unique(samples: Seq<Sample>, a: i32, b: i32)
    requires
        is_main_offset(samples, a),
        is_main_offset(samples, b),
    ensures
        a == b,
{
    assert(offset_count(samples, b) > 0);
    assert(offset_count(samples, a) > 0);
}

proof fn lemma_offset_count_push(samples: Seq<Sample>, s: Sample, o: i32)
    ensures
        offset_count(samples.push(s), o) == offset_count(samples, o) + if s.seconds_from_gmt == Some(o) {
            1nat
        } else {
            0nat
        },
{
    assert(samples.push(s).drop_last() =~= samples);
}

proof fn lemma_counted_offset_occurs(samples: Seq<Sample>, o: i32)
    requires
        offset_count(samples, o) > 0,
    ensures
        exists|j: int| 0 <= j < samples.len() && (#[trigger] samples[j]).seconds_from_gmt == Some(o),
    decreases samples.len(),
{
    if samples.last().seconds_from_gmt == Some(o) {
        assert(samples[samples.len() - 1].seconds_from_gmt == Some(o));
    } else {
        lemma_counted_offset_occurs(samples.drop_last(), o);
        let j = choose|j: int| 0 <= j < samples.drop_last().len() && (#[trigger] samples.drop_last()[j]).seconds_from_gmt == Some(o);
        assert(samples[j] == samples.drop_last()[j]);
    }
}

proof fn lemma_occurring_offset_counted(samples: Seq<Sample>, j: int)
    requires
        0 <= j < samples.len(),
        samples[j].seconds_from_gmt is Some,
    ensures
        offset_count(samples, samples[j].seconds_from_gmt->0) > 0,
    decreases samples.len(),
{
    if j < samples.len() - 1 {
        assert(samples.drop_last()[j] == samples[j]);
        lemma_occurring_offset_counted(samples.drop_last(), j);
    }
}

/// The offset most samples carry, ties to the larger one, else the first item's start offset.
pub fn utc_offset(samples: &[Sample], items: &[Item]) -> (r: Option<i32>)
    ensures
        r == utc_offset_of(samples@, items@),
{
    broadcast use vstd::std_specs::hash::group_hash_axioms;

    // How many samples carry each offset seen so far.
    let mut counts: HashMap<i32, u64> = HashMap::new();
    let mut i: usize = 0;
    while i < samples.len()
        invariant
            i <= samples@.len(),
            forall|o: i32| #[trigger] counts@.contains_key(o) <==> offset_count(samples@.take(i as int), o) > 0,
            forall|o: i32| counts@.contains_key(o) ==> counts@[o] == #[trigger] offset_count(samples@.take(i as int), o),
            forall|o: i32| #[trigger] offset_count(samples@.take(i as int), o) <= i,
        decreases samples.len() - i,
    {
        let ghost before = samples@.take(i as int);
        let ghost upto = samples@.take(i + 1);
        assert(upto =~= before.push(samples@[i as int]));
        proof {
            assert forall|o: i32| offset_count(upto, o) == offset_count(before, o) + if samples@[i as int].seconds_from_gmt == Some(o) {
                1nat
            } else {
                0nat
            } by {
                lemma_offset_count_push(before, samples@[i as int], o);
            }
        }
        if let Some(o) = samples[i].seconds_from_gmt {
            let c: u64 = match counts.get(&o) {
                Some(c) => *c,
                None => 0,
            };
            assert(c == offset_count(before, o));
            counts.insert(o, c + 1);
        }
        i = i + 1;
    }
    assert(samples@.take(samples@.len() as int) =~= samples@);
    // The offset with the most samples, met in sample order.
    let mut best: Option<(i32, u64)> = None;
    let mut j: usize = 0;
    while j < samples.len()
        invariant
            j <= samples@.len(),
            samples@.take(samples@.len() as int) == samples@,
            forall|o: i32| #[trigger] counts@.contains_key(o) <==> offset_count(samples@, o) > 0,
            forall|o: i32| counts@.contains_key(o) ==> counts@[o] == #[trigger] offset_count(samples@, o),
            match best {
                Some((bo, bc)) => bc == offset_count(samples@, bo) && bc > 0,
                None => forall|m: int| 0 <= m < j ==> (#[trigger] samples@[m]).seconds_from_gmt is None,
            },
            forall|m: int| 0 <= m < j && (#[trigger] samples@[m]).seconds_from_gmt is Some ==> {
                let p = samples@[m].seconds_from_gmt->0;
                best matches Some((bo, bc)) && (offset_count(samples@, p) < bc || (offset_count(samples@, p) == bc && p <= bo))
            },
        decreases samples.len() - j,
    {
        if let Some(o) = samples[j].seconds_from_gmt {
            proof {
                lemma_occurring_offset_counted(samples@, j as int);
            }
            let c: u64 = match counts.get(&o) {
                Some(c) => *c,
                None => 0,
            };
            assert(c == offset_count(samples@, o));
            match best {
                Some((bo, bc)) => {
                    if c > bc || (c == bc && o > bo) {
                        best = Some((o, c));
                    }
                },
                None => {
                    best = Some((o, c));
                },
            }
        }
        j = j + 1;
    }
    match best {
        Some((chosen, _)) => {
            proof {
                assert(is_main_offset(samples@, chosen)) by {
                    assert forall|p: i32| #[trigger] offset_count(samples@, p) > 0 implies offset_count(samples@, p)
                        < offset_count(samples@, chosen) || (offset_count(samples@, p) == offset_count(
                        samples@,
                        chosen,
                    ) && p <= chosen) by {
                        lemma_counted_offset_occurs(samples@, p);
                        let m = choose|m: int| 0 <= m < samples@.len() && (#[trigger] samples@[m]).seconds_from_gmt == Some(p);
                        assert(samples@[m].seconds_from_gmt is Some);
                    }
                }
                assert(exists|o: i32| offset_count(samples@, o) > 0) by {
                    assert(offset_count(samples@, chosen) > 0);
                }
                let picked = choose|o: i32| is_main_offset(samples@, o);
                lemma_main_offset_unique(samples@, picked, chosen);
            }
            Some(chosen)
        },
        None => {
            proof {
                assert(!exists|o: i32| offset_count(samples@, o) > 0) by {
                    if exists|o: i32| offset_count(samples@, o) > 0 {
                        let o = choose|o: i32| offset_count(samples@, o) > 0;
                        lemma_counted_offset_occurs(samples@, o);
                        let m = choose|m: int| 0 <= m < samples@.len() && (#[trigger] samples@[m]).seconds_from_gmt == Some(o);
                    }
                }
            }
            if items.len() > 0 {
                Some(items[0].start_offset)
            } else {
                None
            }
        },
    }
}

/// The earliest sample time, by time rather than by position: samples arrive ordered by item.
pub open spec fn first_sample_of(samples: Seq<Sample>) -> Option<i64>
    decreases samples.len(),
{
    if samples.len() == 0 {
        None
    } else {
        match first_sample_of(samples.drop_last()) {
            Some(t) => Some(if samples.last().date < t { samples.last().date } else { t }),
            None => Some(samples.last().date),
        }
    }
}

/// The latest sample time.
pub open spec fn last_sample_of(samples: Seq<Sample>) -> Option<i64>
    decreases samples.len(),
{
    if samples.len() == 0 {
        None
    } else {
        match last_sample_of(samples.drop_last()) {
            Some(t) => Some(if samples.last().date > t { samples.last().date } else { t }),
            None => Some(samples.last().date),
        }
    }
}

/// The earliest and latest sample time.
pub fn sample_span(samples: &[Sample]) -> (r: (Option<i64>, Option<i64>))
    ensures
        r.0 == first_sample_of(samples@),
        r.1 == last_sample_of(samples@),
{
    let mut first: Option<i64> = None;
    let mut last: Option<i64> = None;
    let mut i: usize = 0;
    while i < samples.len()
        invariant
            i <= samples@.len(),
            first == first_sample_of(samples@.take(i as int)),
            last == last_sample_of(samples@.take(i as int)),
        decreases samples.len() - i,
    {
        let ghost upto = samples@.take(i + 1);
        assert(upto.drop_last() =~= samples@.take(i as int));
        let date = samples[i].date;
        first = match first {
            Some(t) => Some(if date < t { date } else { t }),
            None => Some(date),
        };
        last = match last {
            Some(t) => Some(if date > t { date } else { t }),
            None => Some(date),
        };
        i = i + 1;
    }
    assert(samples@.take(samples@.len() as int) =~= samples@);
    (first, last)
}

/// A straight line between two samples that counts as distance travelled, filed under the
/// type of the trip it belongs to.
pub struct Leg {
    pub from: usize,
    pub to: usize,
    pub activity: String,
}

pub struct LegView {
    pub from: int,
    pub to: int,
    pub activity: Seq<char>,
}

impl View for Leg {
    type V = LegView;

    open spec fn view(&self) -> LegView {
        LegView { from: self.from as int, to: self.to as int, activity: self.activity@ }
    }
}

/// The first item of the day with the given id.
pub open spec fn item_of(items: Seq<Item>, id: Seq<char>) -> Option<Item>
    decreases items.len(),
{
    if items.len() == 0 {
        None
    } else if items[0].id@ == id {
        Some(items[0])
    } else {
        item_of(items.drop_first(), id)
    }
}

/// The chain of positioned samples so far: the legs found and the last accurate sample of an
/// item to measure the next one against.
pub struct Chain {
    pub legs: Seq<LegView>,
    pub previous: Option<(Seq<char>, int, int)>,
}

/// Walks the samples in order. A sample without a position is passed over; an inaccurate fix is
/// dropped from the chain entirely rather than bridged over, so the next accurate pair is
/// measured against the last accurate one; a sample outside any item breaks the chain. Two
/// accurate samples in a row make a leg when they belong to the same trip and are at most
/// [`MAX_SAMPLE_GAP_MS`] apart.
pub open spec fn chain_of(samples: Seq<Sample>, items: Seq<Item>) -> Chain
    decreases samples.len(),
{
    if samples.len() == 0 {
        Chain { legs: Seq::empty(), previous: None }
    } else {
        let before = chain_of(samples.drop_last(), items);
        let s = samples.last();
        let index = samples.len() - 1;
        if !s.has_fix || !s.accurate {
            before
        } else {
            match s.item_id {
                None => Chain { legs: before.legs, previous: None },
                Some(id) => {
                    let joins = match before.previous {
                        Some(p) => p.0 == id@ && s.date - p.1 <= MAX_SAMPLE_GAP_MS && match item_of(items, id@) {
                            Some(item) => !item.is_visit,
                            None => false,
                        },
                        None => false,
                    };
                    let last = before.previous->0;
                    let legs = if joins {
                        before.legs.push(
                            LegView {
                                from: last.2,
                                to: index,
                                activity: item_of(items, id@)->0.kind_label_of(),
                            },
                        )
                    } else {
                        before.legs
                    };
                    Chain { legs, previous: Some((id@, s.date as int, index)) }
                },
            }
        }
    }
}

pub open spec fn leg_views(v: Seq<Leg>) -> Seq<LegView> {
    v.map_values(|l: Leg| l@)
}

fn find_item(items: &[Item], id: &str) -> (r: Option<usize>)
    ensures
        match r {
            Some(i) => i < items@.len() && item_of(items@, id@) == Some(items@[i as int]),
            None => item_of(items@, id@) is None,
        },
{
    let mut i: usize = 0;
    assert(items@.skip(0) =~= items@);
    while i < items.len()
        invariant
            i <= items@.len(),
            item_of(items@, id@) == item_of(items@.skip(i as int), id@),
        decreases items.len() - i,
    {
        assert(items@.skip(i as int).drop_first() =~= items@.skip(i + 1));
        if same_text(items[i].id.as_str(), id) {
            return Some(i);
        }
        i = i + 1;
    }
    None
}

/// The legs that count as distance travelled on the day.
pub fn distance_legs(samples: &[Sample], items: &[Item]) -> (r: Vec<Leg>)
    ensures
        leg_views(r@) == chain_of(samples@, items@).legs,
{
    let mut legs: Vec<Leg> = Vec::new();
    let mut previous: Option<(String, i64, usize)> = None;
    let mut i: usize = 0;
    while i < samples.len()
        invariant
            i <= samples@.len(),
            leg_views(legs@) == chain_of(samples@.take(i as int), items@).legs,
            match previous {
                Some(p) => chain_of(samples@.take(i as int), items@).previous == Some(
                    (p.0@, p.1 as int, p.2 as int),
                ),
                None => chain_of(samples@.take(i as int), items@).previous is None,
            },
        decreases samples.len() - i,
    {
        let ghost upto = samples@.take(i + 1);
        assert(upto.drop_last() =~= samples@.take(i as int));
        assert(upto.last() == samples@[i as int]);
        let s = &samples[i];
        if s.has_fix && s.accurate {
            match &s.item_id {
                None => {
                    previous = None;
                },
                Some(id) => {
                    let joins = match &previous {
                        Some((pid, pdate, _)) => {
                            let gap = (s.date as i128) - (*pdate as i128);
                            if same_text(pid.as_str(), id.as_str()) && gap <= MAX_SAMPLE_GAP_MS as i128 {
                                match find_item(items, id.as_str()) {
                                    Some(k) => !items[k].is_visit,
                                    None => false,
                                }
                            } else {
                                false
                            }
                        },
                        None => false,
                    };
                    if joins {
                        let from = match &previous {
                            Some(p) => p.2,
                            None => 0,
                        };
                        let k = match find_item(items, id.as_str()) {
                            Some(k) => k,
                            None => 0,
                        };
                        let leg = Leg { from, to: i, activity: items[k].kind_label() };
                        proof {
                            assert(leg_views(legs@.push(leg)) =~= leg_views(legs@).push(leg@));
                        }
                        legs.push(leg);
                    }
                    previous = Some((id.clone(), s.date, i));
                },
            }
        }
        i = i + 1;
    }
    assert(samples@.take(samples@.len() as int) =~= samples@);
    legs
}

// ---------------------------------------------------------------------------------------------
// A day summary
// ---------------------------------------------------------------------------------------------

/// Everything a day summary holds but what depends on positions: distances and the bounding
/// box are measured along [`DaySummary::legs`] by whoever has the coordinates.
pub struct DaySummary {
    pub utc_offset_seconds: Option<i32>,
    pub item_count: u64,
    pub visit_count: u64,
    pub trip_count: u64,
    pub sample_count: u64,
    pub moving_seconds: i64,
    pub duration_by_type: Vec<(String, i64)>,
    pub place_ids: Vec<String>,
    pub country_codes: Vec<String>,
    pub localities: Vec<String>,
    pub first_sample_at: Option<i64>,
    pub last_sample_at: Option<i64>,
    pub unconfirmed_items: u64,
    /// True when every item counted on the day is confirmed, and so trivially true for a day
    /// that has only samples on it: there is nothing left for the user to review.
    pub confirmed: bool,
    pub legs: Vec<Leg>,
}

/// Whether the seconds of a day's trips, and of each type of its items, fit the 64-bit totals
/// a summary keeps.
pub open spec fn totals_fit(items: Seq<Item>, day: int) -> bool {
    &&& moving_seconds_of(items, day) <= i64::MAX
    &&& forall|k: int| 0 <= k < durations(items, day).len() ==> #[trigger] durations(items, day)[k].1 <= i64::MAX
}

/// Whether [`summarize`] can add up the items of `day` in 64-bit totals.
pub fn day_totals_fit(items: &[Item], day: i64) -> (r: bool)
    requires
        is_day(day as int),
    ensures
        r == totals_fit(items@, day as int),
{
    let totals = item_totals(items, day, &[]);
    if totals.moving_seconds > i64::MAX as i128 {
        return false;
    }
    let ghost wide = wide_totals_view(totals.duration_by_type@);
    let mut k: usize = 0;
    while k < totals.duration_by_type.len()
        invariant
            k <= totals.duration_by_type@.len(),
            wide == wide_totals_view(totals.duration_by_type@),
            wide == durations(items@, day as int),
            forall|m: int| 0 <= m < k ==> #[trigger] wide[m].1 <= i64::MAX,
        decreases totals.duration_by_type.len() - k,
    {
        assert(wide[k as int].1 == totals.duration_by_type@[k as int].1);
        if totals.duration_by_type[k].1 > i64::MAX as i128 {
            return false;
        }
        k = k + 1;
    }
    true
}

/// Wide totals in 64 bits, where each fits.
fn narrowed(wide: &Vec<(String, i128)>) -> (r: Vec<(String, i64)>)
    requires
        forall|k: int| 0 <= k < wide_totals_view(wide@).len() ==> 0 <= #[trigger] wide_totals_view(wide@)[k].1 <= i64::MAX,
    ensures
        totals_view(r@) == wide_totals_view(wide@),
{
    let mut r: Vec<(String, i64)> = Vec::new();
    let mut k: usize = 0;
    while k < wide.len()
        invariant
            k <= wide@.len(),
            forall|m: int| 0 <= m < wide_totals_view(wide@).len() ==> 0 <= #[trigger] wide_totals_view(wide@)[m].1 <= i64::MAX,
            totals_view(r@) == wide_totals_view(wide@).take(k as int),
        decreases wide.len() - k,
    {
        assert(wide_totals_view(wide@)[k as int].1 == wide@[k as int].1);
        let name = wide[k].0.clone();
        let value = wide[k].1 as i64;
        let ghost before = r@;
        r.push((name, value));
        assert(totals_view(r@) =~= wide_totals_view(wide@).take(k + 1)) by {
            assert(r@ == before.push((name, value)));
            assert(totals_view(before.push((name, value))) =~= totals_view(before).push((name@, value as int)));
        }
        k = k + 1;
    }
    assert(wide_totals_view(wide@).take(wide@.len() as int) =~= wide_totals_view(wide@));
    r
}

/// Summarizes one local day from its items, in start order, and its samples, ordered by item
/// and then by time.
pub fn summarize(day: i64, items: &[Item], samples: &[Sample], places: &[PlaceInfo]) -> (r: DaySummary)
    requires
        is_day(day as int),
        totals_fit(items@, day as int),
    ensures
        r.utc_offset_seconds == utc_offset_of(samples@, items@),
        r.item_count == items@.len(),
        r.visit_count == count_visits(items@),
        r.trip_count == items@.len() - count_visits(items@),
        r.sample_count == samples@.len(),
        r.moving_seconds == moving_seconds_of(items@, day as int),
        totals_view(r.duration_by_type@) == durations(items@, day as int),
        texts(r.place_ids@) == place_ids_of(items@),
        texts(r.country_codes@) == country_codes_of(items@, places@),
        texts(r.localities@) == localities_of(items@, places@),
        r.first_sample_at == first_sample_of(samples@),
        r.last_sample_at == last_sample_of(samples@),
        r.unconfirmed_items == count_unconfirmed(items@),
        r.confirmed == (count_unconfirmed(items@) == 0),
        leg_views(r.legs@) == chain_of(samples@, items@).legs,
{
    let totals = item_totals(items, day, places);
    let (first, last) = sample_span(samples);
    let confirmed = totals.unconfirmed_items == 0;
    let duration_by_type = narrowed(&totals.duration_by_type);
    DaySummary {
        utc_offset_seconds: utc_offset(samples, items),
        item_count: items.len() as u64,
        visit_count: totals.visit_count,
        trip_count: totals.trip_count,
        sample_count: samples.len() as u64,
        moving_seconds: totals.moving_seconds as i64,
        duration_by_type,
        place_ids: totals.place_ids,
        country_codes: totals.country_codes,
        localities: totals.localities,
        first_sample_at: first,
        last_sample_at: last,
        unconfirmed_items: totals.unconfirmed_items,
        confirmed,
        legs: distance_legs(samples, items),
    }
}


/// A day is confirmed exactly when every item counted on it is.
pub proof fn confirmed_day_has_only_confirmed_items(items: Seq<Item>)
    ensures
        count_unconfirmed(items) == 0 <==> forall|i: int|
            0 <= i < items.len() ==> (#[trigger] items[i]).confirmation.confirmed,
    decreases items.len(),
{
    if items.len() > 0 {
        let before = items.drop_last();
        confirmed_day_has_only_confirmed_items(before);
        if count_unconfirmed(items) == 0 {
            assert forall|i: int| 0 <= i < items.len() implies (#[trigger] items[i]).confirmation.confirmed by {
                if i < items.len() - 1 {
                    assert(items[i] == before[i]);
                }
            }
        }
        if forall|i: int| 0 <= i < items.len() ==> (#[trigger] items[i]).confirmation.confirmed {
            assert forall|i: int| 0 <= i < before.len() implies (#[trigger] before[i]).confirmation.confirmed by {
                assert(before[i] == items[i]);
            }
            assert(items[items.len() - 1].confirmation.confirmed);
        }
    }
}

/// The distinct lists of a day never hold the same value twice.
pub proof fn with_distinct_keeps_values_distinct(values: Seq<Seq<char>>, value: Seq<char>)
    requires
        values.no_duplicates(),
    ensures
        with_distinct(values, value).no_duplicates(),
        with_distinct(values, value).contains(value),
{
    if !values.contains(value) {
        let r = values.push(value);
        assert forall|i: int, j: int| 0 <= i < r.len() && 0 <= j < r.len() && i != j implies r[i] != r[j] by {
            if j == values.len() {
                assert(r[i] == values[i]);
            } else if i == values.len() {
                assert(r[j] == values[j]);
            }
        }
        assert(r[values.len() as int] == value);
    }
}

/// Whether a sample is one distance may be measured from: a fix, accurate enough.
pub open spec fn measurable(s: Sample) -> bool {
    s.has_fix && s.accurate
}

/// Whether a sample belongs to the item with the given id.
pub open spec fn sample_of(s: Sample, id: Seq<char>) -> bool {
    s.item_id matches Some(x) && x@ == id
}

/// What a leg between two samples needs: both measurable, of the same item, that item a trip,
/// in order and no more than the gap apart.
pub open spec fn joins(samples: Seq<Sample>, items: Seq<Item>, from: int, to: int) -> bool {
    &&& 0 <= from < to < samples.len()
    &&& measurable(samples[from]) && measurable(samples[to])
    &&& exists|id: Seq<char>|
        sample_of(samples[from], id) && sample_of(samples[to], id) && (item_of(items, id) matches Some(
            item,
        ) && !item.is_visit)
    &&& samples[to].date - samples[from].date <= MAX_SAMPLE_GAP_MS
}

proof fn lemma_chain_previous(samples: Seq<Sample>, items: Seq<Item>)
    ensures
        chain_of(samples, items).previous matches Some(p) ==> 0 <= p.2 < samples.len() && measurable(
            samples[p.2],
        ) && sample_of(samples[p.2], p.0) && samples[p.2].date == p.1,
        forall|k: int|
            0 <= k < chain_of(samples, items).legs.len() ==> joins(
                samples,
                items,
                (#[trigger] chain_of(samples, items).legs[k]).from,
                chain_of(samples, items).legs[k].to,
            ),
    decreases samples.len(),
{
    if samples.len() > 0 {
        let shorter = samples.drop_last();
        lemma_chain_previous(shorter, items);
        let before = chain_of(shorter, items);
        let chain = chain_of(samples, items);
        assert forall|k: int| 0 <= k < before.legs.len() implies joins(
            samples,
            items,
            (#[trigger] before.legs[k]).from,
            before.legs[k].to,
        ) by {
            let (f, t) = (before.legs[k].from, before.legs[k].to);
            assert(joins(shorter, items, f, t));
            assert(shorter[f] == samples[f] && shorter[t] == samples[t]);
            let id = choose|id: Seq<char>| sample_of(shorter[f], id) && sample_of(shorter[t], id) && (item_of(
                items,
                id,
            ) matches Some(item) && !item.is_visit);
            assert(sample_of(samples[f], id) && sample_of(samples[t], id));
        }
        let s = samples.last();
        let index = samples.len() - 1;
        if measurable(s) {
            if let Some(id) = s.item_id {
                if let Some(p) = before.previous {
                    assert(shorter[p.2] == samples[p.2]);
                    if chain.legs.len() > before.legs.len() {
                        assert(sample_of(samples[p.2], id@));
                        assert(sample_of(samples[index], id@));
                        assert(joins(samples, items, p.2, index));
                    }
                }
            }
        } else {
            if let Some(p) = before.previous {
                assert(shorter[p.2] == samples[p.2]);
            }
        }
    }
}

proof fn lemma_item_of_is_first(items: Seq<Item>, id: Seq<char>)
    ensures
        item_of(items, id) matches Some(x) ==> exists|i: int|
            0 <= i < items.len() && #[trigger] items[i] == x && items[i].id@ == id && forall|j: int|
                0 <= j < i ==> items[j].id@ != id,
        item_of(items, id) is None ==> forall|j: int| 0 <= j < items.len() ==> (#[trigger] items[j]).id@ != id,
    decreases items.len(),
{
    if items.len() > 0 {
        let rest = items.drop_first();
        lemma_item_of_is_first(rest, id);
        if items[0].id@ == id {
            assert(items[0] == item_of(items, id)->0);
        } else {
            if let Some(x) = item_of(rest, id) {
                let i = choose|i: int|
                    0 <= i < rest.len() && #[trigger] rest[i] == x && rest[i].id@ == id && forall|j: int|
                        0 <= j < i ==> rest[j].id@ != id;
                assert(items[i + 1] == x);
                assert forall|j: int| 0 <= j < i + 1 implies items[j].id@ != id by {
                    if j > 0 {
                        assert(items[j] == rest[j - 1]);
                    }
                }
            } else {
                assert forall|j: int| 0 <= j < items.len() implies (#[trigger] items[j]).id@ != id by {
                    if j > 0 {
                        assert(items[j] == rest[j - 1]);
                    }
                }
            }
        }
    }
}

proof fn lemma_leg_activity(samples: Seq<Sample>, items: Seq<Item>)
    ensures
        forall|k: int|
            0 <= k < chain_of(samples, items).legs.len() ==> {
                let leg = #[trigger] chain_of(samples, items).legs[k];
                &&& 0 <= leg.from < samples.len()
                &&& samples[leg.from].item_id is Some
                &&& item_of(items, samples[leg.from].item_id->0@) matches Some(item)
                &&& leg.activity == item.kind_label_of()
            },
    decreases samples.len(),
{
    if samples.len() > 0 {
        let shorter = samples.drop_last();
        lemma_leg_activity(shorter, items);
        lemma_chain_previous(shorter, items);
        let before = chain_of(shorter, items);
        let chain = chain_of(samples, items);
        assert forall|k: int| 0 <= k < before.legs.len() implies {
            let leg = #[trigger] before.legs[k];
            &&& 0 <= leg.from < samples.len()
            &&& samples[leg.from].item_id is Some
            &&& item_of(items, samples[leg.from].item_id->0@) matches Some(item)
            &&& leg.activity == item.kind_label_of()
        } by {
            assert(shorter[before.legs[k].from] == samples[before.legs[k].from]);
        }
        let s = samples.last();
        if measurable(s) {
            if let Some(id) = s.item_id {
                if let Some(p) = before.previous {
                    assert(shorter[p.2] == samples[p.2]);
                }
            }
        }
    }
}

/// Whether a leg is filed under its trip: the first item of the day with the id both of its
/// samples carry is a trip, and the leg carries that item's kind label.
pub open spec fn filed_under_trip(samples: Seq<Sample>, items: Seq<Item>, leg: LegView) -> bool {
    exists|i: int|
        0 <= i < items.len() && {
            &&& sample_of(samples[leg.from], (#[trigger] items[i]).id@)
            &&& sample_of(samples[leg.to], items[i].id@)
            &&& !items[i].is_visit
            &&& leg.activity == items[i].kind_label_of()
            &&& forall|j: int| 0 <= j < i ==> items[j].id@ != items[i].id@
        }
}

/// Distance is filed under the trip it was covered on: every leg carries the kind label of the
/// first item of the day whose id both of its samples carry, and that item is a trip.
pub proof fn legs_are_filed_under_their_trip(samples: Seq<Sample>, items: Seq<Item>)
    ensures
        forall|k: int|
            0 <= k < chain_of(samples, items).legs.len() ==> filed_under_trip(
                samples,
                items,
                #[trigger] chain_of(samples, items).legs[k],
            ),
{
    lemma_leg_activity(samples, items);
    lemma_chain_previous(samples, items);
    assert forall|k: int| 0 <= k < chain_of(samples, items).legs.len() implies filed_under_trip(
        samples,
        items,
        #[trigger] chain_of(samples, items).legs[k],
    ) by {
        let leg = chain_of(samples, items).legs[k];
        let id = samples[leg.from].item_id->0@;
        assert(joins(samples, items, leg.from, leg.to));
        let jid = choose|jid: Seq<char>| sample_of(samples[leg.from], jid) && sample_of(samples[leg.to], jid)
            && (item_of(items, jid) matches Some(item) && !item.is_visit);
        assert(jid == id);
        lemma_item_of_is_first(items, id);
        let x = item_of(items, id)->0;
        let i = choose|i: int|
            0 <= i < items.len() && #[trigger] items[i] == x && items[i].id@ == id && forall|j: int|
                0 <= j < i ==> items[j].id@ != id;
        assert(items[i] == x);
    }
}

/// Distance is only ever measured between consecutive measurable fixes of the same trip: every
/// leg joins two accurate fixes of one item that is not a visit, in order, no more than
/// [`MAX_SAMPLE_GAP_MS`] apart.
pub proof fn legs_join_close_fixes_of_one_trip(samples: Seq<Sample>, items: Seq<Item>)
    ensures
        forall|k: int|
            0 <= k < chain_of(samples, items).legs.len() ==> joins(
                samples,
                items,
                (#[trigger] chain_of(samples, items).legs[k]).from,
                chain_of(samples, items).legs[k].to,
            ),
{
    lemma_chain_previous(samples, items);
}

} // verus!
