//! The rules for ingesting a directory of daily GPX files into the same tables as Arc's backup.
//!
//! One `<trk>` becomes a trip item with a sample per fix, one `<wpt>` becomes a visit item with
//! a single sample at the waypoint, and a named waypoint also becomes a place. Ids are hashes
//! of the file and the element rather than record ids, because GPX has none. Reading the files
//! and the coordinates is the caller's; this is what is decided about them.

use vstd::prelude::*;
use vstd::string::*;
use crate::calendar::{civil_day_of, is_day, is_millis, parse_day, rfc3339, rfc3339_text, MAX_MS};
use crate::enums::ActivityType;
use crate::gpx::Point;
use crate::ids::{deterministic_id, id_hash, uuid_text};
use crate::text::{concat, decimal, decimal_u64, ends_with, has_suffix, owned, same_text, trim, trimmed};

verus! {

/// GPX files are their own lineage in `ingest_files`, not a device backup.
pub const DEVICE: &'static str = "gpx";
/// What a file without a `creator` attribute is recorded as.
pub const FALLBACK_SOURCE: &'static str = "gpx";
/// The shape of the mapping, bumped if a re-ingest would produce different rows.
pub const SOURCE_VERSION: &'static str = "1";
/// Quantified Map's word for motorised transport it could not name. Arc has no such case, so it
/// lands on the nearest one unconfirmed, which the UI shows as needing review.
pub const TRANSPORT: &'static str = "transport";
/// A waypoint the exporter had no place for.
pub const UNNAMED_VISIT: &'static str = "Unnamed Visit";
/// The very last visit of the whole directory has nothing after it; an hour is a plausible stay
/// and keeps the item from swallowing the rest of history.
pub const LAST_VISIT_MS: i64 = 3_600_000;
/// Past a day a visit is capped rather than stretched over a recording gap, the way Arc's own
/// timeline gaps are read.
pub const MAX_VISIT_MS: i64 = 86_400_000;

/// One file in the GPX directory, its mtime in milliseconds.
#[derive(Debug, Clone)]
pub struct GpxFile {
    pub path: String,
    pub name: String,
    pub mtime: i64,
    pub len: u64,
}

impl GpxFile {
    /// The key in `ingest_files`, alongside Arc's `samples/2025-W24.json.gz`.
    pub fn relative(&self) -> (r: String)
        ensures
            r@ == "gpx/"@ + self.name@,
    {
        concat("gpx/", self.name.as_str())
    }

    /// The UTC day the file holds, from its name: `2016-02-18.gpx`, or the bare date.
    pub fn date_from_name(&self) -> (r: Option<i64>)
        ensures
            ({
                let stem = if has_suffix(self.name@, ".gpx"@) {
                    self.name@.take(self.name@.len() - ".gpx"@.len())
                } else {
                    self.name@
                };
                match r {
                    Some(d) => civil_day_of(stem) == Some(d as int),
                    None => civil_day_of(stem) is None,
                }
            }),
    {
        let stem = strip_gpx(self.name.as_str());
        parse_day(stem.as_str())
    }
}

fn strip_gpx(name: &str) -> (r: String)
    ensures
        r@ == if has_suffix(name@, ".gpx"@) {
            name@.take(name@.len() - ".gpx"@.len())
        } else {
            name@
        },
{
    if ends_with(name, ".gpx") {
        let chars = crate::text::chars_of(name);
        let suffix = crate::text::chars_of(".gpx");
        let keep = chars.len() - suffix.len();
        let mut stem: Vec<char> = Vec::new();
        let mut i: usize = 0;
        while i < keep
            invariant
                i <= keep,
                keep == name@.len() - ".gpx"@.len(),
                chars@ == name@,
                stem@ == name@.take(i as int),
            decreases keep - i,
        {
            stem.push(chars[i]);
            i = i + 1;
            assert(stem@ =~= name@.take(i as int));
        }
        crate::text::string_from_chars(&stem)
    } else {
        owned(name)
    }
}

/// Whether a directory entry is one of the daily files: visible, and named `*.gpx`.
pub fn is_gpx_name(name: &str) -> (r: bool)
    ensures
        r == (!(name@.len() > 0 && name@[0] == '.') && has_suffix(name@, ".gpx"@)),
{
    let chars = crate::text::chars_of(name);
    if chars.len() > 0 && chars[0] == '.' {
        return false;
    }
    ends_with(name, ".gpx")
}

/// Whether a file is left to Arc: the first day Arc has anything on is known, and the file's
/// day is that day or later. Where the two meet Arc is the better data.
pub fn covered_by_arc(arc_floor: Option<i64>, date: Option<i64>) -> (r: bool)
    ensures
        r == match (arc_floor, date) {
            (Some(floor), Some(day)) => day >= floor,
            _ => false,
        },
{
    match (arc_floor, date) {
        (Some(floor), Some(day)) => day >= floor,
        _ => false,
    }
}

/// The positions of the fixes of a track that have a time, in order.
pub open spec fn timed_positions<P>(points: Seq<Point<P>>) -> Seq<int>
    decreases points.len(),
{
    if points.len() == 0 {
        Seq::empty()
    } else if points.last().time is Some {
        timed_positions(points.drop_last()).push(points.len() - 1)
    } else {
        timed_positions(points.drop_last())
    }
}

/// The fixes a trip is made of: those with a time, when there are at least two. A single fix
/// is a sliver at a segment boundary or a midnight split, not a trip.
pub fn trip_fixes<P>(points: &Vec<Point<P>>) -> (r: Option<Vec<usize>>)
    ensures
        match r {
            Some(v) => timed_positions(points@).len() >= 2 && v@.map_values(|i: usize| i as int)
                == timed_positions(points@),
            None => timed_positions(points@).len() < 2,
        },
{
    let mut timed: Vec<usize> = Vec::new();
    let mut i: usize = 0;
    while i < points.len()
        invariant
            i <= points@.len(),
            timed@.map_values(|k: usize| k as int) == timed_positions(points@.take(i as int)),
        decreases points.len() - i,
    {
        let ghost before = timed@;
        assert(points@.take(i + 1).drop_last() =~= points@.take(i as int));
        assert(points@.take(i + 1).last() == points@[i as int]);
        if points[i].time.is_some() {
            timed.push(i);
            assert(timed@.map_values(|k: usize| k as int) =~= before.map_values(|k: usize| k as int).push(
                i as int,
            ));
        }
        i = i + 1;
    }
    assert(points@.take(points@.len() as int) =~= points@);
    if timed.len() < 2 {
        None
    } else {
        Some(timed)
    }
}

/// The three activity columns of a track of the given `<type>`.
#[derive(Debug, Clone, Copy, PartialEq, Eq, Structural)]
pub struct TrackActivity {
    pub classified: ActivityType,
    pub confirmed: Option<ActivityType>,
    pub uncertain: bool,
}

/// A type Arc knows is taken as confirmed: it is what the timeline recorded at the time, not a
/// classifier's guess made now. `transport` and `unknown` carry no such claim, so they land on
/// their nearest type unconfirmed and uncertain, which reads as unreviewed everywhere.
pub open spec fn track_activity_of(kind: Option<Seq<char>>) -> TrackActivity {
    let raw = match kind {
        Some(k) => trimmed(k),
        None => Seq::empty(),
    };
    if raw == TRANSPORT@ {
        TrackActivity { classified: ActivityType::Car, confirmed: None, uncertain: true }
    } else {
        match ActivityType::of_name(raw) {
            Some(known) => if known != ActivityType::Unknown {
                TrackActivity { classified: known, confirmed: Some(known), uncertain: false }
            } else {
                TrackActivity { classified: ActivityType::Unknown, confirmed: None, uncertain: true }
            },
            None => TrackActivity { classified: ActivityType::Unknown, confirmed: None, uncertain: true },
        }
    }
}

/// The `<type>` of a track as Arc's three activity columns.
pub fn activity_type(kind: Option<&str>) -> (r: TrackActivity)
    ensures
        r == track_activity_of(match kind {
            Some(k) => Some(k@),
            None => None,
        }),
{
    let raw = match kind {
        Some(k) => trim(k),
        None => String::new(),
    };
    if same_text(raw.as_str(), TRANSPORT) {
        return TrackActivity { classified: ActivityType::Car, confirmed: None, uncertain: true };
    }
    match ActivityType::from_name(raw.as_str()) {
        Ok(known) => if known != ActivityType::Unknown {
            TrackActivity { classified: known, confirmed: Some(known), uncertain: false }
        } else {
            TrackActivity { classified: ActivityType::Unknown, confirmed: None, uncertain: true }
        },
        Err(_) => TrackActivity { classified: ActivityType::Unknown, confirmed: None, uncertain: true },
    }
}

/// When a visit starting at `start` ends, given when the next element after it starts: at that
/// element, but never more than a day on; the same instant for a copy whose successor has
/// already been passed; an hour on when nothing follows at all.
pub open spec fn visit_end_of(start: int, next: Option<int>) -> int {
    match next {
        Some(n) => if n < start {
            start
        } else if n < start + MAX_VISIT_MS {
            n
        } else {
            start + MAX_VISIT_MS
        },
        None => start + LAST_VISIT_MS,
    }
}

pub fn visit_end(start: i64, next: Option<i64>) -> (r: i64)
    requires
        next matches Some(n) && n >= start ==> start + MAX_VISIT_MS <= MAX_MS,
        next is None ==> start + LAST_VISIT_MS <= MAX_MS,
    ensures
        r == visit_end_of(start as int, match next {
            Some(n) => Some(n as int),
            None => None,
        }),
{
    match next {
        Some(n) => if n < start {
            start
        } else if n < start + MAX_VISIT_MS {
            n
        } else {
            start + MAX_VISIT_MS
        },
        None => start + LAST_VISIT_MS,
    }
}

/// The id of the `index`th element of a file as a trip.
pub fn trip_id(source: &str, file_name: &str, index: u64) -> (r: String)
    ensures
        r@ == uuid_text(id_hash(source@, "trip"@, file_name@ + "#"@ + decimal(index as nat))),
{
    let head = concat(file_name, "#");
    let number = decimal_u64(index);
    let key = concat(head.as_str(), number.as_str());
    deterministic_id(source, "trip", key.as_str())
}

/// The id of the `point`th fix of that trip.
pub fn trip_sample_id(source: &str, file_name: &str, index: u64, point: u64) -> (r: String)
    ensures
        r@ == uuid_text(id_hash(
            source@,
            "sample"@,
            file_name@ + "#"@ + decimal(index as nat) + "#"@ + decimal(point as nat),
        )),
{
    let a = concat(file_name, "#");
    let b = decimal_u64(index);
    let c = concat(a.as_str(), b.as_str());
    let d = concat(c.as_str(), "#");
    let e = decimal_u64(point);
    let key = concat(d.as_str(), e.as_str());
    deterministic_id(source, "sample", key.as_str())
}

/// The ids a waypoint's rows get. They are keyed on name and start rather than the file, so the
/// copy of a midnight-spanning visit in the next file is the same item.
pub struct VisitIds {
    pub item: String,
    pub sample: String,
    /// Only a named waypoint is a place.
    pub place: Option<String>,
    pub name: String,
}

/// The name a waypoint goes by.
pub open spec fn waypoint_name(name: Option<Seq<char>>) -> Seq<char> {
    match name {
        Some(n) => n,
        None => UNNAMED_VISIT@,
    }
}

pub fn visit_ids(source: &str, name: Option<&str>, start: i64) -> (r: VisitIds)
    requires
        is_millis(start as int),
    ensures
        ({
            let n = waypoint_name(match name {
                Some(x) => Some(x@),
                None => None,
            });
            let key = n + "@"@ + rfc3339_text(start as int);
            &&& r.name@ == n
            &&& r.item@ == uuid_text(id_hash(source@, "visit"@, key))
            &&& r.sample@ == uuid_text(id_hash(source@, "visit-sample"@, key))
            &&& match r.place {
                Some(p) => n != UNNAMED_VISIT@ && p@ == uuid_text(id_hash(source@, "place"@, n)),
                None => n == UNNAMED_VISIT@,
            }
        }),
{
    let n = match name {
        Some(x) => owned(x),
        None => owned(UNNAMED_VISIT),
    };
    let time = match rfc3339(start) {
        Some(t) => t,
        None => String::new(),
    };
    let head = concat(n.as_str(), "@");
    let key = concat(head.as_str(), time.as_str());
    let place = if same_text(n.as_str(), UNNAMED_VISIT) {
        None
    } else {
        Some(deterministic_id(source, "place", n.as_str()))
    };
    VisitIds {
        item: deterministic_id(source, "visit", key.as_str()),
        sample: deterministic_id(source, "visit-sample", key.as_str()),
        place,
        name: n,
    }
}

// ---------------------------------------------------------------------------------------------
// Chaining items across files
// ---------------------------------------------------------------------------------------------

/// An item written earlier, for `previous_item_id` and `next_item_id`.
#[derive(Debug, Clone)]
pub struct ItemLink {
    pub id: String,
    pub previous_id: Option<String>,
}

pub struct LinkView {
    pub id: Seq<char>,
    pub previous_id: Option<Seq<char>>,
}

pub open spec fn link_view(l: Option<ItemLink>) -> Option<LinkView> {
    match l {
        Some(x) => Some(LinkView { id: x.id@, previous_id: crate::text::opt_view(x.previous_id) }),
        None => None,
    }
}

/// The links of one file's items as they are built: the previous and next id of each, the
/// last item, and the item of an earlier file that learns its successor.
pub struct Chain {
    pub links: Seq<(Option<Seq<char>>, Option<Seq<char>>)>,
    pub last: Option<LinkView>,
    pub link_back: Option<(Seq<char>, Seq<char>)>,
}

/// Chains the items `ids`, in document order, onto `previous`, the item before the file. A
/// visit spanning UTC midnight is the same item in both files, so the copy at the head of the
/// next file inherits the link the first copy already had.
pub open spec fn chain_of(ids: Seq<Seq<char>>, previous: Option<LinkView>) -> Chain
    decreases ids.len(),
{
    if ids.len() == 0 {
        Chain { links: Seq::empty(), last: None, link_back: None }
    } else {
        let before = chain_of(ids.drop_last(), previous);
        let id = ids.last();
        let current = match before.last {
            Some(l) => Some(l),
            None => previous,
        };
        let (prev, links, link_back) = match current {
            Some(l) => if l.id == id {
                (l.previous_id, before.links, before.link_back)
            } else if before.links.len() > 0 {
                (
                    Some(l.id),
                    before.links.update(
                        before.links.len() - 1,
                        (before.links.last().0, Some(id)),
                    ),
                    before.link_back,
                )
            } else {
                (Some(l.id), before.links, Some((l.id, id)))
            },
            None => (None, before.links, before.link_back),
        };
        Chain {
            links: links.push((prev, None)),
            last: Some(LinkView { id, previous_id: prev }),
            link_back,
        }
    }
}

/// The chain of a file once it is complete. The row of a midnight-spanning visit is written by
/// both of its files, and the upsert keeps whichever has the newer `last_saved`: when the two
/// share an mtime to the millisecond the second write is dropped, taking the forward link it
/// learned with it, so the link is written back separately.
pub open spec fn file_chain(ids: Seq<Seq<char>>, previous: Option<LinkView>) -> Chain {
    let chain = chain_of(ids, previous);
    if ids.len() > 0 && (previous matches Some(l) && l.id == ids[0]) && chain.links[0].1 is Some {
        Chain { link_back: Some((ids[0], chain.links[0].1->0)), ..chain }
    } else {
        chain
    }
}

/// The links of one file's items.
pub struct Links {
    /// The previous and next item id of each item, in order.
    pub links: Vec<(Option<String>, Option<String>)>,
    /// The file's last item, which the next file chains onto.
    pub last: Option<ItemLink>,
    /// `(item id, next id)` for the item in an earlier file that now knows its successor.
    pub link_back: Option<(String, String)>,
}

pub open spec fn links_view(v: Seq<(Option<String>, Option<String>)>) -> Seq<(Option<Seq<char>>, Option<Seq<char>>)> {
    v.map_values(|p: (Option<String>, Option<String>)| (crate::text::opt_view(p.0), crate::text::opt_view(p.1)))
}

pub open spec fn pair_view(p: Option<(String, String)>) -> Option<(Seq<char>, Seq<char>)> {
    match p {
        Some(x) => Some((x.0@, x.1@)),
        None => None,
    }
}

fn copy_link(l: &Option<ItemLink>) -> (r: Option<ItemLink>)
    ensures
        link_view(r) == link_view(*l),
{
    match l {
        Some(x) => Some(ItemLink { id: x.id.clone(), previous_id: crate::text::clone_opt(&x.previous_id) }),
        None => None,
    }
}

/// Chains one file's items onto the item before it.
pub fn link_items(ids: &Vec<String>, previous: Option<ItemLink>) -> (r: Links)
    ensures
        ({
            let chain = file_chain(ids@.map_values(|s: String| s@), link_view(previous));
            &&& links_view(r.links@) == chain.links
            &&& link_view(r.last) == chain.last
            &&& pair_view(r.link_back) == chain.link_back
        }),
{
    let ghost all = ids@.map_values(|s: String| s@);
    let mut links: Vec<(Option<String>, Option<String>)> = Vec::new();
    let mut last: Option<ItemLink> = None;
    let mut link_back: Option<(String, String)> = None;
    let mut i: usize = 0;
    while i < ids.len()
        invariant
            i <= ids@.len(),
            all == ids@.map_values(|s: String| s@),
            links_view(links@) == chain_of(all.take(i as int), link_view(previous)).links,
            link_view(last) == chain_of(all.take(i as int), link_view(previous)).last,
            pair_view(link_back) == chain_of(all.take(i as int), link_view(previous)).link_back,
            links@.len() == i,
            (i == 0) == (last is None),
        decreases ids.len() - i,
    {
        let ghost upto = all.take(i + 1);
        assert(upto.drop_last() =~= all.take(i as int));
        assert(upto.last() == ids@[i as int]@);
        let id = &ids[i];
        let current = match &last {
            Some(l) => copy_link(&Some(ItemLink { id: l.id.clone(), previous_id: crate::text::clone_opt(&l.previous_id) })),
            None => copy_link(&previous),
        };
        let prev: Option<String> = match current {
            Some(l) => {
                if same_text(l.id.as_str(), id.as_str()) {
                    l.previous_id
                } else if links.len() > 0 {
                    let k = links.len() - 1;
                    let before = crate::text::clone_opt(&links[k].0);
                    let ghost old_links = links@;
                    links.set(k, (before, Some(id.clone())));
                    assert(links_view(links@) =~= links_view(old_links).update(
                        k as int,
                        (links_view(old_links).last().0, Some(id@)),
                    ));
                    Some(l.id)
                } else {
                    link_back = Some((l.id.clone(), id.clone()));
                    Some(l.id)
                }
            },
            None => None,
        };
        let ghost old_links = links@;
        links.push((crate::text::clone_opt(&prev), None));
        assert(links_view(links@) =~= links_view(old_links).push((crate::text::opt_view(prev), None)));
        last = Some(ItemLink { id: id.clone(), previous_id: prev });
        i = i + 1;
    }
    assert(all.take(ids@.len() as int) =~= all);
    // The first item is the head copy of the previous file's last visit.
    if ids.len() > 0 {
        let first_is_previous = match &previous {
            Some(l) => same_text(l.id.as_str(), ids[0].as_str()),
            None => false,
        };
        if first_is_previous {
            match &links[0].1 {
                Some(next) => {
                    link_back = Some((ids[0].clone(), next.clone()));
                },
                None => {},
            }
        }
    }
    Links { links, last, link_back }
}

/// Items are chained in stream order: each item's next is the item after it and that item's
/// previous is it, unless the two are the same item (a visit repeated at a file boundary),
/// which inherits the link its first copy had. The last item has no next yet, and is what the
/// next file chains onto.
pub proof fn items_are_chained_in_stream_order(ids: Seq<Seq<char>>, previous: Option<LinkView>)
    ensures
        ({
            let chain = chain_of(ids, previous);
            &&& chain.links.len() == ids.len()
            &&& ids.len() == 0 ==> chain.last is None
            &&& ids.len() > 0 ==> chain.last == Some(
                LinkView { id: ids.last(), previous_id: chain.links.last().0 },
            ) && chain.links.last().1 is None
            &&& forall|i: int|
                0 <= i < ids.len() - 1 ==> (#[trigger] chain.links[i]).1 == if ids[i] != ids[i + 1] {
                    Some(ids[i + 1])
                } else {
                    None
                }
            &&& forall|i: int|
                0 < i < ids.len() ==> (#[trigger] chain.links[i]).0 == if ids[i - 1] != ids[i] {
                    Some(ids[i - 1])
                } else {
                    chain.links[i - 1].0
                }
        }),
    decreases ids.len(),
{
    if ids.len() > 0 {
        let shorter = ids.drop_last();
        items_are_chained_in_stream_order(shorter, previous);
        let before = chain_of(shorter, previous);
        let chain = chain_of(ids, previous);
        let n = ids.len() as int;
        assert forall|i: int| 0 <= i < n - 1 implies (#[trigger] chain.links[i]).1 == if ids[i] != ids[i + 1] {
            Some(ids[i + 1])
        } else {
            None
        } by {
            assert(shorter[i] == ids[i]);
            if i < n - 2 {
                assert(shorter[i + 1] == ids[i + 1]);
            }
        }
        assert forall|i: int| 0 < i < n implies (#[trigger] chain.links[i]).0 == if ids[i - 1] != ids[i] {
            Some(ids[i - 1])
        } else {
            chain.links[i - 1].0
        } by {
            assert(shorter[i - 1] == ids[i - 1]);
            if i < n - 1 {
                assert(shorter[i] == ids[i]);
            }
        }
    }
}

} // verus!
