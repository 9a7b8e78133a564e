//! A day as GPX 1.1: a waypoint per visit, a track per trip.
//!
//! The document is assembled here from plain values. Coordinates and altitudes arrive already
//! written out as decimal text, so nothing in this module touches a float; everything else that
//! goes into the document (names, activity types, times) is escaped for XML.

use vstd::prelude::*;
use vstd::string::*;
use crate::api::{escape, escaped};
use crate::calendar::{is_millis, rfc3339, rfc3339_text};
use crate::text::{opt_view, owned, trim, trimmed};

verus! {

/// One recorded fix of a trip, as the document needs it.
#[derive(Debug, Clone)]
pub struct GpxFix {
    /// Latitude and longitude as decimal text; a fix without one is left out.
    pub position: Option<(String, String)>,
    /// Altitude in metres as decimal text.
    pub altitude: Option<String>,
    /// When the fix was taken, in unix milliseconds.
    pub date: i64,
}

/// One item of the day, in the order the document lists them.
#[derive(Debug, Clone)]
pub enum GpxEntry {
    Visit {
        position: Option<(String, String)>,
        start_date: i64,
        custom_title: Option<String>,
        place_name: Option<String>,
    },
    Trip {
        /// The activity type's name, where the trip has one.
        activity_type: Option<String>,
        start_date: i64,
        /// The trip's fixes in time order; `None` for a trip that recorded none on the day.
        fixes: Option<Vec<GpxFix>>,
    },
}

pub struct GpxFixView {
    pub position: Option<(Seq<char>, Seq<char>)>,
    pub altitude: Option<Seq<char>>,
    pub date: i64,
}

pub enum GpxEntryView {
    Visit {
        position: Option<(Seq<char>, Seq<char>)>,
        start_date: i64,
        custom_title: Option<Seq<char>>,
        place_name: Option<Seq<char>>,
    },
    Trip { activity_type: Option<Seq<char>>, start_date: i64, fixes: Option<Seq<GpxFixView>> },
}

pub open spec fn pair_view(p: Option<(String, String)>) -> Option<(Seq<char>, Seq<char>)> {
    match p {
        Some((a, b)) => Some((a@, b@)),
        None => None,
    }
}

impl View for GpxFix {
    type V = GpxFixView;

    open spec fn view(&self) -> GpxFixView {
        GpxFixView { position: pair_view(self.position), altitude: opt_view(self.altitude), date: self.date }
    }
}

pub open spec fn fix_views(fixes: Seq<GpxFix>) -> Seq<GpxFixView> {
    fixes.map_values(|f: GpxFix| f@)
}

impl View for GpxEntry {
    type V = GpxEntryView;

    open spec fn view(&self) -> GpxEntryView {
        match self {
            GpxEntry::Visit { position, start_date, custom_title, place_name } => GpxEntryView::Visit {
                position: pair_view(*position),
                start_date: *start_date,
                custom_title: opt_view(*custom_title),
                place_name: opt_view(*place_name),
            },
            GpxEntry::Trip { activity_type, start_date, fixes } => GpxEntryView::Trip {
                activity_type: opt_view(*activity_type),
                start_date: *start_date,
                fixes: match fixes {
                    Some(v) => Some(fix_views(v@)),
                    None => None,
                },
            },
        }
    }
}

pub open spec fn entry_views(entries: Seq<GpxEntry>) -> Seq<GpxEntryView> {
    entries.map_values(|e: GpxEntry| e@)
}

// ---------------------------------------------------------------------------------------------
// The document
// ---------------------------------------------------------------------------------------------

/// A `<time>` line at the given indent, for an instant that has an RFC 3339 text; nothing for
/// one that has none.
pub open spec fn time_line(indent: Seq<char>, ms: i64) -> Seq<char> {
    if is_millis(ms as int) {
        indent + "<time>"@ + escaped(rfc3339_text(ms as int)) + "</time>\n"@
    } else {
        Seq::empty()
    }
}

/// What a visit is called: its custom title, else its place's name, else just "visit".
pub open spec fn visit_name(custom_title: Option<Seq<char>>, place_name: Option<Seq<char>>) -> Seq<char> {
    match custom_title {
        Some(t) => t,
        None => match place_name {
            Some(p) => p,
            None => "visit"@,
        },
    }
}

/// A visit's waypoint; nothing for a visit with no position.
pub open spec fn waypoint_of(
    position: Option<(Seq<char>, Seq<char>)>,
    start_date: i64,
    custom_title: Option<Seq<char>>,
    place_name: Option<Seq<char>>,
) -> Seq<char> {
    match position {
        None => Seq::empty(),
        Some((lat, lon)) => "  <wpt lat=\""@ + lat + "\" lon=\""@ + lon + "\">\n"@ + time_line(
            "    "@,
            start_date,
        ) + "    <name>"@ + escaped(visit_name(custom_title, place_name)) + "</name>\n"@
            + "  </wpt>\n"@,
    }
}

/// An `<ele>` line, for a fix that has an altitude.
pub open spec fn elevation_line(altitude: Option<Seq<char>>) -> Seq<char> {
    match altitude {
        Some(a) => "        <ele>"@ + a + "</ele>\n"@,
        None => Seq::empty(),
    }
}

/// A fix's track point; nothing for a fix with no position.
pub open spec fn trackpoint_of(f: GpxFixView) -> Seq<char> {
    match f.position {
        None => Seq::empty(),
        Some((lat, lon)) => "      <trkpt lat=\""@ + lat + "\" lon=\""@ + lon + "\">\n"@
            + elevation_line(f.altitude) + time_line("        "@, f.date) + "      </trkpt>\n"@,
    }
}

/// The track points of fixes in order.
pub open spec fn trackpoints_of(fixes: Seq<GpxFixView>) -> Seq<char>
    decreases fixes.len(),
{
    if fixes.len() == 0 {
        Seq::empty()
    } else {
        trackpoints_of(fixes.drop_last()) + trackpoint_of(fixes.last())
    }
}

/// A trip's activity, "unknown" where it has none.
pub open spec fn activity_of(activity_type: Option<Seq<char>>) -> Seq<char> {
    match activity_type {
        Some(a) => a,
        None => "unknown"@,
    }
}

/// The RFC 3339 text of an instant, or nothing for one that has none.
pub open spec fn start_text(ms: i64) -> Seq<char> {
    if is_millis(ms as int) {
        rfc3339_text(ms as int)
    } else {
        Seq::empty()
    }
}

/// A trip's track: named by its activity and start, typed by its activity, one segment of its
/// fixes. Nothing for a trip without fixes on the day.
pub open spec fn track_of(
    activity_type: Option<Seq<char>>,
    start_date: i64,
    fixes: Option<Seq<GpxFixView>>,
) -> Seq<char> {
    match fixes {
        None => Seq::empty(),
        Some(fs) => "  <trk>\n"@ + "    <name>"@ + escaped(
            trimmed(activity_of(activity_type) + " "@ + start_text(start_date)),
        ) + "</name>\n"@ + "    <type>"@ + escaped(activity_of(activity_type)) + "</type>\n"@
            + "    <trkseg>\n"@ + trackpoints_of(fs) + "    </trkseg>\n  </trk>\n"@,
    }
}

pub open spec fn entry_of(e: GpxEntryView) -> Seq<char> {
    match e {
        GpxEntryView::Visit { position, start_date, custom_title, place_name } => waypoint_of(
            position,
            start_date,
            custom_title,
            place_name,
        ),
        GpxEntryView::Trip { activity_type, start_date, fixes } => track_of(activity_type, start_date, fixes),
    }
}

/// The entries' waypoints and tracks in order.
pub open spec fn entries_of(entries: Seq<GpxEntryView>) -> Seq<char>
    decreases entries.len(),
{
    if entries.len() == 0 {
        Seq::empty()
    } else {
        entries_of(entries.drop_last()) + entry_of(entries.last())
    }
}

/// The whole document for the day `date`.
pub open spec fn gpx_document_of(date: Seq<char>, entries: Seq<GpxEntryView>) -> Seq<char> {
    "<?xml version=\"1.0\" encoding=\"UTF-8\"?>\n<gpx version=\"1.1\" creator=\"arches\" xmlns=\"http://www.topografix.com/GPX/1/1\">\n"@
        + "  <metadata><name>"@ + escaped(date) + "</name></metadata>\n"@ + entries_of(entries)
        + "</gpx>\n"@
}

fn push_time(r: &mut String, indent: &str, ms: i64)
    ensures
        final(r)@ == old(r)@ + time_line(indent@, ms),
{
    match rfc3339(ms) {
        Some(t) => {
            let ghost start = r@;
            r.append(indent);
            r.append("<time>");
            let e = escape(t.as_str());
            r.append(e.as_str());
            r.append("</time>\n");
            assert(r@ =~= start + time_line(indent@, ms));
        },
        None => {
            assert(r@ =~= r@ + time_line(indent@, ms));
        },
    }
}

fn push_waypoint(
    r: &mut String,
    position: &Option<(String, String)>,
    start_date: i64,
    custom_title: &Option<String>,
    place_name: &Option<String>,
)
    ensures
        final(r)@ == old(r)@ + waypoint_of(
            pair_view(*position),
            start_date,
            opt_view(*custom_title),
            opt_view(*place_name),
        ),
{
    match position {
        None => {
            assert(r@ =~= r@ + Seq::<char>::empty());
        },
        Some((lat, lon)) => {
            let ghost start = r@;
            r.append("  <wpt lat=\"");
            r.append(lat.as_str());
            r.append("\" lon=\"");
            r.append(lon.as_str());
            r.append("\">\n");
            let ghost mid = r@;
            push_time(r, "    ", start_date);
            let name: &str = match custom_title {
                Some(t) => t.as_str(),
                None => match place_name {
                    Some(p) => p.as_str(),
                    None => "visit",
                },
            };
            assert(name@ == visit_name(opt_view(*custom_title), opt_view(*place_name)));
            r.append("    <name>");
            let e = escape(name);
            r.append(e.as_str());
            r.append("</name>\n");
            r.append("  </wpt>\n");
            assert(r@ =~= start + waypoint_of(
                pair_view(*position),
                start_date,
                opt_view(*custom_title),
                opt_view(*place_name),
            ));
        },
    }
}

fn push_trackpoint(r: &mut String, f: &GpxFix)
    ensures
        final(r)@ == old(r)@ + trackpoint_of(f@),
{
    match &f.position {
        None => {
            assert(r@ =~= r@ + Seq::<char>::empty());
        },
        Some((lat, lon)) => {
            let ghost start = r@;
            r.append("      <trkpt lat=\"");
            r.append(lat.as_str());
            r.append("\" lon=\"");
            r.append(lon.as_str());
            r.append("\">\n");
            match &f.altitude {
                Some(a) => {
                    r.append("        <ele>");
                    r.append(a.as_str());
                    r.append("</ele>\n");
                },
                None => {},
            }
            let ghost mid = r@;
            assert(mid =~= start + "      <trkpt lat=\""@ + lat@ + "\" lon=\""@ + lon@ + "\">\n"@
                + elevation_line(opt_view(f.altitude)));
            push_time(r, "        ", f.date);
            r.append("      </trkpt>\n");
            assert(r@ =~= start + trackpoint_of(f@));
        },
    }
}

fn push_track(r: &mut String, activity_type: &Option<String>, start_date: i64, fixes: &Option<Vec<GpxFix>>)
    ensures
        final(r)@ == old(r)@ + track_of(
            opt_view(*activity_type),
            start_date,
            match fixes {
                Some(v) => Some(fix_views(v@)),
                None => None,
            },
        ),
{
    match fixes {
        None => {
            assert(r@ =~= r@ + Seq::<char>::empty());
        },
        Some(fs) => {
            let ghost start = r@;
            let activity: &str = match activity_type {
                Some(a) => a.as_str(),
                None => "unknown",
            };
            assert(activity@ == activity_of(opt_view(*activity_type)));
            let mut name = owned(activity);
            name.append(" ");
            match rfc3339(start_date) {
                Some(t) => name.append(t.as_str()),
                None => {},
            }
            assert(name@ =~= activity@ + " "@ + start_text(start_date));
            let name = trim(name.as_str());
            r.append("  <trk>\n");
            r.append("    <name>");
            let e = escape(name.as_str());
            r.append(e.as_str());
            r.append("</name>\n");
            r.append("    <type>");
            let e = escape(activity);
            r.append(e.as_str());
            r.append("</type>\n");
            r.append("    <trkseg>\n");
            let ghost head = r@;
            let ghost views = fix_views(fs@);
            let mut i: usize = 0;
            while i < fs.len()
                invariant
                    i <= fs@.len(),
                    views == fix_views(fs@),
                    r@ == head + trackpoints_of(views.take(i as int)),
                decreases fs.len() - i,
            {
                proof {
                    assert(views.take(i + 1).drop_last() =~= views.take(i as int));
                    assert(views.take(i + 1).last() == fs@[i as int]@);
                }
                push_trackpoint(r, &fs[i]);
                i = i + 1;
            }
            assert(views.take(fs@.len() as int) =~= views);
            r.append("    </trkseg>\n  </trk>\n");
            assert(r@ =~= start + track_of(opt_view(*activity_type), start_date, Some(views)));
        },
    }
}

/// The day `date` as a GPX 1.1 document: a header, the day as the document's name, a waypoint
/// for each visit with a position and a track for each trip with fixes, in the entries' order.
pub fn gpx_document(date: &str, entries: &[GpxEntry]) -> (r: String)
    ensures
        r@ == gpx_document_of(date@, entry_views(entries@)),
{
    let mut r = owned(
        "<?xml version=\"1.0\" encoding=\"UTF-8\"?>\n<gpx version=\"1.1\" creator=\"arches\" xmlns=\"http://www.topografix.com/GPX/1/1\">\n",
    );
    r.append("  <metadata><name>");
    let e = escape(date);
    r.append(e.as_str());
    r.append("</name></metadata>\n");
    let ghost head = r@;
    let ghost views = entry_views(entries@);
    let mut i: usize = 0;
    while i < entries.len()
        invariant
            i <= entries@.len(),
            views == entry_views(entries@),
            r@ == head + entries_of(views.take(i as int)),
        decreases entries.len() - i,
    {
        proof {
            assert(views.take(i + 1).drop_last() =~= views.take(i as int));
            assert(views.take(i + 1).last() == entries@[i as int]@);
        }
        let ghost before = r@;
        match &entries[i] {
            GpxEntry::Visit { position, start_date, custom_title, place_name } => {
                push_waypoint(&mut r, position, *start_date, custom_title, place_name);
            },
            GpxEntry::Trip { activity_type, start_date, fixes } => {
                push_track(&mut r, activity_type, *start_date, fixes);
            },
        }
        assert(r@ =~= before + entry_of(entries@[i as int]@));
        i = i + 1;
    }
    assert(views.take(entries@.len() as int) =~= views);
    r.append("</gpx>\n");
    assert(r@ =~= gpx_document_of(date@, views));
    r
}

} // verus!
