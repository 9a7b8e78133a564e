//! Reading a GPX file, as the decisions a pull parser's events lead to.
//!
//! A file holds `<trk>` and `<wpt>` elements interleaved in chronological order: a trip is a
//! track with one `<trkseg>`, a lowercase `<type>` and a `<name>`, a visit is a waypoint with
//! the place name and the start time of the visit. The caller pulls XML events, resolves a
//! leaf element to its trimmed text and a `<wpt>` or `<trkpt>` to its position (or to none,
//! when `lat` or `lon` is missing or no number), and hands each event to [`Reading::step`].
//! The position is whatever type the caller measures positions in; nothing here looks inside
//! it. Unknown elements and attributes are ignored rather than rejected, since the files are an
//! archive nobody will regenerate to suit us.

use vstd::prelude::*;
use crate::calendar::is_instant;

verus! {

/// One `<trkpt>`: a fix on a trip. `altitude` is the `<ele>` text as found.
#[derive(Debug, Clone)]
pub struct Point<P> {
    pub position: P,
    pub altitude: Option<String>,
    /// Unix milliseconds.
    pub time: Option<i64>,
}

/// One `<trk>`: a trip, always with a single `<trkseg>` in these files.
#[derive(Debug, Clone)]
pub struct Track<P> {
    pub name: Option<String>,
    /// `<type>`, the lowercase activity name.
    pub kind: Option<String>,
    pub points: Vec<Point<P>>,
}

/// One `<wpt>`: a visit, timestamped with its start, which may predate the file's own day.
#[derive(Debug, Clone)]
pub struct Waypoint<P> {
    pub position: P,
    pub time: Option<i64>,
    pub name: Option<String>,
}

/// Tracks and waypoints in document order, which is chronological order.
#[derive(Debug, Clone)]
pub enum Element<P> {
    Track(Track<P>),
    Waypoint(Waypoint<P>),
}

/// A whole file.
#[derive(Debug, Clone)]
pub struct Document<P> {
    /// The `creator` attribute of `<gpx>`, which ingest records as the row `source`.
    pub creator: Option<String>,
    pub elements: Vec<Element<P>>,
}

pub struct TrackView<P> {
    pub name: Option<String>,
    pub kind: Option<String>,
    pub points: Seq<Point<P>>,
}

pub enum ElementView<P> {
    Track(TrackView<P>),
    Waypoint(Waypoint<P>),
}

impl<P> View for Track<P> {
    type V = TrackView<P>;

    open spec fn view(&self) -> TrackView<P> {
        TrackView { name: self.name, kind: self.kind, points: self.points@ }
    }
}

impl<P> View for Element<P> {
    type V = ElementView<P>;

    open spec fn view(&self) -> ElementView<P> {
        match self {
            Element::Track(t) => ElementView::Track(t@),
            Element::Waypoint(w) => ElementView::Waypoint(*w),
        }
    }
}

pub open spec fn element_views<P>(v: Seq<Element<P>>) -> Seq<ElementView<P>> {
    v.map_values(|e: Element<P>| e@)
}

/// A leaf element whose text is read.
#[derive(Debug, Clone, Copy, PartialEq, Eq, Structural)]
pub enum Leaf {
    Time,
    Name,
    Type,
    Ele,
}

/// An opening or self-closing tag, as far as reading a file cares.
#[derive(Debug, Clone)]
pub enum Tag<P> {
    /// `<gpx>`, with its `creator`.
    Gpx(Option<String>),
    /// `<wpt>`, with its position when it has one.
    Wpt(Option<P>),
    Trk,
    /// `<trkpt>`, with its position when it has one.
    Trkpt(Option<P>),
    /// A leaf element and its text, entity references resolved and trimmed; the parser has
    /// consumed it up to its end tag.
    Leaf(Leaf, String),
    Other,
}

/// A closing tag.
#[derive(Debug, Clone, Copy, PartialEq, Eq, Structural)]
pub enum Closing {
    Trkpt,
    Wpt,
    Trk,
    Other,
}

#[derive(Debug, Clone)]
pub enum GpxEvent<P> {
    Start(Tag<P>),
    Empty(Tag<P>),
    End(Closing),
}

/// Where a reading is: what has been read so far and the elements still open.
#[derive(Debug, Clone)]
pub struct Reading<P> {
    pub creator: Option<String>,
    pub elements: Vec<Element<P>>,
    pub track: Option<Track<P>>,
    pub point: Option<Point<P>>,
    pub waypoint: Option<Waypoint<P>>,
}

pub struct ReadingView<P> {
    pub creator: Option<String>,
    pub elements: Seq<ElementView<P>>,
    pub track: Option<TrackView<P>>,
    pub point: Option<Point<P>>,
    pub waypoint: Option<Waypoint<P>>,
}

impl<P> View for Reading<P> {
    type V = ReadingView<P>;

    open spec fn view(&self) -> ReadingView<P> {
        ReadingView {
            creator: self.creator,
            elements: element_views(self.elements@),
            track: match self.track {
                Some(t) => Some(t@),
                None => None,
            },
            point: self.point,
            waypoint: self.waypoint,
        }
    }
}

/// The instant an RFC 3339 text names, in milliseconds, as jiff reads it.
pub uninterp spec fn instant_of(text: Seq<char>) -> Option<int>;

/// jiff's `FromStr` for `Timestamp`, then `as_millisecond`. Which texts it accepts is jiff's;
/// what it accepts is an instant it can represent.
#[verifier::external_body]
fn parse_instant(text: &str) -> (r: Option<i64>)
    ensures
        match r {
            Some(ms) => instant_of(text@) == Some(ms as int) && is_instant(ms as int),
            None => instant_of(text@) is None,
        },
{
    match text.parse::<jiff::Timestamp>() {
        Ok(time) => Some(time.as_millisecond()),
        Err(_) => None,
    }
}

/// All times in these files are UTC with a `Z`. One unreadable timestamp costs its fix, not the
/// day around it.
pub fn parse_time(text: &str) -> (r: Option<i64>)
    ensures
        match r {
            Some(ms) => instant_of(text@) == Some(ms as int),
            None => instant_of(text@) is None,
        },
{
    parse_instant(text)
}

pub open spec fn time_of(text: String) -> Option<i64> {
    match instant_of(text@) {
        Some(ms) => Some(ms as i64),
        None => None,
    }
}

/// A leaf's text applied to the innermost open element: a fix takes its time and elevation, a
/// waypoint its time and name, a track its name and type; whatever else is ignored. Inside a
/// fix, a leaf never reaches the waypoint or the track around it.
pub open spec fn with_leaf<P>(s: ReadingView<P>, leaf: Leaf, text: String) -> ReadingView<P> {
    match s.point {
        Some(p) => match leaf {
            Leaf::Time => ReadingView { point: Some(Point { time: time_of(text), ..p }), ..s },
            Leaf::Ele => ReadingView { point: Some(Point { altitude: Some(text), ..p }), ..s },
            _ => s,
        },
        None => match s.waypoint {
            Some(w) => match leaf {
                Leaf::Time => ReadingView { waypoint: Some(Waypoint { time: time_of(text), ..w }), ..s },
                Leaf::Name => ReadingView { waypoint: Some(Waypoint { name: Some(text), ..w }), ..s },
                _ => s,
            },
            None => match s.track {
                Some(t) => match leaf {
                    Leaf::Name => ReadingView { track: Some(TrackView { name: Some(text), ..t }), ..s },
                    Leaf::Type => ReadingView { track: Some(TrackView { kind: Some(text), ..t }), ..s },
                    _ => s,
                },
                None => s,
            },
        },
    }
}

/// What one event does to a reading.
pub open spec fn stepped<P>(s: ReadingView<P>, e: GpxEvent<P>) -> ReadingView<P> {
    match e {
        GpxEvent::Start(tag) => match tag {
            Tag::Gpx(creator) => ReadingView { creator, ..s },
            Tag::Wpt(position) => ReadingView {
                waypoint: match position {
                    Some(p) => Some(Waypoint { position: p, time: None, name: None }),
                    None => None,
                },
                ..s
            },
            Tag::Trk => ReadingView {
                track: Some(TrackView { name: None, kind: None, points: Seq::empty() }),
                ..s
            },
            Tag::Trkpt(position) => ReadingView {
                point: match position {
                    Some(p) => Some(Point { position: p, altitude: None, time: None }),
                    None => None,
                },
                ..s
            },
            Tag::Leaf(leaf, text) => with_leaf(s, leaf, text),
            Tag::Other => s,
        },
        GpxEvent::Empty(tag) => match tag {
            Tag::Gpx(creator) => ReadingView { creator, ..s },
            Tag::Wpt(Some(p)) => ReadingView {
                elements: s.elements.push(
                    ElementView::Waypoint(Waypoint { position: p, time: None, name: None }),
                ),
                ..s
            },
            Tag::Trkpt(Some(p)) => match s.track {
                Some(t) => ReadingView {
                    track: Some(
                        TrackView {
                            points: t.points.push(Point { position: p, altitude: None, time: None }),
                            ..t
                        },
                    ),
                    ..s
                },
                None => s,
            },
            _ => s,
        },
        GpxEvent::End(closing) => match closing {
            Closing::Trkpt => match s.point {
                Some(p) => match s.track {
                    Some(t) => ReadingView {
                        point: None,
                        track: Some(TrackView { points: t.points.push(p), ..t }),
                        ..s
                    },
                    None => ReadingView { point: None, ..s },
                },
                None => s,
            },
            Closing::Wpt => match s.waypoint {
                Some(w) => ReadingView {
                    waypoint: None,
                    elements: s.elements.push(ElementView::Waypoint(w)),
                    ..s
                },
                None => s,
            },
            Closing::Trk => match s.track {
                Some(t) => ReadingView { track: None, elements: s.elements.push(ElementView::Track(t)), ..s },
                None => s,
            },
            Closing::Other => s,
        },
    }
}

impl<P> Reading<P> {
    /// A reading that has seen nothing yet.
    pub fn new() -> (r: Self)
        ensures
            r@.creator is None,
            r@.elements == Seq::<ElementView<P>>::empty(),
            r@.track is None,
            r@.point is None,
            r@.waypoint is None,
    {
        let r = Reading { creator: None, elements: Vec::new(), track: None, point: None, waypoint: None };
        assert(element_views(r.elements@) =~= Seq::<ElementView<P>>::empty());
        r
    }

    fn apply_leaf(&mut self, leaf: Leaf, text: String)
        ensures
            final(self)@ == with_leaf(old(self)@, leaf, text),
    {
        if let Some(point) = &mut self.point {
            match leaf {
                Leaf::Time => {
                    point.time = parse_time(text.as_str());
                },
                Leaf::Ele => {
                    point.altitude = Some(text);
                },
                _ => {},
            }
            return;
        }
        if let Some(waypoint) = &mut self.waypoint {
            match leaf {
                Leaf::Time => {
                    waypoint.time = parse_time(text.as_str());
                },
                Leaf::Name => {
                    waypoint.name = Some(text);
                },
                _ => {},
            }
            return;
        }
        if let Some(track) = &mut self.track {
            match leaf {
                Leaf::Name => {
                    track.name = Some(text);
                },
                Leaf::Type => {
                    track.kind = Some(text);
                },
                _ => {},
            }
        }
    }

    fn push_element(&mut self, element: Element<P>)
        ensures
            final(self)@ == (ReadingView {
                elements: old(self)@.elements.push(element@),
                ..old(self)@
            }),
    {
        let ghost before = self.elements@;
        self.elements.push(element);
        assert(element_views(self.elements@) =~= element_views(before).push(element@));
    }

    /// Takes one event into account.
    pub fn step(&mut self, event: GpxEvent<P>)
        ensures
            final(self)@ == stepped(old(self)@, event),
    {
        match event {
            GpxEvent::Start(tag) => match tag {
                Tag::Gpx(creator) => {
                    self.creator = creator;
                },
                Tag::Wpt(position) => {
                    self.waypoint = match position {
                        Some(p) => Some(Waypoint { position: p, time: None, name: None }),
                        None => None,
                    };
                },
                Tag::Trk => {
                    self.track = Some(Track { name: None, kind: None, points: Vec::new() });
                },
                Tag::Trkpt(position) => {
                    self.point = match position {
                        Some(p) => Some(Point { position: p, altitude: None, time: None }),
                        None => None,
                    };
                },
                Tag::Leaf(leaf, text) => {
                    self.apply_leaf(leaf, text);
                },
                Tag::Other => {},
            },
            GpxEvent::Empty(tag) => match tag {
                Tag::Gpx(creator) => {
                    self.creator = creator;
                },
                Tag::Wpt(Some(p)) => {
                    self.push_element(Element::Waypoint(Waypoint { position: p, time: None, name: None }));
                },
                Tag::Trkpt(Some(p)) => {
                    if let Some(track) = &mut self.track {
                        track.points.push(Point { position: p, altitude: None, time: None });
                    }
                },
                _ => {},
            },
            GpxEvent::End(closing) => match closing {
                Closing::Trkpt => {
                    if let Some(point) = self.point.take() {
                        if let Some(track) = &mut self.track {
                            track.points.push(point);
                        }
                    }
                },
                Closing::Wpt => {
                    if let Some(waypoint) = self.waypoint.take() {
                        self.push_element(Element::Waypoint(waypoint));
                    }
                },
                Closing::Trk => {
                    if let Some(track) = self.track.take() {
                        self.push_element(Element::Track(track));
                    }
                },
                Closing::Other => {},
            },
        }
    }

    /// The document read, once the events have run out.
    pub fn finish(self) -> (r: Document<P>)
        ensures
            r.creator == self@.creator,
            element_views(r.elements@) == self@.elements,
    {
        Document { creator: self.creator, elements: self.elements }
    }
}

/// Whether an element with this local name is a leaf whose text is read, and which.
pub fn leaf_named(name: &str) -> (r: Option<Leaf>)
    ensures
        r == if name@ == "time"@ {
            Some(Leaf::Time)
        } else if name@ == "name"@ {
            Some(Leaf::Name)
        } else if name@ == "type"@ {
            Some(Leaf::Type)
        } else if name@ == "ele"@ {
            Some(Leaf::Ele)
        } else {
            None::<Leaf>
        },
{
    if crate::text::same_text(name, "time") {
        Some(Leaf::Time)
    } else if crate::text::same_text(name, "name") {
        Some(Leaf::Name)
    } else if crate::text::same_text(name, "type") {
        Some(Leaf::Type)
    } else if crate::text::same_text(name, "ele") {
        Some(Leaf::Ele)
    } else {
        None
    }
}

/// When an element starts: a waypoint's own time, a track's first fix that has one.
pub open spec fn start_of<P>(e: ElementView<P>) -> Option<i64> {
    match e {
        ElementView::Track(t) => first_time(t.points),
        ElementView::Waypoint(w) => w.time,
    }
}

pub open spec fn first_time<P>(points: Seq<Point<P>>) -> Option<i64>
    decreases points.len(),
{
    if points.len() == 0 {
        None
    } else if points[0].time is Some {
        points[0].time
    } else {
        first_time(points.drop_first())
    }
}

/// The time of the first fix that has one.
fn first_fix_time<P>(points: &Vec<Point<P>>) -> (r: Option<i64>)
    ensures
        r == first_time(points@),
{
    let mut i: usize = 0;
    assert(points@.skip(0) =~= points@);
    while i < points.len()
        invariant
            i <= points@.len(),
            first_time(points@) == first_time(points@.skip(i as int)),
        decreases points.len() - i,
    {
        assert(points@.skip(i as int).drop_first() =~= points@.skip(i + 1));
        assert(points@.skip(i as int)[0] == points@[i as int]);
        if let Some(t) = points[i].time {
            return Some(t);
        }
        i = i + 1;
    }
    assert(points@.skip(i as int).len() == 0);
    None
}

impl<P> Element<P> {
    /// When the element starts.
    pub fn time(&self) -> (r: Option<i64>)
        ensures
            r == start_of(self@),
    {
        match self {
            Element::Track(track) => first_fix_time(&track.points),
            Element::Waypoint(waypoint) => waypoint.time,
        }
    }
}

/// A visit seen while looking ahead: only its start and name matter.
#[derive(Debug, Clone)]
pub struct Visit {
    pub time: Option<i64>,
    pub name: Option<String>,
}

/// A visit's name as compared with the one to skip: a nameless visit compares as empty.
pub open spec fn name_or_empty(name: Option<String>) -> Seq<char> {
    match name {
        Some(n) => n@,
        None => Seq::empty(),
    }
}

/// Whether a visit is the midnight repetition of the visit described by `skip` (its name and
/// start).
pub open spec fn is_repeat(visit: Visit, skip: Option<(String, i64)>) -> bool {
    match skip {
        None => false,
        Some((name, start)) => visit.time == Some(start) && name_or_empty(visit.name) == name@,
    }
}

pub fn repeats(visit: &Visit, skip: &Option<(String, i64)>) -> (r: bool)
    ensures
        r == is_repeat(*visit, *skip),
{
    match skip {
        None => false,
        Some((name, start)) => {
            let same_time = match visit.time {
                Some(t) => t == *start,
                None => false,
            };
            let same_name = match &visit.name {
                Some(n) => crate::text::same_text(n.as_str(), name.as_str()),
                None => {
                    let empty = name.as_str().unicode_len() == 0;
                    assert(empty == (name@ =~= Seq::<char>::empty()));
                    empty
                },
            };
            same_time && same_name
        },
    }
}

/// Looking into the next file for when its first element happens, stopping as soon as that is
/// known: a track begins at its first timed fix, a visit once its `</wpt>` is seen, unless it is
/// the visit being skipped or has no time.
#[derive(Debug, Clone)]
pub struct Lookahead {
    pub waypoint: Option<Visit>,
    pub in_point: bool,
}

/// What one event does to a lookahead, and the answer when this event settles it.
pub open spec fn looked<P>(s: Lookahead, e: GpxEvent<P>, skip: Option<(String, i64)>) -> (
    Lookahead,
    Option<i64>,
) {
    match e {
        GpxEvent::Start(Tag::Wpt(position)) => (
            Lookahead {
                waypoint: match position {
                    Some(_) => Some(Visit { time: None, name: None }),
                    None => None,
                },
                ..s
            },
            None,
        ),
        GpxEvent::Start(Tag::Trkpt(_)) => (Lookahead { in_point: true, ..s }, None),
        GpxEvent::Start(Tag::Leaf(Leaf::Time, text)) => {
            let time = time_of(text);
            if s.in_point && time is Some {
                (s, time)
            } else {
                match s.waypoint {
                    Some(w) if !s.in_point => (
                        Lookahead { waypoint: Some(Visit { time, ..w }), ..s },
                        None,
                    ),
                    _ => (s, None),
                }
            }
        },
        GpxEvent::Start(Tag::Leaf(Leaf::Name, text)) => match s.waypoint {
            Some(w) => (Lookahead { waypoint: Some(Visit { name: Some(text), ..w }), ..s }, None),
            None => (s, None),
        },
        GpxEvent::End(Closing::Trkpt) => (Lookahead { in_point: false, ..s }, None),
        GpxEvent::End(Closing::Wpt) => match s.waypoint {
            Some(w) => (
                Lookahead { waypoint: None, ..s },
                if !is_repeat(w, skip) && w.time is Some {
                    w.time
                } else {
                    None
                },
            ),
            None => (s, None),
        },
        _ => (s, None),
    }
}

impl Lookahead {
    /// Nothing seen yet.
    pub fn new() -> (r: Self)
        ensures
            r.waypoint is None,
            !r.in_point,
    {
        Lookahead { waypoint: None, in_point: false }
    }

    /// Takes one event into account; `Some` is the answer, once this event settles it. Events
    /// that run out without an answer mean the file has no element after the skipped visit.
    pub fn step<P>(&mut self, event: GpxEvent<P>, skip: &Option<(String, i64)>) -> (r: Option<i64>)
        ensures
            (*final(self), r) == looked(*old(self), event, *skip),
    {
        match event {
            GpxEvent::Start(Tag::Wpt(position)) => {
                self.waypoint = match position {
                    Some(_) => Some(Visit { time: None, name: None }),
                    None => None,
                };
                None
            },
            GpxEvent::Start(Tag::Trkpt(_)) => {
                self.in_point = true;
                None
            },
            GpxEvent::Start(Tag::Leaf(Leaf::Time, text)) => {
                let time = parse_time(text.as_str());
                if self.in_point && time.is_some() {
                    return time;
                }
                if !self.in_point {
                    if let Some(waypoint) = &mut self.waypoint {
                        waypoint.time = time;
                    }
                }
                None
            },
            GpxEvent::Start(Tag::Leaf(Leaf::Name, text)) => {
                if let Some(waypoint) = &mut self.waypoint {
                    waypoint.name = Some(text);
                }
                None
            },
            GpxEvent::End(Closing::Trkpt) => {
                self.in_point = false;
                None
            },
            GpxEvent::End(Closing::Wpt) => {
                match self.waypoint.take() {
                    Some(waypoint) => {
                        if !repeats(&waypoint, skip) && waypoint.time.is_some() {
                            waypoint.time
                        } else {
                            None
                        }
                    },
                    None => None,
                }
            },
            _ => None,
        }
    }
}

} // verus!
