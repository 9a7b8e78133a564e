//! Notable events, derived from data arches already has.
//!
//! A highlight is one line in a feed or a journal: the first day in a country, the first day in
//! a town, a flight, the longest walk of a range. Nothing new is recorded for them; they are a
//! reading of the day summaries and the items, computed per request.
//!
//! Everything here is pure: it takes plain rows and returns the events, so the rules about what
//! counts as a first time and which trip wins are stated and proved without a database.
//!
//! Every highlight carries `confirmed`, which says whether the user has reviewed the data it
//! was derived from in Arc. It is the consumer's job to decide what to do with an unconfirmed
//! event: a public feed should drop it, a private journal may well show it greyed out.
//!
//! Distances are whole millimetres: exact, and fine enough for anything a title says.

use vstd::prelude::*;
use crate::lists::{contains_text, lemma_contains_push, lemma_texts_push, texts};
use vstd::string::*;
use crate::enums::ActivityType;
use crate::text::{lemma_seq_less_asymmetric, lemma_seq_less_irreflexive, lemma_seq_less_total, lemma_seq_less_transitive, owned, clone_opt, concat, decimal, decimal_u64, order_str, Order, opt_view, same_text, seq_le, seq_less, str_le, str_less, to_uppercase, trim, trimmed, uppercase_of};

verus! {

/// How far past a non-visit neighbour a flight looks for the place it left from or arrived at.
/// A flight is usually bracketed by visits, but a walk through the terminal or a short transfer
/// ride in between is normal; anything further away is not the airport any more.
pub const MAX_HOPS: usize = 3;

/// Where a flight left from or arrived at, as far as the neighbouring visit knows.
#[derive(Debug, Clone, PartialEq)]
pub struct Endpoint {
    pub locality: Option<String>,
    pub country_code: Option<String>,
    pub place_name: Option<String>,
}

/// An endpoint as plain text.
pub struct EndpointView {
    pub locality: Option<Seq<char>>,
    pub country_code: Option<Seq<char>>,
    pub place_name: Option<Seq<char>>,
}

impl View for Endpoint {
    type V = EndpointView;

    open spec fn view(&self) -> EndpointView {
        EndpointView {
            locality: opt_view(self.locality),
            country_code: opt_view(self.country_code),
            place_name: opt_view(self.place_name),
        }
    }
}

impl Default for Endpoint {
    fn default() -> (r: Self)
        ensures
            r@ == (EndpointView { locality: None, country_code: None, place_name: None }),
    {
        Endpoint { locality: None, country_code: None, place_name: None }
    }
}

/// A country code the way ISO 3166-1 writes it: trimmed and in capitals.
pub open spec fn code_of(raw: Seq<char>) -> Seq<char> {
    uppercase_of(trimmed(raw))
}

impl EndpointView {
    /// What a title calls this end: the locality, else the place name, and nothing when the
    /// one chosen is empty.
    pub open spec fn label(self) -> Option<Seq<char>> {
        let chosen = match self.locality {
            Some(l) => Some(l),
            None => self.place_name,
        };
        match chosen {
            Some(l) => if l.len() > 0 { Some(l) } else { None },
            None => None,
        }
    }

    pub open spec fn is_empty(self) -> bool {
        self.locality is None && self.country_code is None && self.place_name is None
    }

    /// The endpoint with its country code written as ISO does, and no code at all when that
    /// leaves nothing.
    pub open spec fn normalized(self) -> EndpointView {
        EndpointView {
            country_code: match self.country_code {
                Some(c) => if code_of(c).len() > 0 { Some(code_of(c)) } else { None },
                None => None,
            },
            ..self
        }
    }
}

impl Endpoint {
    /// A copy that is known to hold the same text.
    pub fn copy(&self) -> (r: Self)
        ensures
            r@ == self@,
    {
        Endpoint {
            locality: clone_opt(&self.locality),
            country_code: clone_opt(&self.country_code),
            place_name: clone_opt(&self.place_name),
        }
    }

    /// What to call this end of the flight in a title. The locality is the useful half of an
    /// airport's name ("Flight from Dresden to Lisbon"); the place name is the fallback for a
    /// visit that never got one.
    pub fn label(&self) -> (r: Option<String>)
        ensures
            opt_view(r) == self@.label(),
    {
        let chosen = match &self.locality {
            Some(l) => Some(l.clone()),
            None => clone_opt(&self.place_name),
        };
        match chosen {
            Some(l) => if l.unicode_len() > 0 { Some(l) } else { None },
            None => None,
        }
    }

    pub fn is_empty(&self) -> (r: bool)
        ensures
            r == self@.is_empty(),
    {
        self.locality.is_none() && self.country_code.is_none() && self.place_name.is_none()
    }

    /// Country codes come out of Arc in whichever case the source had; highlights report the
    /// uppercase ISO 3166-1 writes, here as well as on a first time.
    pub fn normalized(self) -> (r: Self)
        ensures
            r@ == self@.normalized(),
    {
        let code = match &self.country_code {
            Some(c) => {
                let upper = to_uppercase(trim(c.as_str()).as_str());
                if upper.unicode_len() > 0 { Some(upper) } else { None }
            },
            None => None,
        };
        Endpoint { locality: self.locality, country_code: code, place_name: self.place_name }
    }
}

/// A copy of an optional endpoint that is known to hold the same text.
pub fn copy_endpoint(e: &Option<Endpoint>) -> (r: Option<Endpoint>)
    ensures
        match (r, *e) {
            (Some(a), Some(b)) => a@ == b@,
            (None, None) => true,
            _ => false,
        },
{
    match e {
        Some(x) => Some(x.copy()),
        None => None,
    }
}

/// One item on the way to a flight's endpoint, for [`nearest_visit`] to walk over.
#[derive(Debug, Clone)]
pub struct Neighbour {
    pub is_visit: bool,
    pub previous_item_id: Option<String>,
    pub next_item_id: Option<String>,
    pub endpoint: Endpoint,
}

#[derive(Debug, Clone, Copy, PartialEq, Eq, Structural)]
pub enum Direction {
    Previous,
    Next,
}

/// What one looked-up item means for the walk towards a visit.
pub enum Hop {
    /// The walk is over, with the endpoint found or with nothing.
    Done(Option<Endpoint>),
    /// The walk goes on to this item, if there is one.
    Follow(Option<String>),
}

/// The rule of the walk for one item: a visit ends it, answering its endpoint unless the visit
/// knows nothing about where it is; anything else hands on to its neighbour in the direction of
/// the walk.
pub fn hop(neighbour: Neighbour, direction: Direction) -> (r: Hop)
    ensures
        neighbour.is_visit ==> match r {
            Hop::Done(Some(e)) => e@ == neighbour.endpoint@.normalized()
                && !neighbour.endpoint@.normalized().is_empty(),
            Hop::Done(None) => neighbour.endpoint@.normalized().is_empty(),
            Hop::Follow(_) => false,
        },
        !neighbour.is_visit ==> match r {
            Hop::Follow(id) => opt_view(id) == (match direction {
                Direction::Previous => opt_view(neighbour.previous_item_id),
                Direction::Next => opt_view(neighbour.next_item_id),
            }),
            Hop::Done(_) => false,
        },
{
    if neighbour.is_visit {
        // A visit that knows nothing about where it is answers nothing, rather than an
        // endpoint of three nulls.
        let endpoint = neighbour.endpoint.normalized();
        if endpoint.is_empty() {
            Hop::Done(None)
        } else {
            Hop::Done(Some(endpoint))
        }
    } else {
        match direction {
            Direction::Previous => Hop::Follow(neighbour.previous_item_id),
            Direction::Next => Hop::Follow(neighbour.next_item_id),
        }
    }
}

/// The id a non-visit hands the walk on to, in the walk's direction.
pub open spec fn follow_of(n: Neighbour, direction: Direction) -> Option<Seq<char>> {
    match direction {
        Direction::Previous => opt_view(n.previous_item_id),
        Direction::Next => opt_view(n.next_item_id),
    }
}

/// Whether a reply of `fetch` ends the walk: an error, a missing item, a visit, or an item with
/// no neighbour in the walk's direction.
pub open spec fn ends_walk<E>(reply: Result<Option<Neighbour>, E>, direction: Direction) -> bool {
    match reply {
        Ok(Some(n)) => n.is_visit || follow_of(n, direction) is None,
        _ => true,
    }
}

/// Whether `trace`, the ids looked up in turn with what `fetch` answered for each, is a walk
/// from `start`: it begins at `start` (and is empty without one), every answer is one `fetch`
/// can give for its id, every step but the last is a non-visit that hands on to the next id, and
/// the last step ends the walk unless [`MAX_HOPS`] items were looked up.
pub open spec fn walked<E, F: FnMut(&str) -> Result<Option<Neighbour>, E>>(
    fetch: F,
    start: Option<&str>,
    direction: Direction,
    trace: Seq<(&str, Result<Option<Neighbour>, E>)>,
) -> bool {
    &&& trace.len() <= MAX_HOPS
    &&& (start is None <==> trace.len() == 0)
    &&& (trace.len() > 0 ==> trace[0].0@ == start->0@)
    &&& forall|i: int|
        0 <= i < trace.len() ==> call_ensures(fetch, (#[trigger] trace[i].0,), trace[i].1)
    &&& forall|i: int|
        0 <= i < trace.len() - 1 ==> (#[trigger] trace[i].1 matches Ok(Some(n)) && !n.is_visit
            && follow_of(n, direction) == Some(trace[i + 1].0@))
    &&& trace.len() > 0 ==> (trace.len() == MAX_HOPS || ends_walk(trace.last().1, direction))
}

/// What a walk answers: the error or the missing item its last step met, the normalized
/// endpoint of the visit it stopped at when that says something, and nothing otherwise.
pub open spec fn walk_outcome<E>(
    trace: Seq<(&str, Result<Option<Neighbour>, E>)>,
) -> Result<Option<EndpointView>, E> {
    if trace.len() == 0 {
        Ok(None)
    } else {
        match trace.last().1 {
            Err(e) => Err(e),
            Ok(None) => Ok(None),
            Ok(Some(n)) => if n.is_visit && !n.endpoint@.normalized().is_empty() {
                Ok(Some(n.endpoint@.normalized()))
            } else {
                Ok(None)
            },
        }
    }
}

/// An answer of [`nearest_visit`], with the endpoint taken by its view.
pub open spec fn endpoint_answer<E>(r: Result<Option<Endpoint>, E>) -> Result<Option<EndpointView>, E> {
    match r {
        Ok(Some(e)) => Ok(Some(e@)),
        Ok(None) => Ok(None),
        Err(e) => Err(e),
    }
}

/// The place either side of a flight: the nearest visit within [`MAX_HOPS`] links, or nothing.
///
/// `fetch` looks an item up by id; what it answers is the caller's business. The walk starts at
/// `start`, follows [`hop`] for each item fetched, and stops at a visit, at a missing item, at
/// the end of the chain or after `MAX_HOPS` items. An error from `fetch` ends it with that error.
/// Whatever `fetch` answers, the result is what the walk over those answers gives.
pub fn nearest_visit<E, F>(start: Option<&str>, direction: Direction, fetch: F) -> (r: Result<
    Option<Endpoint>,
    E,
>) where F: FnMut(&str) -> Result<Option<Neighbour>, E>
    requires
        forall|id: &str| call_requires(fetch, (id,)),
    ensures
        exists|trace: Seq<(&str, Result<Option<Neighbour>, E>)>|
            walked(fetch, start, direction, trace) && endpoint_answer(r) == walk_outcome(trace),
{
    let mut id: Option<String> = match start {
        Some(s) => Some(s.to_string()),
        None => None,
    };
    let mut hops: usize = 0;
    let mut lookup = fetch;
    let ghost mut trace: Seq<(&str, Result<Option<Neighbour>, E>)> = Seq::empty();
    while hops < MAX_HOPS
        invariant
            lookup == fetch,
            hops <= MAX_HOPS,
            forall|x: &str| call_requires(lookup, (x,)),
            trace.len() == hops,
            start is None ==> id is None && hops == 0,
            hops == 0 ==> opt_view(id) == (match start {
                Some(s) => Some(s@),
                None => None,
            }),
            hops > 0 ==> (trace.last().1 matches Ok(Some(n)) && !n.is_visit
                && opt_view(id) == follow_of(n, direction)),
            hops > 0 ==> start is Some && trace[0].0@ == start->0@,
            forall|i: int|
                0 <= i < trace.len() ==> call_ensures(fetch, (#[trigger] trace[i].0,), trace[i].1),
            forall|i: int|
                0 <= i < trace.len() - 1 ==> (#[trigger] trace[i].1 matches Ok(Some(n)) && !n.is_visit
                    && follow_of(n, direction) == Some(trace[i + 1].0@)),
        decreases MAX_HOPS - hops,
    {
        let current = match id {
            Some(c) => c,
            None => {
                proof {
                    assert(walked(fetch, start, direction, trace));
                    assert(endpoint_answer(Ok::<Option<Endpoint>, E>(None)) == walk_outcome(trace));
                }
                return Ok(None);
            },
        };
        let cur: &str = current.as_str();
        let reply = lookup(cur);
        let ghost before = trace;
        proof {
            trace = trace.push((cur, reply));
            assert(trace.last() == (cur, reply));
            assert forall|i: int| 0 <= i < trace.len() implies call_ensures(
                fetch,
                (#[trigger] trace[i].0,),
                trace[i].1,
            ) by {
                if i < before.len() {
                    assert(trace[i] == before[i]);
                }
            }
            assert forall|i: int| 0 <= i < trace.len() - 1 implies (#[trigger] trace[i].1 matches Ok(Some(n))
                && !n.is_visit && follow_of(n, direction) == Some(trace[i + 1].0@)) by {
                assert(trace[i] == before[i]);
                if i + 1 < before.len() {
                    assert(trace[i + 1] == before[i + 1]);
                }
            }
        }
        let neighbour = match reply {
            Ok(Some(n)) => n,
            Ok(None) => {
                proof {
                    assert(walked(fetch, start, direction, trace));
                }
                return Ok(None);
            },
            Err(e) => {
                proof {
                    assert(walked(fetch, start, direction, trace));
                }
                return Err(e);
            },
        };
        match hop(neighbour, direction) {
            Hop::Done(found) => {
                proof {
                    assert(walked(fetch, start, direction, trace));
                    assert(endpoint_answer(Ok::<Option<Endpoint>, E>(found)) == walk_outcome(trace));
                }
                return Ok(found);
            },
            Hop::Follow(next) => {
                id = next;
            },
        }
        hops = hops + 1;
    }
    proof {
        assert(walked(fetch, start, direction, trace));
        assert(endpoint_answer(Ok::<Option<Endpoint>, E>(None)) == walk_outcome(trace));
    }
    Ok(None)
}


// ---------------------------------------------------------------------------------------------
// Kinds
// ---------------------------------------------------------------------------------------------

#[derive(Debug, Clone, Copy, PartialEq, Eq, Structural)]
pub enum Kind {
    Country,
    Locality,
    Flight,
    Longest,
}

impl Kind {
    /// Also the order highlights of the same day are reported in.
    pub const ALL: [Kind; 4] = [Kind::Country, Kind::Locality, Kind::Flight, Kind::Longest];

    /// The name a kind goes by in a request and in a response.
    pub open spec fn name(self) -> Seq<char> {
        match self {
            Kind::Country => "country"@,
            Kind::Locality => "locality"@,
            Kind::Flight => "flight"@,
            Kind::Longest => "longest"@,
        }
    }

    /// The position of a kind in [`Kind::ALL`].
    pub open spec fn rank(self) -> nat {
        match self {
            Kind::Country => 0,
            Kind::Locality => 1,
            Kind::Flight => 2,
            Kind::Longest => 3,
        }
    }

    /// The kind a name stands for, if any.
    pub open spec fn of_name(name: Seq<char>) -> Option<Kind> {
        if name == "country"@ {
            Some(Kind::Country)
        } else if name == "locality"@ {
            Some(Kind::Locality)
        } else if name == "flight"@ {
            Some(Kind::Flight)
        } else if name == "longest"@ {
            Some(Kind::Longest)
        } else {
            None
        }
    }

    pub fn as_str(self) -> (r: &'static str)
        ensures
            r@ == self.name(),
    {
        match self {
            Kind::Country => "country",
            Kind::Locality => "locality",
            Kind::Flight => "flight",
            Kind::Longest => "longest",
        }
    }

    pub fn parse(name: &str) -> (r: Option<Self>)
        ensures
            r == Self::of_name(name@),
    {
        if same_text(name, "country") {
            Some(Kind::Country)
        } else if same_text(name, "locality") {
            Some(Kind::Locality)
        } else if same_text(name, "flight") {
            Some(Kind::Flight)
        } else if same_text(name, "longest") {
            Some(Kind::Longest)
        } else {
            None
        }
    }

    /// The position of this kind in [`Kind::ALL`].
    pub fn order(self) -> (r: usize)
        ensures
            r == self.rank(),
    {
        match self {
            Kind::Country => 0,
            Kind::Locality => 1,
            Kind::Flight => 2,
            Kind::Longest => 3,
        }
    }

    /// Every kind reads back from its own name.
    pub proof fn name_round_trip(k: Kind)
        ensures
            Self::of_name(k.name()) == Some(k),
    {
        reveal_strlit("country");
        reveal_strlit("locality");
        reveal_strlit("flight");
        reveal_strlit("longest");
        match k {
            Kind::Longest => {
                assert("longest"@[0] != "country"@[0]);
                assert("longest"@.len() != "locality"@.len());
                assert("longest"@.len() != "flight"@.len());
            },
            Kind::Flight => {
                assert("flight"@.len() != "country"@.len());
                assert("flight"@.len() != "locality"@.len());
            },
            Kind::Locality => {
                assert("locality"@.len() != "country"@.len());
            },
            Kind::Country => {},
        }
    }
}

// ---------------------------------------------------------------------------------------------
// Rows and events
// ---------------------------------------------------------------------------------------------

/// A day summary, reduced to what a highlight is derived from.
#[derive(Debug, Clone)]
pub struct DayRow {
    pub date: String,
    pub country_codes: Vec<String>,
    pub localities: Vec<String>,
    pub confirmed: bool,
}

pub struct DayView {
    pub date: Seq<char>,
    pub country_codes: Seq<Seq<char>>,
    pub localities: Seq<Seq<char>>,
    pub confirmed: bool,
}

impl View for DayRow {
    type V = DayView;

    open spec fn view(&self) -> DayView {
        DayView {
            date: self.date@,
            country_codes: texts(self.country_codes@),
            localities: texts(self.localities@),
            confirmed: self.confirmed,
        }
    }
}

/// The distinct non-empty codes among `raw`, each written as ISO does, in the order they
/// first appear.
pub open spec fn codes_of(raw: Seq<Seq<char>>) -> Seq<Seq<char>>
    decreases raw.len(),
{
    if raw.len() == 0 {
        Seq::empty()
    } else {
        let before = codes_of(raw.drop_last());
        let code = code_of(raw.last());
        if code.len() == 0 || before.contains(code) {
            before
        } else {
            before.push(code)
        }
    }
}

proof fn lemma_codes_distinct(raw: Seq<Seq<char>>)
    ensures
        codes_of(raw).no_duplicates(),
    decreases raw.len(),
{
    if raw.len() > 0 {
        lemma_codes_distinct(raw.drop_last());
        let before = codes_of(raw.drop_last());
        let code = code_of(raw.last());
        if !(code.len() == 0 || before.contains(code)) {
            assert forall|i: int, j: int| 0 <= i < j < before.len() + 1 implies before.push(code)[i]
                != before.push(code)[j] by {
                if j == before.len() {
                    assert(before[i] != code);
                }
            }
        }
    }
}

impl DayView {
    /// The country a locality on this day belongs to, when there is no doubt about it.
    pub open spec fn only_country(self) -> Option<Seq<char>> {
        if codes_of(self.country_codes).len() == 1 {
            Some(codes_of(self.country_codes)[0])
        } else {
            None
        }
    }
}

impl DayRow {
    /// The day's country codes as ISO writes them. Arc stores whatever the source had, so the
    /// same country arrives as "de" from a place and "DE" from a visit, and a day that saw only
    /// Germany can end up with two codes in it.
    pub fn codes(&self) -> (r: Vec<String>)
        ensures
            texts(r@) == codes_of(self@.country_codes),
    {
        let mut codes: Vec<String> = Vec::new();
        let mut i: usize = 0;
        while i < self.country_codes.len()
            invariant
                i <= self.country_codes@.len(),
                texts(codes@) == codes_of(texts(self.country_codes@).take(i as int)),
            decreases self.country_codes.len() - i,
        {
            let ghost raw = texts(self.country_codes@).take(i + 1);
            assert(raw.drop_last() =~= texts(self.country_codes@).take(i as int));
            let code = to_uppercase(trim(self.country_codes[i].as_str()).as_str());
            if code.unicode_len() > 0 && !contains_text(&codes, code.as_str()) {
                proof {
                    lemma_texts_push(codes@, code);
                }
                codes.push(code);
            }
            i = i + 1;
        }
        assert(texts(self.country_codes@).take(i as int) =~= texts(self.country_codes@));
        codes
    }

    /// The country a locality on this day belongs to, when there is no doubt about it. There is
    /// a Paris in Texas, so a locality is only ever a first time within a country.
    pub fn only_country(&self) -> (r: Option<String>)
        ensures
            opt_view(r) == self@.only_country(),
    {
        let codes = self.codes();
        if codes.len() == 1 {
            Some(codes[0].clone())
        } else {
            None
        }
    }
}

/// The English short name ISO 3166-1 lists for an alpha-2 code, when it lists the code.
pub uninterp spec fn alpha2_short_name(code: Seq<char>) -> Option<Seq<char>>;

/// `rust_iso3166::from_alpha2`, reduced to the English short name. It looks the code up in a
/// fixed table, exactly as given: the answer depends on the code alone.
#[verifier::external_body]
fn short_name_of_alpha2(code: &str) -> (r: Option<String>)
    ensures
        opt_view(r) == alpha2_short_name(code@),
{
    rust_iso3166::from_alpha2(code).map(|country| country.name.to_string())
}

/// The English short name for a country code of any case.
pub open spec fn country_name_of(code: Seq<char>) -> Option<Seq<char>> {
    alpha2_short_name(uppercase_of(code))
}

/// The English short name for an ISO 3166-1 alpha-2 code, as ISO itself lists it.
pub fn country_name(code: &str) -> (r: Option<String>)
    ensures
        opt_view(r) == country_name_of(code@),
{
    let upper = to_uppercase(code);
    short_name_of_alpha2(upper.as_str())
}

#[derive(Debug, Clone, PartialEq)]
pub struct Highlight {
    pub kind: Kind,
    pub date: String,
    pub title: String,
    /// Whether the data behind this event has been reviewed in Arc: the day's flag for a first
    /// time, the item's for a flight or a longest trip.
    pub confirmed: bool,
    pub detail: Detail,
}

#[derive(Debug, Clone, PartialEq)]
pub enum Detail {
    Country {
        country_code: String,
        /// The English short name, `None` for a code ISO 3166-1 does not have.
        country: Option<String>,
    },
    Locality {
        locality: String,
        /// `None` when the day touched more than one country and there is no telling which.
        country_code: Option<String>,
    },
    Flight {
        item_id: String,
        distance_mm: Option<u64>,
        duration_seconds: i64,
        from: Option<Endpoint>,
        to: Option<Endpoint>,
    },
    Longest {
        item_id: String,
        activity_type: String,
        distance_mm: u64,
        duration_seconds: i64,
    },
}

pub struct HighlightView {
    pub kind: Kind,
    pub date: Seq<char>,
    pub title: Seq<char>,
    pub confirmed: bool,
    pub detail: DetailView,
}

pub enum DetailView {
    Country { country_code: Seq<char>, country: Option<Seq<char>> },
    Locality { locality: Seq<char>, country_code: Option<Seq<char>> },
    Flight {
        item_id: Seq<char>,
        distance_mm: Option<u64>,
        duration_seconds: i64,
        from: Option<EndpointView>,
        to: Option<EndpointView>,
    },
    Longest { item_id: Seq<char>, activity_type: Seq<char>, distance_mm: u64, duration_seconds: i64 },
}

pub open spec fn endpoint_view(e: Option<Endpoint>) -> Option<EndpointView> {
    match e {
        Some(x) => Some(x@),
        None => None,
    }
}

impl View for Detail {
    type V = DetailView;

    open spec fn view(&self) -> DetailView {
        match self {
            Detail::Country { country_code, country } => DetailView::Country {
                country_code: country_code@,
                country: opt_view(*country),
            },
            Detail::Locality { locality, country_code } => DetailView::Locality {
                locality: locality@,
                country_code: opt_view(*country_code),
            },
            Detail::Flight { item_id, distance_mm, duration_seconds, from, to } => DetailView::Flight {
                item_id: item_id@,
                distance_mm: *distance_mm,
                duration_seconds: *duration_seconds,
                from: endpoint_view(*from),
                to: endpoint_view(*to),
            },
            Detail::Longest { item_id, activity_type, distance_mm, duration_seconds } =>
                DetailView::Longest {
                item_id: item_id@,
                activity_type: activity_type@,
                distance_mm: *distance_mm,
                duration_seconds: *duration_seconds,
            },
        }
    }
}

impl View for Highlight {
    type V = HighlightView;

    open spec fn view(&self) -> HighlightView {
        HighlightView {
            kind: self.kind,
            date: self.date@,
            title: self.title@,
            confirmed: self.confirmed,
            detail: self.detail@,
        }
    }
}

/// The events of a list, as plain values.
pub open spec fn views(v: Seq<Highlight>) -> Seq<HighlightView> {
    v.map_values(|h: Highlight| h@)
}

pub proof fn lemma_views_push(v: Seq<Highlight>, h: Highlight)
    ensures
        views(v.push(h)) == views(v).push(h@),
{
    assert(views(v.push(h)) =~= views(v).push(h@));
}

// ---------------------------------------------------------------------------------------------
// First times in a country
// ---------------------------------------------------------------------------------------------

/// Whether a day is one a request up to `to` has already seen.
pub open spec fn seen_by(d: DayView, to: Seq<char>) -> bool {
    seq_le(d.date, to)
}

/// Whether a day is one a request for `from..=to` reports on.
pub open spec fn in_range(d: DayView, from: Seq<char>, to: Seq<char>) -> bool {
    seq_le(d.date, to) && !seq_less(d.date, from)
}

/// Every country code seen on the days no later than `to`, in the order they were seen.
pub open spec fn codes_seen(days: Seq<DayView>, to: Seq<char>) -> Seq<Seq<char>>
    decreases days.len(),
{
    if days.len() == 0 {
        Seq::empty()
    } else if seen_by(days.last(), to) {
        codes_seen(days.drop_last(), to) + codes_of(days.last().country_codes)
    } else {
        codes_seen(days.drop_last(), to)
    }
}

/// The first-time event for a country on a day.
pub open spec fn country_event(d: DayView, code: Seq<char>) -> HighlightView {
    let name = country_name_of(code);
    HighlightView {
        kind: Kind::Country,
        date: d.date,
        title: "First time in "@ + match name {
            Some(n) => n,
            None => code,
        },
        confirmed: d.confirmed,
        detail: DetailView::Country { country_code: code, country: name },
    }
}

/// The events for those of `codes` that have not been `seen` before, in order.
pub open spec fn new_countries(d: DayView, codes: Seq<Seq<char>>, seen: Seq<Seq<char>>) -> Seq<
    HighlightView,
>
    decreases codes.len(),
{
    if codes.len() == 0 {
        Seq::empty()
    } else if seen.contains(codes.last()) {
        new_countries(d, codes.drop_last(), seen)
    } else {
        new_countries(d, codes.drop_last(), seen).push(country_event(d, codes.last()))
    }
}

/// For each day in range, in order, an event for each of its countries that no earlier day up
/// to `to` has seen.
pub open spec fn country_events(days: Seq<DayView>, from: Seq<char>, to: Seq<char>) -> Seq<
    HighlightView,
>
    decreases days.len(),
{
    if days.len() == 0 {
        Seq::empty()
    } else {
        let d = days.last();
        let earlier = days.drop_last();
        if in_range(d, from, to) {
            country_events(earlier, from, to) + new_countries(
                d,
                codes_of(d.country_codes),
                codes_seen(earlier, to),
            )
        } else {
            country_events(earlier, from, to)
        }
    }
}

/// The day rows of a list, as plain values.
pub open spec fn day_views(days: Seq<DayRow>) -> Seq<DayView> {
    days.map_values(|d: DayRow| d@)
}

/// The first local day each country code was ever seen on, reported when that day is in range.
pub fn countries(days: &[DayRow], from: &str, to: &str) -> (r: Vec<Highlight>)
    ensures
        views(r@) == country_events(day_views(days@), from@, to@),
{
    let mut seen: Vec<String> = Vec::new();
    let mut highlights: Vec<Highlight> = Vec::new();
    let mut i: usize = 0;
    while i < days.len()
        invariant
            i <= days@.len(),
            texts(seen@) == codes_seen(day_views(days@).take(i as int), to@),
            views(highlights@) == country_events(day_views(days@).take(i as int), from@, to@),
        decreases days.len() - i,
    {
        let day = &days[i];
        let ghost prefix = day_views(days@).take(i as int);
        let ghost upto = day_views(days@).take(i + 1);
        assert(upto.drop_last() =~= prefix);
        assert(upto.last() == day@);
        if str_le(day.date.as_str(), to) {
            let codes = day.codes();
            let ghost seen_before = texts(seen@);
            let ghost events_before = views(highlights@);
            let reporting = !str_less(day.date.as_str(), from);
            proof {
                lemma_codes_distinct(day@.country_codes);
            }
            let mut k: usize = 0;
            while k < codes.len()
                invariant
                    k <= codes@.len(),
                    texts(codes@) == codes_of(day@.country_codes),
                    codes_of(day@.country_codes).no_duplicates(),
                    texts(seen@) == seen_before + texts(codes@).take(k as int),
                    reporting ==> views(highlights@) == events_before + new_countries(
                        day@,
                        texts(codes@).take(k as int),
                        seen_before,
                    ),
                    !reporting ==> views(highlights@) == events_before,
                decreases codes.len() - k,
            {
                let code = &codes[k];
                let ghost c = code@;
                let ghost taken = texts(codes@).take(k + 1);
                assert(taken.drop_last() =~= texts(codes@).take(k as int));
                assert(taken.last() == c);
                assert(taken =~= texts(codes@).take(k as int).push(c));
                assert(!texts(codes@).take(k as int).contains(c)) by {
                    if texts(codes@).take(k as int).contains(c) {
                        let j = choose|j: int| 0 <= j < k && texts(codes@).take(k as int)[j] == c;
                        assert(texts(codes@)[j] == texts(codes@)[k as int]);
                    }
                }
                let fresh = !contains_text(&seen, code.as_str());
                proof {
                    vstd::seq_lib::lemma_seq_concat_contains_all_elements(
                        seen_before,
                        texts(codes@).take(k as int),
                        c,
                    );
                    lemma_texts_push(seen@, *code);
                }
                assert(fresh == !seen_before.contains(c));
                seen.push(code.clone());
                assert(texts(seen@) =~= seen_before + taken);
                if fresh && reporting {
                    let country = country_name(code.as_str());
                    let shown = match &country {
                        Some(n) => n.clone(),
                        None => code.clone(),
                    };
                    let h = Highlight {
                        kind: Kind::Country,
                        date: day.date.clone(),
                        title: concat("First time in ", shown.as_str()),
                        confirmed: day.confirmed,
                        detail: Detail::Country { country_code: code.clone(), country },
                    };
                    proof {
                        lemma_views_push(highlights@, h);
                    }
                    highlights.push(h);
                }
                k = k + 1;
            }
            assert(texts(codes@).take(codes@.len() as int) =~= texts(codes@));
            proof {
                assert(seen_by(upto.last(), to@));
                if reporting {
                    assert(in_range(upto.last(), from@, to@));
                } else {
                    assert(!in_range(upto.last(), from@, to@));
                }
            }
        } else {
            assert(!seen_by(upto.last(), to@));
            assert(!in_range(upto.last(), from@, to@));
        }
        i = i + 1;
    }
    assert(day_views(days@).take(days@.len() as int) =~= day_views(days@));
    highlights
}


// ---------------------------------------------------------------------------------------------
// First times in a locality
// ---------------------------------------------------------------------------------------------

/// A locality as seen on one day: its name, and its country when the day had only one.
pub type Sighting = (Seq<char>, Option<Seq<char>>);

/// The sightings of a day's localities, in order.
pub open spec fn sightings(locs: Seq<Seq<char>>, country: Option<Seq<char>>) -> Seq<Sighting>
    decreases locs.len(),
{
    if locs.len() == 0 {
        Seq::empty()
    } else {
        sightings(locs.drop_last(), country).push((locs.last(), country))
    }
}

/// Every locality sighting on the days no later than `to`, in order.
pub open spec fn localities_seen(days: Seq<DayView>, to: Seq<char>) -> Seq<Sighting>
    decreases days.len(),
{
    if days.len() == 0 {
        Seq::empty()
    } else if seen_by(days.last(), to) {
        localities_seen(days.drop_last(), to) + sightings(
            days.last().localities,
            days.last().only_country(),
        )
    } else {
        localities_seen(days.drop_last(), to)
    }
}

/// Whether a sighting of `name` in `country` is a first time after the `earlier` ones. A day
/// that touched two countries cannot say which one the name belongs to, so it is a first time
/// only if the name is new outright. The other way round, a name once seen without a country is
/// not first again the day its country is known.
pub open spec fn is_first_sighting(
    name: Seq<char>,
    country: Option<Seq<char>>,
    earlier: Seq<Sighting>,
) -> bool {
    match country {
        Some(_) => !earlier.contains((name, country)) && !earlier.contains((name, None)),
        None => !exists|c: Option<Seq<char>>| earlier.contains((name, c)),
    }
}

/// The first-time event for a locality on a day.
pub open spec fn locality_event(d: DayView, name: Seq<char>, country: Option<Seq<char>>) -> HighlightView {
    HighlightView {
        kind: Kind::Locality,
        date: d.date,
        title: "First time in "@ + name,
        confirmed: d.confirmed,
        detail: DetailView::Locality { locality: name, country_code: country },
    }
}

/// The events for those of a day's localities that are first times, in order.
pub open spec fn new_localities(
    d: DayView,
    country: Option<Seq<char>>,
    locs: Seq<Seq<char>>,
    earlier: Seq<Sighting>,
) -> Seq<HighlightView>
    decreases locs.len(),
{
    if locs.len() == 0 {
        Seq::empty()
    } else {
        let before = locs.drop_last();
        let events = new_localities(d, country, before, earlier);
        if is_first_sighting(locs.last(), country, earlier + sightings(before, country)) {
            events.push(locality_event(d, locs.last(), country))
        } else {
            events
        }
    }
}

/// For each day in range, in order, an event for each locality sighting that is a first time
/// after every earlier sighting up to `to`.
pub open spec fn locality_events(days: Seq<DayView>, from: Seq<char>, to: Seq<char>) -> Seq<
    HighlightView,
>
    decreases days.len(),
{
    if days.len() == 0 {
        Seq::empty()
    } else {
        let d = days.last();
        let earlier = days.drop_last();
        if in_range(d, from, to) {
            locality_events(earlier, from, to) + new_localities(
                d,
                d.only_country(),
                d.localities,
                localities_seen(earlier, to),
            )
        } else {
            locality_events(earlier, from, to)
        }
    }
}

/// The sightings kept so far, as plain values.
pub open spec fn sighting_views(v: Seq<(String, Option<String>)>) -> Seq<Sighting> {
    v.map_values(|p: (String, Option<String>)| (p.0@, opt_view(p.1)))
}

proof fn lemma_sightings_push(v: Seq<(String, Option<String>)>, p: (String, Option<String>))
    ensures
        sighting_views(v.push(p)) == sighting_views(v).push((p.0@, opt_view(p.1))),
{
    assert(sighting_views(v.push(p)) =~= sighting_views(v).push((p.0@, opt_view(p.1))));
}

fn same_country(a: &Option<String>, b: &Option<String>) -> (r: bool)
    ensures
        r == (opt_view(*a) == opt_view(*b)),
{
    match (a, b) {
        (Some(x), Some(y)) => same_text(x.as_str(), y.as_str()),
        (None, None) => true,
        _ => false,
    }
}

/// Whether `name` has been sighted in `country`.
fn has_sighting(seen: &Vec<(String, Option<String>)>, name: &str, country: &Option<String>) -> (r: bool)
    ensures
        r == sighting_views(seen@).contains((name@, opt_view(*country))),
{
    let mut i: usize = 0;
    while i < seen.len()
        invariant
            i <= seen@.len(),
            forall|k: int| 0 <= k < i ==> sighting_views(seen@)[k] != (name@, opt_view(*country)),
        decreases seen.len() - i,
    {
        let (n, c) = &seen[i];
        if same_text(n.as_str(), name) && same_country(c, country) {
            assert(sighting_views(seen@)[i as int] == (name@, opt_view(*country)));
            return true;
        }
        i = i + 1;
    }
    false
}

/// Whether `name` has been sighted at all.
fn has_name(seen: &Vec<(String, Option<String>)>, name: &str) -> (r: bool)
    ensures
        r == exists|c: Option<Seq<char>>| sighting_views(seen@).contains((name@, c)),
{
    let mut i: usize = 0;
    while i < seen.len()
        invariant
            i <= seen@.len(),
            forall|k: int| 0 <= k < i ==> sighting_views(seen@)[k].0 != name@,
        decreases seen.len() - i,
    {
        if same_text(seen[i].0.as_str(), name) {
            assert(sighting_views(seen@).contains((name@, sighting_views(seen@)[i as int].1)));
            return true;
        }
        i = i + 1;
    }
    proof {
        assert forall|c: Option<Seq<char>>| !sighting_views(seen@).contains((name@, c)) by {
            if sighting_views(seen@).contains((name@, c)) {
                let k = choose|k: int| 0 <= k < seen@.len() && sighting_views(seen@)[k] == (name@, c);
                assert(sighting_views(seen@)[k].0 == name@);
            }
        }
    }
    false
}

/// The same as [`countries`], per locality within a country.
pub fn localities(days: &[DayRow], from: &str, to: &str) -> (r: Vec<Highlight>)
    ensures
        views(r@) == locality_events(day_views(days@), from@, to@),
{
    let mut seen: Vec<(String, Option<String>)> = Vec::new();
    let mut highlights: Vec<Highlight> = Vec::new();
    let mut i: usize = 0;
    while i < days.len()
        invariant
            i <= days@.len(),
            sighting_views(seen@) == localities_seen(day_views(days@).take(i as int), to@),
            views(highlights@) == locality_events(day_views(days@).take(i as int), from@, to@),
        decreases days.len() - i,
    {
        let day = &days[i];
        let ghost prefix = day_views(days@).take(i as int);
        let ghost upto = day_views(days@).take(i + 1);
        assert(upto.drop_last() =~= prefix);
        assert(upto.last() == day@);
        if str_le(day.date.as_str(), to) {
            let country = day.only_country();
            let ghost seen_before = sighting_views(seen@);
            let ghost events_before = views(highlights@);
            let reporting = !str_less(day.date.as_str(), from);
            let mut k: usize = 0;
            while k < day.localities.len()
                invariant
                    k <= day.localities@.len(),
                    opt_view(country) == day@.only_country(),
                    sighting_views(seen@) == seen_before + sightings(
                        day@.localities.take(k as int),
                        opt_view(country),
                    ),
                    reporting ==> views(highlights@) == events_before + new_localities(
                        day@,
                        opt_view(country),
                        day@.localities.take(k as int),
                        seen_before,
                    ),
                    !reporting ==> views(highlights@) == events_before,
                decreases day.localities.len() - k,
            {
                let name = &day.localities[k];
                let ghost taken = day@.localities.take(k + 1);
                assert(taken.drop_last() =~= day@.localities.take(k as int));
                assert(taken.last() == name@);
                let first = match &country {
                    Some(_) => !has_sighting(&seen, name.as_str(), &country) && !has_sighting(
                        &seen,
                        name.as_str(),
                        &None,
                    ),
                    None => !has_name(&seen, name.as_str()),
                };
                assert(first == is_first_sighting(name@, opt_view(country), sighting_views(seen@)));
                let entry = (name.clone(), clone_opt(&country));
                proof {
                    lemma_sightings_push(seen@, entry);
                    assert(sightings(taken, opt_view(country)) == sightings(
                        day@.localities.take(k as int),
                        opt_view(country),
                    ).push((name@, opt_view(country))));
                }
                seen.push(entry);
                assert(sighting_views(seen@) =~= seen_before + sightings(taken, opt_view(country)));
                if first && reporting {
                    let h = Highlight {
                        kind: Kind::Locality,
                        date: day.date.clone(),
                        title: concat("First time in ", name.as_str()),
                        confirmed: day.confirmed,
                        detail: Detail::Locality { locality: name.clone(), country_code: clone_opt(&country) },
                    };
                    proof {
                        lemma_views_push(highlights@, h);
                    }
                    highlights.push(h);
                }
                k = k + 1;
            }
            assert(day@.localities.take(k as int) =~= day@.localities);
            proof {
                assert(seen_by(upto.last(), to@));
                if reporting {
                    assert(in_range(upto.last(), from@, to@));
                } else {
                    assert(!in_range(upto.last(), from@, to@));
                }
            }
        } else {
            assert(!seen_by(upto.last(), to@));
            assert(!in_range(upto.last(), from@, to@));
        }
        i = i + 1;
    }
    assert(day_views(days@).take(days@.len() as int) =~= day_views(days@));
    highlights
}


// ---------------------------------------------------------------------------------------------
// Trips, flights and distances
// ---------------------------------------------------------------------------------------------

/// A trip shorter than this many metres is a stroll to the tram stop, not the longest walk of
/// a month.
pub const MIN_LONGEST_M: u64 = 1000;

/// Arc types the taxi to the runway and a split leg of a few hundred metres as airplane too.
/// Those are not flights anyone would put in a feed; anything under this many metres is left
/// out.
pub const MIN_FLIGHT_M: u64 = 50_000;

/// A trip, reduced to what a highlight is derived from.
#[derive(Debug, Clone)]
pub struct TripRow {
    pub item_id: String,
    pub date: String,
    pub activity_type: ActivityType,
    pub distance_mm: Option<u64>,
    pub duration_seconds: i64,
    pub confirmed: bool,
}

pub struct TripView {
    pub item_id: Seq<char>,
    pub date: Seq<char>,
    pub activity_type: ActivityType,
    pub distance_mm: Option<u64>,
    pub duration_seconds: i64,
    pub confirmed: bool,
}

impl View for TripRow {
    type V = TripView;

    open spec fn view(&self) -> TripView {
        TripView {
            item_id: self.item_id@,
            date: self.date@,
            activity_type: self.activity_type,
            distance_mm: self.distance_mm,
            duration_seconds: self.duration_seconds,
            confirmed: self.confirmed,
        }
    }
}

/// A flight and the places either end of it, already resolved.
#[derive(Debug, Clone)]
pub struct FlightRow {
    pub trip: TripRow,
    pub from: Option<Endpoint>,
    pub to: Option<Endpoint>,
}

pub struct FlightView {
    pub trip: TripView,
    pub from: Option<EndpointView>,
    pub to: Option<EndpointView>,
}

impl View for FlightRow {
    type V = FlightView;

    open spec fn view(&self) -> FlightView {
        FlightView { trip: self.trip@, from: endpoint_view(self.from), to: endpoint_view(self.to) }
    }
}

/// `n / d`, rounded half up.
pub open spec fn rounded(n: nat, d: nat) -> nat
    recommends
        d > 0,
{
    (n + d / 2) / d
}

/// `n / d`, rounded to the nearest, and an exact half to the even neighbour: how a decimal is
/// cut to fewer places when it is written out.
pub open spec fn rounded_half_even(n: nat, d: nat) -> nat
    recommends
        d > 0,
{
    let q = n / d;
    let rest = n % d;
    if 2 * rest > d || (2 * rest == d && q % 2 == 1) {
        q + 1
    } else {
        q
    }
}

/// Distance for a title: whole metres below a kilometre, otherwise kilometres, with a decimal
/// only when it says something and below a hundred. "62 km", "3.4 km", "980 m". Whole metres
/// and whole kilometres round half up; tenths of a kilometre are written to one place, which
/// takes an exact half to the even tenth.
pub open spec fn distance_text(mm: nat) -> Seq<char> {
    if mm < 1_000_000 {
        decimal(rounded(mm, 1000)) + " m"@
    } else if mm >= 100_000_000 {
        decimal(rounded(mm, 1_000_000)) + " km"@
    } else {
        let tenths = rounded_half_even(mm, 100_000);
        if tenths % 10 == 0 {
            decimal(tenths / 10) + " km"@
        } else {
            decimal(tenths / 10) + "."@ + decimal(tenths % 10) + " km"@
        }
    }
}

fn rounded_div(n: u64, d: u64) -> (r: u64)
    requires
        d > 0,
        d % 2 == 0,
    ensures
        r == rounded(n as nat, d as nat),
{
    let q = n / d;
    let rest = n % d;
    assert(n == q * d + rest) by (nonlinear_arith)
        requires
            q == n / d,
            rest == n % d,
            d > 0,
    ;
    if rest >= d / 2 {
        assert((n + d / 2) as int / (d as int) == q + 1) by (nonlinear_arith)
            requires
                n == q * d + rest,
                d / 2 <= rest < d,
                d % 2 == 0,
                d > 0,
        ;
        assert(q < u64::MAX) by (nonlinear_arith)
            requires
                n == q * d + rest,
                d > 1,
                n <= u64::MAX,
        ;
        q + 1
    } else {
        assert((n + d / 2) as int / (d as int) == q) by (nonlinear_arith)
            requires
                n == q * d + rest,
                0 <= rest < d / 2,
                d > 0,
        ;
        q
    }
}

/// Tenths of a kilometre in a distance below a hundred kilometres, an exact half to the even
/// tenth.
fn tenths_of_km(mm: u64) -> (r: u64)
    requires
        mm < 100_000_000,
    ensures
        r == rounded_half_even(mm as nat, 100_000),
        r <= 1000,
{
    let q = mm / 100_000;
    let rest = mm % 100_000;
    if rest * 2 > 100_000 || (rest * 2 == 100_000 && q % 2 == 1) {
        q + 1
    } else {
        q
    }
}

/// Distance for a title, from millimetres.
pub fn format_distance(mm: u64) -> (r: String)
    ensures
        r@ == distance_text(mm as nat),
{
    if mm < 1_000_000 {
        let metres = decimal_u64(rounded_div(mm, 1000));
        return concat(metres.as_str(), " m");
    }
    if mm >= 100_000_000 {
        let km = decimal_u64(rounded_div(mm, 1_000_000));
        return concat(km.as_str(), " km");
    }
    let tenths = tenths_of_km(mm);
    let whole = decimal_u64(tenths / 10);
    if tenths % 10 == 0 {
        concat(whole.as_str(), " km")
    } else {
        let point = concat(whole.as_str(), ".");
        let fraction = decimal_u64(tenths % 10);
        let number = concat(point.as_str(), fraction.as_str());
        concat(number.as_str(), " km")
    }
}

/// Whether a flight is long enough to be reported; one without a distance is not.
pub open spec fn is_reported_flight(f: FlightView) -> bool {
    match f.trip.distance_mm {
        Some(d) => d >= MIN_FLIGHT_M * 1000,
        None => 0 >= MIN_FLIGHT_M * 1000,
    }
}

/// What a flight is called: by its ends when both have a name, else by its distance.
pub open spec fn flight_title(f: FlightView) -> Seq<char> {
    let from = match f.from {
        Some(e) => e.label(),
        None => None,
    };
    let to = match f.to {
        Some(e) => e.label(),
        None => None,
    };
    if from is Some && to is Some {
        "Flight from "@ + from->0 + " to "@ + to->0
    } else {
        match f.trip.distance_mm {
            Some(d) => "Flight of "@ + distance_text(d as nat),
            None => "Flight"@,
        }
    }
}

/// The event for a flight.
pub open spec fn flight_event(f: FlightView) -> HighlightView {
    HighlightView {
        kind: Kind::Flight,
        date: f.trip.date,
        title: flight_title(f),
        confirmed: f.trip.confirmed,
        detail: DetailView::Flight {
            item_id: f.trip.item_id,
            distance_mm: f.trip.distance_mm,
            duration_seconds: f.trip.duration_seconds,
            from: f.from,
            to: f.to,
        },
    }
}

fn end_label(e: &Option<Endpoint>) -> (r: Option<String>)
    ensures
        opt_view(r) == match endpoint_view(*e) {
            Some(x) => x.label(),
            None => None,
        },
{
    match e {
        Some(x) => x.label(),
        None => None,
    }
}

/// The event for one flight.
pub fn flight(row: &FlightRow) -> (r: Highlight)
    ensures
        r@ == flight_event(row@),
{
    let from = end_label(&row.from);
    let to = end_label(&row.to);
    let title = match (from, to) {
        (Some(a), Some(b)) => {
            let head = concat("Flight from ", a.as_str());
            let middle = concat(head.as_str(), " to ");
            concat(middle.as_str(), b.as_str())
        },
        // Without both ends the distance is the only thing that says anything about the flight.
        _ => match row.trip.distance_mm {
            Some(d) => {
                let distance = format_distance(d);
                concat("Flight of ", distance.as_str())
            },
            None => owned("Flight"),
        },
    };
    Highlight {
        kind: Kind::Flight,
        date: row.trip.date.clone(),
        title,
        confirmed: row.trip.confirmed,
        detail: Detail::Flight {
            item_id: row.trip.item_id.clone(),
            distance_mm: row.trip.distance_mm,
            duration_seconds: row.trip.duration_seconds,
            from: copy_endpoint(&row.from),
            to: copy_endpoint(&row.to),
        },
    }
}

// ---------------------------------------------------------------------------------------------
// The longest trip per activity type
// ---------------------------------------------------------------------------------------------

/// Whether a trip is a candidate for the longest of its type.
pub open spec fn qualifies(t: TripView, activity: ActivityType) -> bool {
    t.activity_type == activity && t.distance_mm is Some && t.distance_mm->0 >= MIN_LONGEST_M * 1000
}

/// The position of the longest qualifying trip; of equally long ones the earliest.
pub open spec fn longest_index(trips: Seq<TripView>, activity: ActivityType) -> Option<int>
    decreases trips.len(),
{
    if trips.len() == 0 {
        None
    } else {
        let best = longest_index(trips.drop_last(), activity);
        let t = trips.last();
        if qualifies(t, activity) && (best is None || t.distance_mm->0 > trips[best->0].distance_mm->0) {
            Some(trips.len() - 1)
        } else {
            best
        }
    }
}

proof fn lemma_longest_qualifies(trips: Seq<TripView>, activity: ActivityType)
    ensures
        match longest_index(trips, activity) {
            Some(i) => 0 <= i < trips.len() && qualifies(trips[i], activity),
            None => true,
        },
    decreases trips.len(),
{
    if trips.len() > 0 {
        lemma_longest_qualifies(trips.drop_last(), activity);
    }
}

/// The event for the longest trip of one type.
pub open spec fn longest_event(t: TripView, activity: ActivityType, noun: Seq<char>) -> HighlightView {
    HighlightView {
        kind: Kind::Longest,
        date: t.date,
        title: "Longest "@ + noun + ": "@ + distance_text(t.distance_mm->0 as nat),
        confirmed: t.confirmed,
        detail: DetailView::Longest {
            item_id: t.item_id,
            activity_type: activity.label(),
            distance_mm: t.distance_mm->0,
            duration_seconds: t.duration_seconds,
        },
    }
}

/// Nothing, or the event for the longest trip of one type.
pub open spec fn longest_of_type(trips: Seq<TripView>, activity: ActivityType, noun: Seq<char>) -> Seq<
    HighlightView,
> {
    match longest_index(trips, activity) {
        Some(i) => seq![longest_event(trips[i], activity, noun)],
        None => Seq::empty(),
    }
}

/// The longest walk, run, ride and hike, in that order, where there is one.
pub open spec fn longest_events(trips: Seq<TripView>) -> Seq<HighlightView> {
    longest_of_type(trips, ActivityType::Walking, "walk"@) + longest_of_type(
        trips,
        ActivityType::Running,
        "run"@,
    ) + longest_of_type(trips, ActivityType::Cycling, "ride"@) + longest_of_type(
        trips,
        ActivityType::Hiking,
        "hike"@,
    )
}

/// The trip rows of a list, as plain values.
pub open spec fn trip_views(trips: Seq<TripRow>) -> Seq<TripView> {
    trips.map_values(|t: TripRow| t@)
}

fn longest_of(trips: &[TripRow], activity: ActivityType, noun: &str) -> (r: Option<Highlight>)
    ensures
        match r {
            Some(h) => seq![h@] == longest_of_type(trip_views(trips@), activity, noun@),
            None => longest_of_type(trip_views(trips@), activity, noun@) == Seq::<HighlightView>::empty(),
        },
{
    let mut best: Option<usize> = None;
    let mut i: usize = 0;
    while i < trips.len()
        invariant
            i <= trips@.len(),
            match best {
                Some(b) => longest_index(trip_views(trips@).take(i as int), activity) == Some(b as int)
                    && b < i,
                None => longest_index(trip_views(trips@).take(i as int), activity) is None,
            },
        decreases trips.len() - i,
    {
        let ghost upto = trip_views(trips@).take(i + 1);
        assert(upto.drop_last() =~= trip_views(trips@).take(i as int));
        assert(upto.last() == trips@[i as int]@);
        let t = &trips[i];
        assert(upto.last() == t@);
        let ghost prev = longest_index(trip_views(trips@).take(i as int), activity);
        assert(longest_index(upto, activity) == if qualifies(t@, activity) && (prev is None
            || t@.distance_mm->0 > upto[prev->0].distance_mm->0) {
            Some(i as int)
        } else {
            prev
        });
        let candidate = match t.distance_mm {
            Some(d) => t.activity_type == activity && d >= MIN_LONGEST_M * 1000,
            None => false,
        };
        assert(candidate == qualifies(t@, activity));
        if candidate {
            // Ties go to the earlier trip: the rows arrive in time order.
            let better = match best {
                None => true,
                Some(b) => {
                    assert(upto[b as int] == trips@[b as int]@);
                    match (t.distance_mm, trips[b].distance_mm) {
                        (Some(d), Some(e)) => d > e,
                        _ => false,
                    }
                },
            };
            proof {
                if best is Some {
                    let b = best->0;
                    assert(prev == Some(b as int));
                    assert(qualifies(upto[b as int], activity)) by {
                        lemma_longest_qualifies(trip_views(trips@).take(i as int), activity);
                        assert(trip_views(trips@).take(i as int)[b as int] == upto[b as int]);
                    }
                }
            }
            if better {
                best = Some(i);
            }
        }
        i = i + 1;
    }
    assert(trip_views(trips@).take(trips@.len() as int) =~= trip_views(trips@));
    match best {
        Some(b) => {
            let t = &trips[b];
            proof {
                lemma_longest_qualifies(trip_views(trips@), activity);
                assert(trip_views(trips@)[b as int] == t@);
            }
            let distance = match t.distance_mm {
                Some(d) => d,
                None => 0,
            };
            let shown = format_distance(distance);
            let head = concat("Longest ", noun);
            let middle = concat(head.as_str(), ": ");
            Some(Highlight {
                kind: Kind::Longest,
                date: t.date.clone(),
                title: concat(middle.as_str(), shown.as_str()),
                confirmed: t.confirmed,
                detail: Detail::Longest {
                    item_id: t.item_id.clone(),
                    activity_type: activity.as_str(),
                    distance_mm: distance,
                    duration_seconds: t.duration_seconds,
                },
            })
        },
        None => None,
    }
}

/// The longest trip per activity type. Types with nothing worth reporting are simply absent.
pub fn longest(trips: &[TripRow]) -> (r: Vec<Highlight>)
    ensures
        views(r@) == longest_events(trip_views(trips@)),
{
    let mut highlights: Vec<Highlight> = Vec::new();
    let walk = longest_of(trips, ActivityType::Walking, "walk");
    let run = longest_of(trips, ActivityType::Running, "run");
    let ride = longest_of(trips, ActivityType::Cycling, "ride");
    let hike = longest_of(trips, ActivityType::Hiking, "hike");
    let ghost all = longest_events(trip_views(trips@));
    append_found(&mut highlights, walk);
    append_found(&mut highlights, run);
    append_found(&mut highlights, ride);
    append_found(&mut highlights, hike);
    assert(views(highlights@) =~= all);
    highlights
}

fn append_found(v: &mut Vec<Highlight>, h: Option<Highlight>)
    ensures
        views(final(v)@) == views(old(v)@) + match h {
            Some(x) => seq![x@],
            None => Seq::<HighlightView>::empty(),
        },
{
    match h {
        Some(x) => {
            proof {
                lemma_views_push(v@, x);
            }
            v.push(x);
            assert(views(v@) =~= views(old(v)@) + seq![x@]);
        },
        None => {
            assert(views(v@) =~= views(old(v)@) + Seq::<HighlightView>::empty());
        },
    }
}


// ---------------------------------------------------------------------------------------------
// A feed
// ---------------------------------------------------------------------------------------------

/// Everything the events of a range are derived from.
#[derive(Clone, Copy)]
pub struct Input<'a> {
    /// The inclusive range the events are reported for, as local `YYYY-MM-DD` days. Such dates
    /// sort chronologically as text, so they are compared as text throughout.
    pub from: &'a str,
    pub to: &'a str,
    /// Every day summary up to and including `to`, in date order. A first time is first over
    /// all of history, not just inside the range, so the earlier days have to be here too.
    pub days: &'a [DayRow],
    /// Flights that started inside the range.
    pub flights: &'a [FlightRow],
    /// Candidates for the longest trip per activity type, inside the range.
    pub trips: &'a [TripRow],
    pub kinds: &'a [Kind],
    /// Drop everything the user has not reviewed yet.
    pub confirmed_only: bool,
}

/// The events for the flights long enough to report, in order.
pub open spec fn flight_events(flights: Seq<FlightView>) -> Seq<HighlightView>
    decreases flights.len(),
{
    if flights.len() == 0 {
        Seq::empty()
    } else if is_reported_flight(flights.last()) {
        flight_events(flights.drop_last()).push(flight_event(flights.last()))
    } else {
        flight_events(flights.drop_last())
    }
}

/// The events the user has reviewed, in order.
pub open spec fn reviewed(events: Seq<HighlightView>) -> Seq<HighlightView>
    decreases events.len(),
{
    if events.len() == 0 {
        Seq::empty()
    } else if events.last().confirmed {
        reviewed(events.drop_last()).push(events.last())
    } else {
        reviewed(events.drop_last())
    }
}

/// Whether `a` comes strictly before `b` in a feed: by date, then by kind in the order of
/// [`Kind::ALL`], then by title.
pub open spec fn feed_before(a: HighlightView, b: HighlightView) -> bool {
    ||| seq_less(a.date, b.date)
    ||| a.date == b.date && a.kind.rank() < b.kind.rank()
    ||| a.date == b.date && a.kind.rank() == b.kind.rank() && seq_less(a.title, b.title)
}

/// `h` placed into `events` after every event that does not come strictly after it.
pub open spec fn placed(events: Seq<HighlightView>, h: HighlightView) -> Seq<HighlightView>
    decreases events.len(),
{
    if events.len() > 0 && feed_before(h, events.last()) {
        placed(events.drop_last(), h).push(events.last())
    } else {
        events.push(h)
    }
}

/// The events in feed order, equal ones keeping the order they came in: what a stable sort by
/// (date, kind, title) gives.
pub open spec fn feed_order(events: Seq<HighlightView>) -> Seq<HighlightView>
    decreases events.len(),
{
    if events.len() == 0 {
        Seq::empty()
    } else {
        placed(feed_order(events.drop_last()), events.last())
    }
}

/// The events a request asks for, before the review filter and the ordering.
pub open spec fn requested_events(
    days: Seq<DayView>,
    flights: Seq<FlightView>,
    trips: Seq<TripView>,
    kinds: Seq<Kind>,
    from: Seq<char>,
    to: Seq<char>,
) -> Seq<HighlightView> {
    (if kinds.contains(Kind::Country) {
        country_events(days, from, to)
    } else {
        Seq::empty()
    }) + (if kinds.contains(Kind::Locality) {
        locality_events(days, from, to)
    } else {
        Seq::empty()
    }) + (if kinds.contains(Kind::Flight) {
        flight_events(flights)
    } else {
        Seq::empty()
    }) + (if kinds.contains(Kind::Longest) {
        longest_events(trips)
    } else {
        Seq::empty()
    })
}

/// The feed a request gets.
pub open spec fn feed(input: Input) -> Seq<HighlightView> {
    let events = requested_events(
        day_views(input.days@),
        input.flights@.map_values(|f: FlightRow| f@),
        trip_views(input.trips@),
        input.kinds@,
        input.from@,
        input.to@,
    );
    feed_order(if input.confirmed_only { reviewed(events) } else { events })
}

fn wants(kinds: &[Kind], kind: Kind) -> (r: bool)
    ensures
        r == kinds@.contains(kind),
{
    let mut i: usize = 0;
    while i < kinds.len()
        invariant
            i <= kinds@.len(),
            forall|k: int| 0 <= k < i ==> kinds@[k] != kind,
        decreases kinds.len() - i,
    {
        if kinds[i] == kind {
            assert(kinds@[i as int] == kind);
            return true;
        }
        i = i + 1;
    }
    false
}

fn append_all(v: &mut Vec<Highlight>, more: Vec<Highlight>)
    ensures
        views(final(v)@) == views(old(v)@) + views(more@),
{
    let mut more = more;
    let ghost start = views(v@);
    let ghost all = views(more@);
    let mut rest: Vec<Highlight> = Vec::new();
    // Taken from the back and put back in order, so nothing is cloned.
    while more.len() > 0
        invariant
            views(more@) + views(rest@).reverse() == all,
            views(v@) == start,
        decreases more.len(),
    {
        let ghost before = more@;
        let h = more.pop().unwrap();
        proof {
            lemma_views_push(rest@, h);
            assert(before =~= more@.push(h));
            assert(views(more@.push(h)) =~= views(more@).push(h@));
        }
        rest.push(h);
        assert(views(more@) + views(rest@).reverse() =~= all);
    }
    while rest.len() > 0
        invariant
            views(v@) + views(rest@).reverse() == start + all,
        decreases rest.len(),
    {
        let ghost before = rest@;
        let h = rest.pop().unwrap();
        proof {
            lemma_views_push(v@, h);
            assert(before =~= rest@.push(h));
            assert(views(rest@.push(h)) =~= views(rest@).push(h@));
        }
        v.push(h);
        assert(views(v@) + views(rest@).reverse() =~= start + all);
    }
    assert(views(v@) =~= start + all);
}

fn flight_highlights(flights: &[FlightRow]) -> (r: Vec<Highlight>)
    ensures
        views(r@) == flight_events(flights@.map_values(|f: FlightRow| f@)),
{
    let mut highlights: Vec<Highlight> = Vec::new();
    let mut i: usize = 0;
    while i < flights.len()
        invariant
            i <= flights@.len(),
            views(highlights@) == flight_events(flights@.map_values(|f: FlightRow| f@).take(i as int)),
        decreases flights.len() - i,
    {
        let ghost upto = flights@.map_values(|f: FlightRow| f@).take(i + 1);
        assert(upto.drop_last() =~= flights@.map_values(|f: FlightRow| f@).take(i as int));
        assert(upto.last() == flights@[i as int]@);
        let row = &flights[i];
        let distance: u64 = match row.trip.distance_mm {
            Some(d) => d,
            None => 0,
        };
        if distance >= MIN_FLIGHT_M * 1000 {
            let h = flight(row);
            proof {
                lemma_views_push(highlights@, h);
            }
            highlights.push(h);
        }
        i = i + 1;
    }
    assert(flights@.map_values(|f: FlightRow| f@).take(flights@.len() as int) =~= flights@.map_values(
        |f: FlightRow| f@,
    ));
    highlights
}

fn keep_reviewed(events: Vec<Highlight>) -> (r: Vec<Highlight>)
    ensures
        views(r@) == reviewed(views(events@)),
{
    let mut kept: Vec<Highlight> = Vec::new();
    let mut rest: Vec<Highlight> = Vec::new();
    let mut events = events;
    let ghost all = views(events@);
    while events.len() > 0
        invariant
            views(events@) + views(rest@).reverse() == all,
        decreases events.len(),
    {
        let ghost before = events@;
        let h = events.pop().unwrap();
        proof {
            lemma_views_push(rest@, h);
            assert(before =~= events@.push(h));
            assert(views(events@.push(h)) =~= views(events@).push(h@));
        }
        rest.push(h);
        assert(views(events@) + views(rest@).reverse() =~= all);
    }
    assert(views(rest@).reverse() =~= all);
    let ghost n = rest@.len();
    while rest.len() > 0
        invariant
            n == all.len(),
            rest@.len() <= n,
            views(rest@).reverse() == all.skip(n - rest@.len()),
            views(kept@) == reviewed(all.take(n - rest@.len())),
        decreases rest.len(),
    {
        let ghost done = (n - rest@.len()) as int;
        let ghost before = rest@;
        let h = rest.pop().unwrap();
        proof {
            assert(before =~= rest@.push(h));
            assert(views(before) == views(rest@).push(h@)) by {
                assert(views(rest@.push(h)) =~= views(rest@).push(h@));
            }
            assert(all.skip(done)[0] == h@) by {
                assert(views(rest@).push(h@).reverse()[0] == h@);
            }
            assert(all.take(done + 1).drop_last() =~= all.take(done));
            assert(all.take(done + 1).last() == h@);
            assert(views(rest@).reverse() =~= all.skip(done + 1)) by {
                let tail = views(rest@).reverse();
                assert(views(before).reverse() == all.skip(done));
                assert(views(rest@).push(h@).reverse() =~= seq![h@] + tail);
                assert((seq![h@] + tail).skip(1) =~= tail);
                assert(all.skip(done).skip(1) =~= all.skip(done + 1));
            }
        }
        if h.confirmed {
            proof {
                lemma_views_push(kept@, h);
            }
            kept.push(h);
        }
    }
    assert(all.take(n as int) =~= all);
    kept
}

/// Whether `a` comes strictly before `b` in a feed.
fn comes_before(a: &Highlight, b: &Highlight) -> (r: bool)
    ensures
        r == feed_before(a@, b@),
{
    match order_str(a.date.as_str(), b.date.as_str()) {
        Order::Less => true,
        Order::Greater => false,
        Order::Equal => {
            let x = a.kind.order();
            let y = b.kind.order();
            if x != y {
                x < y
            } else {
                order_str(a.title.as_str(), b.title.as_str()) == Order::Less
            }
        },
    }
}

proof fn lemma_placed_at(events: Seq<HighlightView>, h: HighlightView, j: int)
    requires
        0 <= j <= events.len(),
        forall|k: int| j <= k < events.len() ==> feed_before(h, #[trigger] events[k]),
        j == 0 || !feed_before(h, events[j - 1]),
    ensures
        placed(events, h) == events.insert(j, h),
    decreases events.len() - j,
{
    if j == events.len() {
        assert(events.insert(j, h) =~= events.push(h));
    } else {
        let shorter = events.drop_last();
        lemma_placed_at(shorter, h, j);
        assert(events.insert(j, h) =~= shorter.insert(j, h).push(events.last()));
    }
}

/// Sorts events into feed order, stably.
fn sort_feed(events: Vec<Highlight>) -> (r: Vec<Highlight>)
    ensures
        views(r@) == feed_order(views(events@)),
{
    let mut sorted: Vec<Highlight> = Vec::new();
    let mut rest: Vec<Highlight> = Vec::new();
    let mut events = events;
    let ghost all = views(events@);
    while events.len() > 0
        invariant
            views(events@) + views(rest@).reverse() == all,
        decreases events.len(),
    {
        let ghost before = events@;
        let h = events.pop().unwrap();
        proof {
            lemma_views_push(rest@, h);
            assert(before =~= events@.push(h));
            assert(views(events@.push(h)) =~= views(events@).push(h@));
        }
        rest.push(h);
        assert(views(events@) + views(rest@).reverse() =~= all);
    }
    assert(views(rest@).reverse() =~= all);
    let ghost n = rest@.len();
    while rest.len() > 0
        invariant
            n == all.len(),
            rest@.len() <= n,
            views(rest@).reverse() == all.skip(n - rest@.len()),
            views(sorted@) == feed_order(all.take(n - rest@.len())),
        decreases rest.len(),
    {
        let ghost done = (n - rest@.len()) as int;
        let ghost before = rest@;
        let h = rest.pop().unwrap();
        proof {
            assert(before =~= rest@.push(h));
            assert(views(before) == views(rest@).push(h@)) by {
                assert(views(rest@.push(h)) =~= views(rest@).push(h@));
            }
            assert(all.skip(done)[0] == h@) by {
                assert(views(rest@).push(h@).reverse()[0] == h@);
            }
            assert(all.take(done + 1).drop_last() =~= all.take(done));
            assert(all.take(done + 1).last() == h@);
            assert(views(rest@).reverse() =~= all.skip(done + 1)) by {
                let tail = views(rest@).reverse();
                assert(views(before).reverse() == all.skip(done));
                assert(views(rest@).push(h@).reverse() =~= seq![h@] + tail);
                assert((seq![h@] + tail).skip(1) =~= tail);
                assert(all.skip(done).skip(1) =~= all.skip(done + 1));
            }
        }
        let mut j: usize = sorted.len();
        while j > 0 && comes_before(&h, &sorted[j - 1])
            invariant
                j <= sorted@.len(),
                forall|k: int| j <= k < sorted@.len() ==> feed_before(h@, #[trigger] views(sorted@)[k]),
            decreases j,
        {
            j = j - 1;
        }
        proof {
            lemma_placed_at(views(sorted@), h@, j as int);
            assert(views(sorted@.insert(j as int, h)) =~= views(sorted@).insert(j as int, h@));
        }
        sorted.insert(j, h);
    }
    assert(all.take(n as int) =~= all);
    sorted
}

/// The events of a range, in feed order: date first, then the kinds in their declared order,
/// then the title, so the same request always renders the same feed.
pub fn compute(input: &Input) -> (r: Vec<Highlight>)
    ensures
        views(r@) == feed(*input),
{
    let mut highlights: Vec<Highlight> = Vec::new();
    if wants(input.kinds, Kind::Country) {
        append_all(&mut highlights, countries(input.days, input.from, input.to));
    }
    if wants(input.kinds, Kind::Locality) {
        append_all(&mut highlights, localities(input.days, input.from, input.to));
    }
    if wants(input.kinds, Kind::Flight) {
        append_all(&mut highlights, flight_highlights(input.flights));
    }
    if wants(input.kinds, Kind::Longest) {
        append_all(&mut highlights, longest(input.trips));
    }
    let ghost requested = requested_events(
        day_views(input.days@),
        input.flights@.map_values(|f: FlightRow| f@),
        trip_views(input.trips@),
        input.kinds@,
        input.from@,
        input.to@,
    );
    assert(views(highlights@) =~= requested);
    if input.confirmed_only {
        highlights = keep_reviewed(highlights);
    }
    sort_feed(highlights)
}


// ---------------------------------------------------------------------------------------------
// What holds of every feed
// ---------------------------------------------------------------------------------------------

/// Two events that share a place in a feed: same date, same kind, same title.
pub open spec fn same_feed_place(a: HighlightView, b: HighlightView) -> bool {
    a.date == b.date && a.kind.rank() == b.kind.rank() && a.title == b.title
}

/// No event of the sequence comes strictly before one that precedes it.
pub open spec fn in_feed_order(s: Seq<HighlightView>) -> bool {
    forall|i: int, j: int| 0 <= i < j < s.len() ==> !feed_before(#[trigger] s[j], #[trigger] s[i])
}

proof fn lemma_feed_before_order(a: HighlightView, b: HighlightView, c: HighlightView)
    ensures
        !feed_before(a, a),
        feed_before(a, b) && feed_before(b, c) ==> feed_before(a, c),
        feed_before(a, b) || feed_before(b, a) || same_feed_place(a, b),
        feed_before(a, b) ==> !feed_before(b, a),
        feed_before(a, b) && same_feed_place(b, c) ==> feed_before(a, c),
{
    lemma_seq_less_irreflexive(a.date);
    lemma_seq_less_irreflexive(a.title);
    lemma_seq_less_total(a.date, b.date);
    lemma_seq_less_total(a.title, b.title);
    if seq_less(a.date, b.date) {
        lemma_seq_less_asymmetric(a.date, b.date);
    }
    if seq_less(b.date, a.date) {
        lemma_seq_less_asymmetric(b.date, a.date);
    }
    if seq_less(a.title, b.title) {
        lemma_seq_less_asymmetric(a.title, b.title);
    }
    if seq_less(a.date, b.date) && seq_less(b.date, c.date) {
        lemma_seq_less_transitive(a.date, b.date, c.date);
    }
    if seq_less(a.title, b.title) && seq_less(b.title, c.title) {
        lemma_seq_less_transitive(a.title, b.title, c.title);
    }
}

proof fn lemma_placed(events: Seq<HighlightView>, h: HighlightView)
    requires
        in_feed_order(events),
    ensures
        in_feed_order(placed(events, h)),
        placed(events, h).to_multiset() == events.to_multiset().insert(h),
    decreases events.len(),
{
    broadcast use vstd::seq_lib::group_to_multiset_ensures;

    if events.len() > 0 && feed_before(h, events.last()) {
        let shorter = events.drop_last();
        let last = events.last();
        assert(in_feed_order(shorter)) by {
            assert forall|i: int, j: int| 0 <= i < j < shorter.len() implies !feed_before(
                #[trigger] shorter[j],
                #[trigger] shorter[i],
            ) by {
                assert(shorter[i] == events[i] && shorter[j] == events[j]);
            }
        }
        lemma_placed(shorter, h);
        let p = placed(shorter, h);
        // Everything in `p` is `h` or an element of `shorter`, none of which comes after `last`.
        assert forall|i: int| 0 <= i < p.len() implies !feed_before(last, #[trigger] p[i]) by {
            assert(p.to_multiset().count(p[i]) > 0);
            assert(shorter.to_multiset().insert(h).count(p[i]) > 0);
            if p[i] == h {
                lemma_feed_before_order(h, last, h);
            } else {
                assert(shorter.to_multiset().count(p[i]) > 0);
                assert(shorter.contains(p[i]));
                let k = choose|k: int| 0 <= k < shorter.len() && shorter[k] == p[i];
                assert(events[k] == p[i]);
                assert(!feed_before(events[events.len() - 1], events[k]));
            }
        }
        assert forall|i: int, j: int| 0 <= i < j < p.len() + 1 implies !feed_before(
            #[trigger] p.push(last)[j],
            #[trigger] p.push(last)[i],
        ) by {
            if j == p.len() {
                assert(p.push(last)[j] == last);
            } else {
                assert(p.push(last)[j] == p[j] && p.push(last)[i] == p[i]);
            }
        }
        assert(events =~= shorter.push(last));
    } else {
        assert forall|i: int, j: int| 0 <= i < j < events.len() + 1 implies !feed_before(
            #[trigger] events.push(h)[j],
            #[trigger] events.push(h)[i],
        ) by {
            if j == events.len() {
                let e = events[i];
                let last = events.last();
                lemma_feed_before_order(h, e, last);
                lemma_feed_before_order(e, last, h);
                lemma_feed_before_order(h, last, e);
                if i < events.len() - 1 {
                    assert(!feed_before(events[events.len() - 1], events[i]));
                }
                if feed_before(h, e) {
                    if same_feed_place(e, last) {
                        assert(feed_before(h, last));
                    } else if feed_before(e, last) {
                        assert(feed_before(h, last));
                    } else {
                        assert(i == events.len() - 1);
                    }
                }
            } else {
                assert(events.push(h)[j] == events[j] && events.push(h)[i] == events[i]);
            }
        }
    }
}

/// A feed is in feed order, and holds exactly the events it was made of.
pub proof fn feed_order_is_sorted_permutation(events: Seq<HighlightView>)
    ensures
        in_feed_order(feed_order(events)),
        feed_order(events).to_multiset() == events.to_multiset(),
    decreases events.len(),
{
    broadcast use vstd::seq_lib::group_to_multiset_ensures;

    if events.len() > 0 {
        feed_order_is_sorted_permutation(events.drop_last());
        lemma_placed(feed_order(events.drop_last()), events.last());
        assert(events =~= events.drop_last().push(events.last()));
    }
}

/// Reviewing keeps exactly the confirmed events.
pub proof fn reviewed_keeps_the_confirmed(events: Seq<HighlightView>)
    ensures
        forall|h: HighlightView| #[trigger] reviewed(events).contains(h) <==> events.contains(h) && h.confirmed,
    decreases events.len(),
{
    if events.len() == 0 {
        assert(reviewed(events) =~= Seq::<HighlightView>::empty());
        assert forall|h: HighlightView| !events.contains(h) && !reviewed(events).contains(h) by {}
    } else {
        reviewed_keeps_the_confirmed(events.drop_last());
        assert(events =~= events.drop_last().push(events.last()));
        assert forall|h: HighlightView| #[trigger] reviewed(events).contains(h) <==> events.contains(h)
            && h.confirmed by {
            assert(reviewed(events.drop_last()).contains(h) <==> events.drop_last().contains(h)
                && h.confirmed);
            lemma_contains_push(events.drop_last(), events.last(), h);
            if events.last().confirmed {
                lemma_contains_push(reviewed(events.drop_last()), events.last(), h);
            }
        }
    }
}

/// Asking for reviewed events only gives a feed in which every event is confirmed.
pub proof fn a_reviewed_feed_is_confirmed(input: Input)
    requires
        input.confirmed_only,
    ensures
        forall|i: int| 0 <= i < feed(input).len() ==> (#[trigger] feed(input)[i]).confirmed,
{
    broadcast use vstd::seq_lib::group_to_multiset_ensures;

    let events = requested_events(
        day_views(input.days@),
        input.flights@.map_values(|f: FlightRow| f@),
        trip_views(input.trips@),
        input.kinds@,
        input.from@,
        input.to@,
    );
    let kept = reviewed(events);
    feed_order_is_sorted_permutation(kept);
    reviewed_keeps_the_confirmed(events);
    assert forall|i: int| 0 <= i < feed(input).len() implies (#[trigger] feed(input)[i]).confirmed by {
        let h = feed(input)[i];
        assert(feed(input).to_multiset().count(h) > 0);
        assert(kept.to_multiset().count(h) > 0);
        assert(kept.contains(h));
    }
}

/// Whether every event of a sequence is of the given kind.
pub open spec fn all_of_kind(events: Seq<HighlightView>, kind: Kind) -> bool {
    forall|i: int| 0 <= i < events.len() ==> (#[trigger] events[i]).kind == kind
}

proof fn lemma_push_of_kind(events: Seq<HighlightView>, h: HighlightView, kind: Kind)
    requires
        all_of_kind(events, kind),
        h.kind == kind,
    ensures
        all_of_kind(events.push(h), kind),
{
    assert forall|i: int| 0 <= i < events.push(h).len() implies (#[trigger] events.push(h)[i]).kind == kind by {
        if i < events.len() {
            assert(events.push(h)[i] == events[i]);
        }
    }
}

proof fn lemma_add_of_kind(a: Seq<HighlightView>, b: Seq<HighlightView>, kind: Kind)
    requires
        all_of_kind(a, kind),
        all_of_kind(b, kind),
    ensures
        all_of_kind(a + b, kind),
{
    assert forall|i: int| 0 <= i < (a + b).len() implies (#[trigger] (a + b)[i]).kind == kind by {
        if i < a.len() {
            assert((a + b)[i] == a[i]);
        } else {
            assert((a + b)[i] == b[i - a.len()]);
        }
    }
}

proof fn lemma_country_kinds(days: Seq<DayView>, from: Seq<char>, to: Seq<char>)
    ensures
        all_of_kind(country_events(days, from, to), Kind::Country),
    decreases days.len(),
{
    if days.len() > 0 {
        let d = days.last();
        let earlier = days.drop_last();
        lemma_country_kinds(earlier, from, to);
        if in_range(d, from, to) {
            lemma_new_country_kinds(d, codes_of(d.country_codes), codes_seen(earlier, to));
            lemma_add_of_kind(
                country_events(earlier, from, to),
                new_countries(d, codes_of(d.country_codes), codes_seen(earlier, to)),
                Kind::Country,
            );
        }
    }
}

proof fn lemma_new_country_kinds(d: DayView, codes: Seq<Seq<char>>, seen: Seq<Seq<char>>)
    ensures
        all_of_kind(new_countries(d, codes, seen), Kind::Country),
    decreases codes.len(),
{
    if codes.len() > 0 {
        lemma_new_country_kinds(d, codes.drop_last(), seen);
        if !seen.contains(codes.last()) {
            lemma_push_of_kind(new_countries(d, codes.drop_last(), seen), country_event(d, codes.last()), Kind::Country);
        }
    }
}

proof fn lemma_new_locality_kinds(
    d: DayView,
    country: Option<Seq<char>>,
    locs: Seq<Seq<char>>,
    earlier: Seq<Sighting>,
)
    ensures
        all_of_kind(new_localities(d, country, locs, earlier), Kind::Locality),
    decreases locs.len(),
{
    if locs.len() > 0 {
        let before = locs.drop_last();
        lemma_new_locality_kinds(d, country, before, earlier);
        if is_first_sighting(locs.last(), country, earlier + sightings(before, country)) {
            lemma_push_of_kind(
                new_localities(d, country, before, earlier),
                locality_event(d, locs.last(), country),
                Kind::Locality,
            );
        }
    }
}

proof fn lemma_locality_kinds(days: Seq<DayView>, from: Seq<char>, to: Seq<char>)
    ensures
        all_of_kind(locality_events(days, from, to), Kind::Locality),
    decreases days.len(),
{
    if days.len() > 0 {
        let d = days.last();
        let earlier = days.drop_last();
        lemma_locality_kinds(earlier, from, to);
        if in_range(d, from, to) {
            lemma_new_locality_kinds(d, d.only_country(), d.localities, localities_seen(earlier, to));
            lemma_add_of_kind(
                locality_events(earlier, from, to),
                new_localities(d, d.only_country(), d.localities, localities_seen(earlier, to)),
                Kind::Locality,
            );
        }
    }
}

proof fn lemma_flight_kinds(flights: Seq<FlightView>)
    ensures
        all_of_kind(flight_events(flights), Kind::Flight),
    decreases flights.len(),
{
    if flights.len() > 0 {
        lemma_flight_kinds(flights.drop_last());
        if is_reported_flight(flights.last()) {
            lemma_push_of_kind(flight_events(flights.drop_last()), flight_event(flights.last()), Kind::Flight);
        }
    }
}

proof fn lemma_longest_kinds(trips: Seq<TripView>)
    ensures
        all_of_kind(longest_events(trips), Kind::Longest),
{
    let w = longest_of_type(trips, ActivityType::Walking, "walk"@);
    let r = longest_of_type(trips, ActivityType::Running, "run"@);
    let c = longest_of_type(trips, ActivityType::Cycling, "ride"@);
    let h = longest_of_type(trips, ActivityType::Hiking, "hike"@);
    assert(all_of_kind(w, Kind::Longest));
    assert(all_of_kind(r, Kind::Longest));
    assert(all_of_kind(c, Kind::Longest));
    assert(all_of_kind(h, Kind::Longest));
    lemma_add_of_kind(w, r, Kind::Longest);
    lemma_add_of_kind(w + r, c, Kind::Longest);
    lemma_add_of_kind(w + r + c, h, Kind::Longest);
}

/// Every event of a feed is of a kind the request asked for.
pub proof fn a_feed_holds_only_requested_kinds(input: Input)
    ensures
        forall|i: int| 0 <= i < feed(input).len() ==> input.kinds@.contains(#[trigger] feed(input)[i].kind),
{
    broadcast use vstd::seq_lib::group_to_multiset_ensures;

    let days = day_views(input.days@);
    let flights = input.flights@.map_values(|f: FlightRow| f@);
    let trips = trip_views(input.trips@);
    let kinds = input.kinds@;
    let events = requested_events(days, flights, trips, kinds, input.from@, input.to@);
    let a = if kinds.contains(Kind::Country) { country_events(days, input.from@, input.to@) } else { Seq::empty() };
    let b = if kinds.contains(Kind::Locality) { locality_events(days, input.from@, input.to@) } else { Seq::empty() };
    let c = if kinds.contains(Kind::Flight) { flight_events(flights) } else { Seq::empty() };
    let d = if kinds.contains(Kind::Longest) { longest_events(trips) } else { Seq::empty() };
    lemma_country_kinds(days, input.from@, input.to@);
    lemma_locality_kinds(days, input.from@, input.to@);
    lemma_flight_kinds(flights);
    lemma_longest_kinds(trips);
    assert(events == a + b + c + d);
    assert forall|i: int| 0 <= i < events.len() implies kinds.contains(#[trigger] events[i].kind) by {
        if i < a.len() {
            assert(events[i] == a[i]);
        } else if i < a.len() + b.len() {
            assert(events[i] == b[i - a.len()]);
        } else if i < a.len() + b.len() + c.len() {
            assert(events[i] == c[i - a.len() - b.len()]);
        } else {
            assert(events[i] == d[i - a.len() - b.len() - c.len()]);
        }
    }
    let kept = if input.confirmed_only { reviewed(events) } else { events };
    reviewed_keeps_the_confirmed(events);
    feed_order_is_sorted_permutation(kept);
    assert forall|i: int| 0 <= i < feed(input).len() implies kinds.contains(#[trigger] feed(input)[i].kind) by {
        let h = feed(input)[i];
        assert(feed(input).to_multiset().count(h) > 0);
        assert(kept.to_multiset().count(h) > 0);
        assert(kept.contains(h));
        assert(events.contains(h));
        let j = choose|j: int| 0 <= j < events.len() && events[j] == h;
        assert(kinds.contains(events[j].kind));
    }
}

proof fn lemma_flight_events_come_from_long_flights(flights: Seq<FlightView>)
    ensures
        forall|i: int| 0 <= i < flight_events(flights).len() ==> exists|j: int|
            0 <= j < flights.len() && is_reported_flight(#[trigger] flights[j])
                && #[trigger] flight_events(flights)[i] == flight_event(flights[j]),
    decreases flights.len(),
{
    if flights.len() > 0 {
        let init = flights.drop_last();
        lemma_flight_events_come_from_long_flights(init);
        let e = flight_events(flights);
        assert forall|i: int| 0 <= i < e.len() implies exists|j: int|
            0 <= j < flights.len() && is_reported_flight(#[trigger] flights[j]) && #[trigger] e[i] == flight_event(flights[j]) by {
            if i < flight_events(init).len() {
                assert(e[i] == flight_events(init)[i]);
                let j = choose|j: int|
                    0 <= j < init.len() && is_reported_flight(#[trigger] init[j]) && flight_events(init)[i]
                        == flight_event(init[j]);
                assert(flights[j] == init[j]);
            } else {
                assert(is_reported_flight(flights[flights.len() - 1]));
            }
        }
    }
}

/// A flight's event keeps its direction: the detail's `from` is the row's departure end and its
/// `to` the arrival end, each exactly as given, and a title that names both ends names the
/// departure first, as the detail has them.
pub proof fn a_flight_keeps_its_direction(f: FlightView)
    ensures
        flight_event(f).detail matches DetailView::Flight { from, to, item_id, distance_mm, .. } && from == f.from
            && to == f.to && item_id == f.trip.item_id && distance_mm == f.trip.distance_mm,
        flight_event(f).kind == Kind::Flight,
        flight_event(f).date == f.trip.date,
        (f.from matches Some(a) && f.to matches Some(b) && a.label() is Some && b.label() is Some)
            ==> flight_event(f).title == "Flight from "@ + f.from->0.label()->0 + " to "@
            + f.to->0.label()->0,
{
}

/// Every flight in a feed is the event of a flight of at least [`MIN_FLIGHT_M`] metres.
pub proof fn every_flight_in_a_feed_is_long(input: Input)
    ensures
        forall|i: int| 0 <= i < feed(input).len() && (#[trigger] feed(input)[i]).kind == Kind::Flight
            ==> exists|j: int|
            0 <= j < input.flights@.len() && is_reported_flight(#[trigger] input.flights@[j]@)
                && feed(input)[i] == flight_event(input.flights@[j]@),
{
    broadcast use vstd::seq_lib::group_to_multiset_ensures;

    let days = day_views(input.days@);
    let flights = input.flights@.map_values(|f: FlightRow| f@);
    let trips = trip_views(input.trips@);
    let kinds = input.kinds@;
    let events = requested_events(days, flights, trips, kinds, input.from@, input.to@);
    let a = if kinds.contains(Kind::Country) { country_events(days, input.from@, input.to@) } else { Seq::empty() };
    let b = if kinds.contains(Kind::Locality) { locality_events(days, input.from@, input.to@) } else { Seq::empty() };
    let c = if kinds.contains(Kind::Flight) { flight_events(flights) } else { Seq::empty() };
    let d = if kinds.contains(Kind::Longest) { longest_events(trips) } else { Seq::empty() };
    lemma_country_kinds(days, input.from@, input.to@);
    lemma_locality_kinds(days, input.from@, input.to@);
    lemma_longest_kinds(trips);
    lemma_flight_events_come_from_long_flights(flights);
    assert(events == a + b + c + d);
    assert forall|i: int| 0 <= i < events.len() && (#[trigger] events[i]).kind == Kind::Flight implies exists|j: int|
        0 <= j < flights.len() && is_reported_flight(#[trigger] flights[j]) && events[i] == flight_event(flights[j]) by {
        if i < a.len() {
            assert(events[i] == a[i]);
        } else if i < a.len() + b.len() {
            assert(events[i] == b[i - a.len()]);
        } else if i < a.len() + b.len() + c.len() {
            assert(events[i] == c[i - a.len() - b.len()]);
        } else {
            assert(events[i] == d[i - a.len() - b.len() - c.len()]);
        }
    }
    let kept = if input.confirmed_only { reviewed(events) } else { events };
    reviewed_keeps_the_confirmed(events);
    feed_order_is_sorted_permutation(kept);
    assert forall|i: int| 0 <= i < feed(input).len() && (#[trigger] feed(input)[i]).kind == Kind::Flight
        implies exists|j: int|
        0 <= j < input.flights@.len() && is_reported_flight(#[trigger] input.flights@[j]@)
            && feed(input)[i] == flight_event(input.flights@[j]@) by {
        let h = feed(input)[i];
        assert(feed(input).to_multiset().count(h) > 0);
        assert(kept.to_multiset().count(h) > 0);
        assert(kept.contains(h));
        assert(events.contains(h));
        let m = choose|m: int| 0 <= m < events.len() && events[m] == h;
        assert(events[m].kind == Kind::Flight);
        let j = choose|j: int| 0 <= j < flights.len() && is_reported_flight(#[trigger] flights[j]) && events[m] == flight_event(flights[j]);
        assert(flights[j] == input.flights@[j]@);
    }
}

proof fn lemma_reviewed_unconfirmed_placed(s: Seq<HighlightView>, h: HighlightView)
    requires
        !h.confirmed,
    ensures
        reviewed(placed(s, h)) == reviewed(s),
    decreases s.len(),
{
    if s.len() > 0 && feed_before(h, s.last()) {
        lemma_reviewed_unconfirmed_placed(s.drop_last(), h);
        assert(placed(s, h).drop_last() =~= placed(s.drop_last(), h));
        assert(s =~= s.drop_last().push(s.last()));
    } else {
        assert(s.push(h).drop_last() =~= s);
    }
}

proof fn lemma_reviewed_confirmed_placed(s: Seq<HighlightView>, h: HighlightView)
    requires
        h.confirmed,
        in_feed_order(s),
    ensures
        reviewed(placed(s, h)) == placed(reviewed(s), h),
    decreases s.len(),
{
    if s.len() > 0 && feed_before(h, s.last()) {
        let init = s.drop_last();
        assert(in_feed_order(init)) by {
            assert forall|i: int, j: int| 0 <= i < j < init.len() implies !feed_before(
                #[trigger] init[j],
                #[trigger] init[i],
            ) by {
                assert(init[j] == s[j] && init[i] == s[i]);
            }
        }
        lemma_reviewed_confirmed_placed(init, h);
        let last = s.last();
        let p = placed(s, h);
        assert(p == placed(init, h).push(last));
        assert(p.drop_last() =~= placed(init, h));
        assert(p.last() == last);
        if last.confirmed {
            assert(reviewed(p) == reviewed(placed(init, h)).push(last));
            assert(reviewed(s) == reviewed(init).push(last));
            let q = reviewed(init).push(last);
            assert(q.drop_last() =~= reviewed(init));
            assert(q.last() == last);
            assert(placed(q, h) == placed(reviewed(init), h).push(last));
        } else {
            assert(reviewed(p) == reviewed(placed(init, h)));
            assert(reviewed(s) == reviewed(init));
        }
    } else {
        assert(s.push(h).drop_last() =~= s);
        assert(placed(s, h) == s.push(h));
        assert(reviewed(s.push(h)) == reviewed(s).push(h));
        let r = reviewed(s);
        if r.len() > 0 {
            reviewed_keeps_the_confirmed(s);
            assert(r.contains(r.last()));
            let j = choose|j: int| 0 <= j < s.len() && s[j] == r.last();
            let last = s[s.len() - 1];
            if feed_before(h, r.last()) {
                if j < s.len() - 1 {
                    assert(!feed_before(s[s.len() - 1], s[j]));
                }
                lemma_feed_before_order(r.last(), last, h);
                lemma_feed_before_order(h, r.last(), last);
                lemma_feed_before_order(last, r.last(), h);
                assert(feed_before(h, last));
            }
            assert(!feed_before(h, r.last()));
        }
        assert(placed(r, h) == r.push(h));
    }
}

proof fn lemma_review_commutes_with_order(events: Seq<HighlightView>)
    ensures
        feed_order(reviewed(events)) == reviewed(feed_order(events)),
    decreases events.len(),
{
    if events.len() > 0 {
        let init = events.drop_last();
        let h = events.last();
        lemma_review_commutes_with_order(init);
        feed_order_is_sorted_permutation(init);
        if h.confirmed {
            assert(reviewed(events).drop_last() =~= reviewed(init));
            lemma_reviewed_confirmed_placed(feed_order(init), h);
        } else {
            lemma_reviewed_unconfirmed_placed(feed_order(init), h);
        }
    } else {
        assert(reviewed(events) =~= Seq::<HighlightView>::empty());
    }
}

/// A feed of reviewed events only is the full feed with the unreviewed events taken out, in the
/// same order.
pub proof fn a_reviewed_feed_is_the_full_feed_filtered(input: Input, all: Input)
    requires
        input.confirmed_only,
        !all.confirmed_only,
        all.from == input.from,
        all.to == input.to,
        all.days == input.days,
        all.flights == input.flights,
        all.trips == input.trips,
        all.kinds == input.kinds,
    ensures
        feed(input) == reviewed(feed(all)),
{
    let events = requested_events(
        day_views(input.days@),
        input.flights@.map_values(|f: FlightRow| f@),
        trip_views(input.trips@),
        input.kinds@,
        input.from@,
        input.to@,
    );
    lemma_review_commutes_with_order(events);
}

/// The longest trip of a type qualifies, no qualifying trip is longer, and every qualifying trip
/// before it is shorter: ties go to the earlier trip. Without a qualifying trip there is none.
pub proof fn longest_is_the_first_of_the_longest(trips: Seq<TripView>, activity: ActivityType)
    ensures
        match longest_index(trips, activity) {
            Some(i) => {
                &&& 0 <= i < trips.len()
                &&& qualifies(trips[i], activity)
                &&& forall|j: int| 0 <= j < trips.len() && qualifies(#[trigger] trips[j], activity)
                    ==> trips[j].distance_mm->0 <= trips[i].distance_mm->0
                &&& forall|j: int| 0 <= j < i && qualifies(#[trigger] trips[j], activity)
                    ==> trips[j].distance_mm->0 < trips[i].distance_mm->0
            },
            None => forall|j: int| 0 <= j < trips.len() ==> !qualifies(#[trigger] trips[j], activity),
        },
    decreases trips.len(),
{
    if trips.len() > 0 {
        let shorter = trips.drop_last();
        longest_is_the_first_of_the_longest(shorter, activity);
        assert forall|j: int| 0 <= j < shorter.len() implies shorter[j] == trips[j] by {}
    }
}

/// The country a first-time event is about.
pub open spec fn event_code(e: HighlightView) -> Seq<char> {
    match e.detail {
        DetailView::Country { country_code, .. } => country_code,
        _ => Seq::empty(),
    }
}

proof fn lemma_new_countries(d: DayView, codes: Seq<Seq<char>>, seen: Seq<Seq<char>>)
    requires
        codes.no_duplicates(),
    ensures
        forall|i: int|
            0 <= i < new_countries(d, codes, seen).len() ==> codes.contains(
                event_code(#[trigger] new_countries(d, codes, seen)[i]),
            ) && !seen.contains(event_code(new_countries(d, codes, seen)[i])),
        forall|i: int, j: int|
            0 <= i < j < new_countries(d, codes, seen).len() ==> event_code(
                #[trigger] new_countries(d, codes, seen)[i],
            ) != event_code(#[trigger] new_countries(d, codes, seen)[j]),
    decreases codes.len(),
{
    if codes.len() > 0 {
        let shorter = codes.drop_last();
        let last = codes.last();
        assert(shorter.no_duplicates()) by {
            assert forall|i: int, j: int| 0 <= i < shorter.len() && 0 <= j < shorter.len() && i != j
                implies shorter[i] != shorter[j] by {
                assert(shorter[i] == codes[i] && shorter[j] == codes[j]);
            }
        }
        lemma_new_countries(d, shorter, seen);
        let before = new_countries(d, shorter, seen);
        assert(!shorter.contains(last)) by {
            if shorter.contains(last) {
                let k = choose|k: int| 0 <= k < shorter.len() && shorter[k] == last;
                assert(codes[k] == codes[codes.len() - 1]);
            }
        }
        assert forall|i: int| 0 <= i < before.len() implies codes.contains(event_code(#[trigger] before[i])) by {
            let c = event_code(before[i]);
            let k = choose|k: int| 0 <= k < shorter.len() && shorter[k] == c;
            assert(codes[k] == c);
        }
        if !seen.contains(last) {
            let n = before.push(country_event(d, last));
            assert(event_code(country_event(d, last)) == last);
            assert(codes[codes.len() - 1] == last);
            assert forall|i: int, j: int| 0 <= i < j < n.len() implies event_code(#[trigger] n[i])
                != event_code(#[trigger] n[j]) by {
                if j == before.len() {
                    assert(n[i] == before[i]);
                    assert(shorter.contains(event_code(before[i])));
                } else {
                    assert(n[i] == before[i] && n[j] == before[j]);
                }
            }
            assert forall|i: int| 0 <= i < n.len() implies codes.contains(event_code(#[trigger] n[i]))
                && !seen.contains(event_code(n[i])) by {
                if i < before.len() {
                    assert(n[i] == before[i]);
                }
            }
        }
    }
}

proof fn lemma_events_are_seen(days: Seq<DayView>, from: Seq<char>, to: Seq<char>)
    ensures
        forall|i: int|
            0 <= i < country_events(days, from, to).len() ==> codes_seen(days, to).contains(
                event_code(#[trigger] country_events(days, from, to)[i]),
            ),
    decreases days.len(),
{
    if days.len() > 0 {
        let d = days.last();
        let earlier = days.drop_last();
        lemma_events_are_seen(earlier, from, to);
        let before = country_events(earlier, from, to);
        let seen = codes_seen(earlier, to);
        let events = country_events(days, from, to);
        let codes = codes_of(d.country_codes);
        lemma_codes_distinct(d.country_codes);
        assert forall|i: int| 0 <= i < events.len() implies codes_seen(days, to).contains(
            event_code(#[trigger] events[i]),
        ) by {
            let c = event_code(events[i]);
            if i < before.len() {
                assert(events[i] == before[i]);
                let k = choose|k: int| 0 <= k < seen.len() && seen[k] == c;
                if seen_by(d, to) {
                    assert((seen + codes)[k] == c);
                }
            } else {
                lemma_new_countries(d, codes, seen);
                let n = new_countries(d, codes, seen);
                assert(events[i] == n[i - before.len()]);
                let k = choose|k: int| 0 <= k < codes.len() && codes[k] == c;
                assert((seen + codes)[seen.len() + k] == c);
            }
        }
    }
}

/// A country is reported only on the day it was first seen: no two first-time events of a
/// range are about the same country.
pub proof fn a_country_is_first_seen_once(days: Seq<DayView>, from: Seq<char>, to: Seq<char>)
    ensures
        forall|i: int, j: int|
            0 <= i < j < country_events(days, from, to).len() ==> event_code(
                #[trigger] country_events(days, from, to)[i],
            ) != event_code(#[trigger] country_events(days, from, to)[j]),
    decreases days.len(),
{
    if days.len() > 0 {
        let d = days.last();
        let earlier = days.drop_last();
        a_country_is_first_seen_once(earlier, from, to);
        if in_range(d, from, to) {
            let before = country_events(earlier, from, to);
            let seen = codes_seen(earlier, to);
            let codes = codes_of(d.country_codes);
            lemma_codes_distinct(d.country_codes);
            lemma_new_countries(d, codes, seen);
            lemma_events_are_seen(earlier, from, to);
            let n = new_countries(d, codes, seen);
            let events = before + n;
            assert forall|i: int, j: int| 0 <= i < j < events.len() implies event_code(#[trigger] events[i])
                != event_code(#[trigger] events[j]) by {
                if j < before.len() {
                    assert(events[i] == before[i] && events[j] == before[j]);
                } else if i >= before.len() {
                    assert(events[i] == n[i - before.len()] && events[j] == n[j - before.len()]);
                } else {
                    assert(events[i] == before[i] && events[j] == n[j - before.len()]);
                    assert(seen.contains(event_code(before[i])));
                }
            }
        }
    }
}

} // verus!
