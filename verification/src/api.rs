//! What the HTTP API decides before and after it touches the database: reading query
//! parameters, the shape of the queries, and escaping for the GPX rendering.
//!
//! The database stores unix milliseconds; the API only ever speaks RFC 3339. Dates in paths and
//! query strings are local `YYYY-MM-DD`, never a UTC day.

use vstd::prelude::*;
use vstd::string::*;
use crate::calendar::{civil_day_of, civil_text, day_text, is_day, parse_day, MIN_DAY};
use crate::config::lookup;
use crate::confirmation::COLUMNS;
use crate::highlights::Kind;
use crate::text::{chars_of, concat, decimal_u64, decimal, owned, parse_integer, parsed_integer, same_text, string_from_chars, trim, trimmed};

verus! {

/// Why a request was turned away; each is answered with 400 Bad Request.
#[derive(Debug, Clone, PartialEq, Eq)]
pub enum RequestError {
    /// A parameter that has to be there is not.
    Missing(String),
    /// A date that is not `YYYY-MM-DD`.
    NotADate(String),
    FromAfterTo,
    /// A range longer than the API serves, with its length in days.
    RangeTooLong(i64),
    /// A name in `kinds` that is no highlight kind.
    NotAKind(String),
    /// A `confirmed` that is neither `true` nor `false`.
    NotTrueOrFalse(String),
    /// A limit that is not an integer.
    NotANumber(String),
    LimitBelowOne,
    /// A heatmap `weight` that is neither `days` nor `samples`.
    NotAWeight(String),
}

// ---------------------------------------------------------------------------------------------
// Limits and ranges
// ---------------------------------------------------------------------------------------------

/// A limit query parameter: the default when absent, capped at `max`, and an error for
/// anything that is not an integer of at least 1.
pub open spec fn limit_of(raw: Option<Seq<char>>, default: i64, max: i64) -> Result<i64, ()> {
    match raw {
        None => Ok(default),
        Some(text) => match parsed_integer(text, true, i64::MIN as int, i64::MAX as int) {
            None => Err(()),
            Some(v) => if v < 1 {
                Err(())
            } else if v < max {
                Ok(v as i64)
            } else {
                Ok(max)
            },
        },
    }
}

/// A limit query parameter, defaulted and capped so a typo cannot ask for the whole table.
pub fn parse_limit(raw: Option<&str>, default: i64, max: i64) -> (r: Result<i64, RequestError>)
    ensures
        match raw {
            None => r == Ok::<i64, RequestError>(default),
            Some(text) => match parsed_integer(text@, true, i64::MIN as int, i64::MAX as int) {
                None => r matches Err(RequestError::NotANumber(t)) && t@ == text@,
                Some(v) => if v < 1 {
                    r matches Err(RequestError::LimitBelowOne)
                } else {
                    r == Ok::<i64, RequestError>(if v < max { v as i64 } else { max })
                },
            },
        },
{
    let text = match raw {
        Some(t) => t,
        None => return Ok(default),
    };
    let limit = match parse_integer(text, true, i64::MIN as i128, i64::MAX as i128) {
        Some(v) => v as i64,
        None => return Err(RequestError::NotANumber(owned(text))),
    };
    if limit < 1 {
        return Err(RequestError::LimitBelowOne);
    }
    Ok(if limit < max { limit } else { max })
}

/// A year and a bit is a feed or a calendar, more is a scrape.
pub const MAX_RANGE_DAYS: i64 = 400;

/// The number of days in `from..=to`, if the range is the right way round and short enough.
pub fn range_days(from: i64, to: i64) -> (r: Result<i64, RequestError>)
    requires
        is_day(from as int),
        is_day(to as int),
    ensures
        from > to ==> r matches Err(RequestError::FromAfterTo),
        from <= to && to - from + 1 > MAX_RANGE_DAYS ==> (r matches Err(
            RequestError::RangeTooLong(n),
        ) && n == to - from + 1),
        from <= to && to - from + 1 <= MAX_RANGE_DAYS ==> r == Ok::<i64, RequestError>(
            (to - from + 1) as i64,
        ),
{
    if from > to {
        return Err(RequestError::FromAfterTo);
    }
    let days = to - from + 1;
    if days > MAX_RANGE_DAYS {
        return Err(RequestError::RangeTooLong(days));
    }
    Ok(days)
}

/// A date parameter, read the way jiff reads one.
pub fn parse_date(raw: &str) -> (r: Result<i64, RequestError>)
    ensures
        match civil_day_of(raw@) {
            Some(d) => r == Ok::<i64, RequestError>(d as i64) && is_day(d),
            None => r matches Err(RequestError::NotADate(t)) && t@ == raw@,
        },
{
    match parse_day(raw) {
        Some(d) => Ok(d),
        None => Err(RequestError::NotADate(owned(raw))),
    }
}

/// A month of context is what a calendar view needs: without a `from`, a range covers this many
/// days, `to` included.
pub const DEFAULT_RANGE_DAYS: i64 = 30;

/// The days a `/api/days` request covers: up to `to`, from `from` or else the last
/// [`DEFAULT_RANGE_DAYS`] days ending at `to` (or `to` alone where the first of them is no day),
/// if the range is the right way round and short enough.
pub fn day_range(from: Option<i64>, to: i64) -> (r: Result<(i64, i64), RequestError>)
    requires
        from matches Some(f) ==> is_day(f as int),
        is_day(to as int),
    ensures
        ({
            let first = match from {
                Some(f) => f as int,
                None => if to - (DEFAULT_RANGE_DAYS - 1) >= MIN_DAY {
                    to - (DEFAULT_RANGE_DAYS - 1)
                } else {
                    to as int
                },
            };
            &&& (first > to ==> (r matches Err(RequestError::FromAfterTo)))
            &&& (first <= to && to - first + 1 > MAX_RANGE_DAYS ==> (r matches Err(
                RequestError::RangeTooLong(n),
            ) && n == to - first + 1))
            &&& (first <= to && to - first + 1 <= MAX_RANGE_DAYS ==> r == Ok::<(i64, i64), RequestError>(
                (first as i64, to),
            ))
        }),
{
    let first = match from {
        Some(f) => f,
        None => if to - (DEFAULT_RANGE_DAYS - 1) >= MIN_DAY {
            to - (DEFAULT_RANGE_DAYS - 1)
        } else {
            to
        },
    };
    match range_days(first, to) {
        Ok(_) => Ok((first, to)),
        Err(e) => Err(e),
    }
}

// ---------------------------------------------------------------------------------------------
// The highlights request
// ---------------------------------------------------------------------------------------------

/// The pieces `str::split(',')` cuts a text into: never none, and empty where two commas meet
/// or one stands at an end.
pub open spec fn comma_parts(s: Seq<char>) -> Seq<Seq<char>>
    decreases s.len(),
{
    if s.len() == 0 {
        seq![Seq::empty()]
    } else {
        let parts = comma_parts(s.drop_last());
        if s.last() == ',' {
            parts.push(Seq::empty())
        } else {
            parts.update(parts.len() - 1, parts.last().push(s.last()))
        }
    }
}

proof fn lemma_comma_parts_nonempty(s: Seq<char>)
    ensures
        comma_parts(s).len() > 0,
    decreases s.len(),
{
    if s.len() > 0 {
        lemma_comma_parts_nonempty(s.drop_last());
    }
}

/// Cuts a text at its commas.
pub fn split_commas(s: &str) -> (r: Vec<String>)
    ensures
        r@.map_values(|p: String| p@) == comma_parts(s@),
{
    let chars = chars_of(s);
    let mut parts: Vec<String> = Vec::new();
    let mut current: Vec<char> = Vec::new();
    let mut i: usize = 0;
    while i < chars.len()
        invariant
            i <= chars@.len(),
            chars@ == s@,
            parts@.map_values(|p: String| p@).push(current@) == comma_parts(s@.take(i as int)),
        decreases chars.len() - i,
    {
        let ghost before = s@.take(i as int);
        let ghost upto = s@.take(i + 1);
        assert(upto.drop_last() =~= before);
        proof {
            lemma_comma_parts_nonempty(before);
        }
        let c = chars[i];
        if c == ',' {
            let piece = string_from_chars(&current);
            let ghost old_parts = parts@;
            parts.push(piece);
            current = Vec::new();
            assert(parts@.map_values(|p: String| p@) =~= old_parts.map_values(|p: String| p@).push(piece@));
            assert(parts@.map_values(|p: String| p@).push(current@) =~= comma_parts(upto));
        } else {
            let ghost old_current = current@;
            current.push(c);
            assert(parts@.map_values(|p: String| p@).push(current@) =~= comma_parts(upto)) by {
                let prev = parts@.map_values(|p: String| p@).push(old_current);
                assert(comma_parts(upto) == prev.update(prev.len() - 1, prev.last().push(c)));
            }
        }
        i = i + 1;
    }
    assert(s@.take(chars@.len() as int) =~= s@);
    let last = string_from_chars(&current);
    let ghost old_parts = parts@;
    parts.push(last);
    assert(parts@.map_values(|p: String| p@) =~= old_parts.map_values(|p: String| p@).push(last@));
    parts
}

/// The kinds a comma-separated list names, or the first piece that names none. Pieces are
/// trimmed before they are read.
pub open spec fn kinds_in(parts: Seq<Seq<char>>) -> Result<Seq<Kind>, Seq<char>>
    decreases parts.len(),
{
    if parts.len() == 0 {
        Ok(Seq::empty())
    } else {
        match Kind::of_name(trimmed(parts[0])) {
            None => Err(parts[0]),
            Some(k) => match kinds_in(parts.drop_first()) {
                Ok(ks) => Ok(seq![k] + ks),
                Err(e) => Err(e),
            },
        }
    }
}

fn parse_kinds(raw: &str) -> (r: Result<Vec<Kind>, RequestError>)
    ensures
        match kinds_in(comma_parts(raw@)) {
            Ok(ks) => r matches Ok(v) && v@ == ks,
            Err(bad) => r matches Err(RequestError::NotAKind(t)) && t@ == bad,
        },
{
    let parts = split_commas(raw);
    let ghost views = parts@.map_values(|p: String| p@);
    let mut kinds: Vec<Kind> = Vec::new();
    let mut i: usize = 0;
    assert(views.skip(0) =~= views);
    proof {
        match kinds_in(views) {
            Ok(ks) => {
                assert(kinds@ + ks =~= ks);
            },
            Err(_) => {},
        }
    }
    while i < parts.len()
        invariant
            i <= parts@.len(),
            views == parts@.map_values(|p: String| p@),
            views == comma_parts(raw@),
            kinds_in(views) == match kinds_in(views.skip(i as int)) {
                Ok(ks) => Ok(kinds@ + ks),
                Err(e) => Err::<Seq<Kind>, Seq<char>>(e),
            },
        decreases parts.len() - i,
    {
        let ghost rest = views.skip(i as int);
        assert(rest[0] == parts@[i as int]@);
        assert(rest.drop_first() =~= views.skip(i + 1));
        let name = trim(parts[i].as_str());
        match Kind::parse(name.as_str()) {
            Some(k) => {
                let ghost before = kinds@;
                kinds.push(k);
                proof {
                    match kinds_in(views.skip(i + 1)) {
                        Ok(ks) => {
                            assert(kinds@ + ks =~= before + (seq![k] + ks));
                        },
                        Err(_) => {},
                    }
                }
            },
            None => {
                return Err(RequestError::NotAKind(parts[i].clone()));
            },
        }
        i = i + 1;
    }
    assert(views.skip(i as int) =~= Seq::<Seq<char>>::empty());
    assert(kinds@ + Seq::<Kind>::empty() =~= kinds@);
    Ok(kinds)
}

/// What `/api/highlights` is asked for.
pub struct HighlightsRequest {
    pub from: String,
    pub to: String,
    pub kinds: Vec<Kind>,
    pub confirmed_only: bool,
}

/// Whether `confirmed` asks for reviewed events only, or the text that is neither answer.
pub open spec fn confirmed_of(raw: Option<Seq<char>>) -> Result<bool, Seq<char>> {
    match raw {
        None => Ok(false),
        Some(t) => if t == "false"@ {
            Ok(false)
        } else if t == "true"@ {
            Ok(true)
        } else {
            Err(t)
        },
    }
}

/// The kinds a request asks for: every kind without a `kinds` parameter.
pub open spec fn requested_kinds(raw: Option<Seq<char>>) -> Result<Seq<Kind>, Seq<char>> {
    match raw {
        None => Ok(seq![Kind::Country, Kind::Locality, Kind::Flight, Kind::Longest]),
        Some(t) => kinds_in(comma_parts(t)),
    }
}

impl HighlightsRequest {
    /// Reads the query parameters of `/api/highlights`, later ones overriding earlier ones:
    /// `from` and `to` are required dates at most [`MAX_RANGE_DAYS`] apart, `kinds` a comma
    /// separated list and `confirmed` `true` or `false`.
    pub fn parse(params: &Vec<(String, String)>) -> (r: Result<Self, RequestError>)
        ensures
            ({
                let from = lookup(params@, "from"@);
                let to = lookup(params@, "to"@);
                let kinds = requested_kinds(lookup(params@, "kinds"@));
                let confirmed = confirmed_of(lookup(params@, "confirmed"@));
                match r {
                    Ok(req) => {
                        &&& from is Some && to is Some
                        &&& civil_day_of(from->0) matches Some(a) && civil_day_of(to->0) matches Some(
                            b,
                        ) && a <= b && b - a + 1 <= MAX_RANGE_DAYS && req.from@ == civil_text(a)
                            && req.to@ == civil_text(b)
                        &&& kinds == Ok::<Seq<Kind>, Seq<char>>(req.kinds@)
                        &&& confirmed == Ok::<bool, Seq<char>>(req.confirmed_only)
                    },
                    Err(RequestError::Missing(name)) => (name@ == "from"@ && from is None) || (
                    name@ == "to"@ && from is Some && civil_day_of(from->0) is Some && to is None),
                    Err(RequestError::NotADate(t)) => (from is Some && civil_day_of(from->0) is None
                        && t@ == from->0) || (from is Some && civil_day_of(from->0) is Some && to is Some
                        && civil_day_of(to->0) is None && t@ == to->0),
                    Err(RequestError::FromAfterTo) => civil_day_of(from->0) matches Some(a)
                        && civil_day_of(to->0) matches Some(b) && a > b,
                    Err(RequestError::RangeTooLong(n)) => civil_day_of(from->0) matches Some(a)
                        && civil_day_of(to->0) matches Some(b) && a <= b && n == b - a + 1 && n
                        > MAX_RANGE_DAYS,
                    Err(RequestError::NotAKind(t)) => kinds == Err::<Seq<Kind>, Seq<char>>(t@),
                    Err(RequestError::NotTrueOrFalse(t)) => kinds is Ok && confirmed == Err::<
                        bool,
                        Seq<char>,
                    >(t@),
                    _ => false,
                }
            }),
    {
        let from_raw = match crate::config::get_param(params, "from") {
            Some(v) => v,
            None => return Err(RequestError::Missing(owned("from"))),
        };
        let from = match parse_date(from_raw.as_str()) {
            Ok(d) => d,
            Err(e) => return Err(e),
        };
        let to_raw = match crate::config::get_param(params, "to") {
            Some(v) => v,
            None => return Err(RequestError::Missing(owned("to"))),
        };
        let to = match parse_date(to_raw.as_str()) {
            Ok(d) => d,
            Err(e) => return Err(e),
        };
        match range_days(from, to) {
            Ok(_) => {},
            Err(e) => return Err(e),
        }
        let kinds = match crate::config::get_param(params, "kinds") {
            None => {
                let mut all: Vec<Kind> = Vec::new();
                all.push(Kind::Country);
                all.push(Kind::Locality);
                all.push(Kind::Flight);
                all.push(Kind::Longest);
                assert(all@ =~= seq![Kind::Country, Kind::Locality, Kind::Flight, Kind::Longest]);
                all
            },
            Some(raw) => match parse_kinds(raw.as_str()) {
                Ok(k) => k,
                Err(e) => return Err(e),
            },
        };
        let confirmed_only = match crate::config::get_param(params, "confirmed") {
            None => false,
            Some(raw) => {
                if same_text(raw.as_str(), "false") {
                    false
                } else if same_text(raw.as_str(), "true") {
                    true
                } else {
                    return Err(RequestError::NotTrueOrFalse(raw));
                }
            },
        };
        Ok(HighlightsRequest { from: day_text(from), to: day_text(to), kinds, confirmed_only })
    }
}

// ---------------------------------------------------------------------------------------------
// Queries
// ---------------------------------------------------------------------------------------------

/// Columns 0..=20 of an item row. The five confirmation columns follow at 21.
pub const ITEM_COLUMNS: &'static str = "id, is_visit, start_date, end_date, local_start_date, local_end_date,
     start_offset_seconds, end_offset_seconds, activity_type, trip_distance, step_count,
     floors_ascended, floors_descended, average_altitude, active_energy_burned,
     average_heart_rate, max_heart_rate, visit_latitude, visit_longitude, visit_custom_title,
     visit_place_id";

/// Arc keeps removed items as tombstones and the user can switch an item off; neither is part
/// of the timeline that happened, here or in the derivation.
pub const LIVE_ITEM: &'static str = "coalesce(deleted, 0) = 0 AND coalesce(disabled, 0) = 0";

/// The SELECT for live items matching `filter`.
pub fn item_query(filter: &str) -> (r: String)
    ensures
        r@ == "SELECT "@ + ITEM_COLUMNS@ + ", "@ + COLUMNS@ + " FROM items WHERE "@ + LIVE_ITEM@
            + " AND "@ + filter@,
{
    let a = concat("SELECT ", ITEM_COLUMNS);
    let b = concat(a.as_str(), ", ");
    let c = concat(b.as_str(), COLUMNS);
    let d = concat(c.as_str(), " FROM items WHERE ");
    let e = concat(d.as_str(), LIVE_ITEM);
    let f = concat(e.as_str(), " AND ");
    concat(f.as_str(), filter)
}

// ---------------------------------------------------------------------------------------------
// Escaping for XML
// ---------------------------------------------------------------------------------------------

/// What a character becomes inside an XML document.
pub open spec fn escaped_char(c: char) -> Seq<char> {
    if c == '&' {
        "&amp;"@
    } else if c == '<' {
        "&lt;"@
    } else if c == '>' {
        "&gt;"@
    } else if c == '"' {
        "&quot;"@
    } else if c == '\'' {
        "&apos;"@
    } else {
        seq![c]
    }
}

/// A text with every character escaped.
pub open spec fn escaped(s: Seq<char>) -> Seq<char>
    decreases s.len(),
{
    if s.len() == 0 {
        Seq::empty()
    } else {
        escaped(s.drop_last()) + escaped_char(s.last())
    }
}

/// Place names come straight from Arc and contain whatever the user typed, so everything that
/// goes into a document is escaped.
pub fn escape(raw: &str) -> (r: String)
    ensures
        r@ == escaped(raw@),
{
    let chars = chars_of(raw);
    let mut out: Vec<char> = Vec::new();
    let mut i: usize = 0;
    proof {
        reveal_strlit("&amp;");
        reveal_strlit("&lt;");
        reveal_strlit("&gt;");
        reveal_strlit("&quot;");
        reveal_strlit("&apos;");
    }
    while i < chars.len()
        invariant
            i <= chars@.len(),
            chars@ == raw@,
            out@ == escaped(raw@.take(i as int)),
            "&amp;"@ == seq!['&', 'a', 'm', 'p', ';'],
            "&lt;"@ == seq!['&', 'l', 't', ';'],
            "&gt;"@ == seq!['&', 'g', 't', ';'],
            "&quot;"@ == seq!['&', 'q', 'u', 'o', 't', ';'],
            "&apos;"@ == seq!['&', 'a', 'p', 'o', 's', ';'],
        decreases chars.len() - i,
    {
        let ghost upto = raw@.take(i + 1);
        assert(upto.drop_last() =~= raw@.take(i as int));
        let c = chars[i];
        let ghost before = out@;
        if c == '&' {
            out.push('&'); out.push('a'); out.push('m'); out.push('p'); out.push(';');
        } else if c == '<' {
            out.push('&'); out.push('l'); out.push('t'); out.push(';');
        } else if c == '>' {
            out.push('&'); out.push('g'); out.push('t'); out.push(';');
        } else if c == '"' {
            out.push('&'); out.push('q'); out.push('u'); out.push('o'); out.push('t'); out.push(';');
        } else if c == '\'' {
            out.push('&'); out.push('a'); out.push('p'); out.push('o'); out.push('s'); out.push(';');
        } else {
            out.push(c);
        }
        assert(out@ =~= before + escaped_char(c));
        i = i + 1;
    }
    assert(raw@.take(chars@.len() as int) =~= raw@);
    string_from_chars(&out)
}

/// No escaped text holds a character XML would read as markup.
pub proof fn escaped_text_has_no_markup(s: Seq<char>)
    ensures
        forall|i: int| 0 <= i < escaped(s).len() ==> {
            let c = #[trigger] escaped(s)[i];
            c != '<' && c != '>' && c != '"' && c != '\''
        },
    decreases s.len(),
{
    reveal_strlit("&amp;");
    reveal_strlit("&lt;");
    reveal_strlit("&gt;");
    reveal_strlit("&quot;");
    reveal_strlit("&apos;");
    if s.len() > 0 {
        escaped_text_has_no_markup(s.drop_last());
        let head = escaped(s.drop_last());
        let tail = escaped_char(s.last());
        assert forall|i: int| 0 <= i < escaped(s).len() implies {
            let c = #[trigger] escaped(s)[i];
            c != '<' && c != '>' && c != '"' && c != '\''
        } by {
            if i >= head.len() {
                assert(escaped(s)[i] == tail[i - head.len()]);
            } else {
                assert(escaped(s)[i] == head[i]);
            }
        }
    }
}

/// What an XML reader makes of text: each of the five entities read back as its character,
/// every other character as itself.
pub open spec fn unescaped(s: Seq<char>) -> Seq<char>
    decreases s.len(),
{
    if s.len() == 0 {
        Seq::empty()
    } else if s.len() >= 5 && s.take(5) == "&amp;"@ {
        seq!['&'] + unescaped(s.skip(5))
    } else if s.len() >= 4 && s.take(4) == "&lt;"@ {
        seq!['<'] + unescaped(s.skip(4))
    } else if s.len() >= 4 && s.take(4) == "&gt;"@ {
        seq!['>'] + unescaped(s.skip(4))
    } else if s.len() >= 6 && s.take(6) == "&quot;"@ {
        seq!['"'] + unescaped(s.skip(6))
    } else if s.len() >= 6 && s.take(6) == "&apos;"@ {
        seq!['\''] + unescaped(s.skip(6))
    } else {
        seq![s[0]] + unescaped(s.skip(1))
    }
}

/// Whether a character is one that escaping rewrites.
pub open spec fn is_markup(c: char) -> bool {
    c == '&' || c == '<' || c == '>' || c == '"' || c == '\''
}

proof fn lemma_escaped_append(a: Seq<char>, b: Seq<char>)
    ensures
        escaped(a + b) == escaped(a) + escaped(b),
    decreases b.len(),
{
    if b.len() == 0 {
        assert(a + b =~= a);
        assert(escaped(a) + escaped(b) =~= escaped(a));
    } else {
        lemma_escaped_append(a, b.drop_last());
        assert((a + b).drop_last() =~= a + b.drop_last());
        assert((a + b).last() == b.last());
        assert(escaped(a + b) =~= escaped(a) + escaped(b));
    }
}

proof fn lemma_escaped_front(s: Seq<char>)
    requires
        s.len() > 0,
    ensures
        escaped(s) == escaped_char(s[0]) + escaped(s.skip(1)),
{
    lemma_escaped_append(seq![s[0]], s.skip(1));
    assert(seq![s[0]] + s.skip(1) =~= s);
    assert(seq![s[0]].drop_last() =~= Seq::<char>::empty());
    assert(seq![s[0]].last() == s[0]);
    assert(escaped(Seq::<char>::empty()) =~= Seq::<char>::empty());
    assert(escaped(seq![s[0]]) =~= escaped_char(s[0]));
}

proof fn lemma_not_prefix(t: Seq<char>, lit: Seq<char>, i: int)
    requires
        0 <= i < lit.len(),
        i < t.len(),
        t[i] != lit[i],
    ensures
        !(t.len() >= lit.len() && t.take(lit.len() as int) == lit),
{
    if t.len() >= lit.len() && t.take(lit.len() as int) == lit {
        assert(t.take(lit.len() as int)[i] == t[i]);
    }
}

/// Reading escaped text back gives the text that was escaped, whatever it held.
pub proof fn unescaping_gives_the_text_back(s: Seq<char>)
    ensures
        unescaped(escaped(s)) == s,
    decreases s.len(),
{
    reveal_strlit("&amp;");
    reveal_strlit("&lt;");
    reveal_strlit("&gt;");
    reveal_strlit("&quot;");
    reveal_strlit("&apos;");
    if s.len() == 0 {
        assert(escaped(s) =~= Seq::<char>::empty());
    } else {
        let c = s[0];
        let rest = s.skip(1);
        lemma_escaped_front(s);
        unescaping_gives_the_text_back(rest);
        let e = escaped_char(c);
        let t = e + escaped(rest);
        assert(t.skip(e.len() as int) =~= escaped(rest));
        assert(t.take(e.len() as int) =~= e);
        assert(forall|k: int| 0 <= k < e.len() ==> t[k] == e[k]);
        if c == '&' {
            assert(unescaped(t) == seq!['&'] + unescaped(t.skip(5)));
        } else if c == '<' {
            lemma_not_prefix(t, "&amp;"@, 1);
            assert(unescaped(t) == seq!['<'] + unescaped(t.skip(4)));
        } else if c == '>' {
            lemma_not_prefix(t, "&amp;"@, 1);
            lemma_not_prefix(t, "&lt;"@, 1);
            assert(unescaped(t) == seq!['>'] + unescaped(t.skip(4)));
        } else if c == '"' {
            lemma_not_prefix(t, "&amp;"@, 1);
            lemma_not_prefix(t, "&lt;"@, 1);
            lemma_not_prefix(t, "&gt;"@, 1);
            assert(unescaped(t) == seq!['"'] + unescaped(t.skip(6)));
        } else if c == '\'' {
            lemma_not_prefix(t, "&amp;"@, 2);
            lemma_not_prefix(t, "&lt;"@, 1);
            lemma_not_prefix(t, "&gt;"@, 1);
            lemma_not_prefix(t, "&quot;"@, 1);
            assert(unescaped(t) == seq!['\''] + unescaped(t.skip(6)));
        } else {
            assert(e =~= seq![c]);
            lemma_not_prefix(t, "&amp;"@, 0);
            lemma_not_prefix(t, "&lt;"@, 0);
            lemma_not_prefix(t, "&gt;"@, 0);
            lemma_not_prefix(t, "&quot;"@, 0);
            lemma_not_prefix(t, "&apos;"@, 0);
            assert(unescaped(t) == seq![c] + unescaped(t.skip(1)));
        }
        assert(seq![c] + rest =~= s);
    }
}

proof fn lemma_escaped_longer(s: Seq<char>)
    ensures
        escaped(s).len() >= s.len(),
    decreases s.len(),
{
    reveal_strlit("&amp;");
    reveal_strlit("&lt;");
    reveal_strlit("&gt;");
    reveal_strlit("&quot;");
    reveal_strlit("&apos;");
    if s.len() > 0 {
        lemma_escaped_longer(s.drop_last());
    }
}

proof fn lemma_markup_lengthens(s: Seq<char>, i: int)
    requires
        0 <= i < s.len(),
        is_markup(s[i]),
    ensures
        escaped(s).len() > s.len(),
    decreases s.len(),
{
    reveal_strlit("&amp;");
    reveal_strlit("&lt;");
    reveal_strlit("&gt;");
    reveal_strlit("&quot;");
    reveal_strlit("&apos;");
    if i == s.len() - 1 {
        lemma_escaped_longer(s.drop_last());
    } else {
        assert(s.drop_last()[i] == s[i]);
        lemma_markup_lengthens(s.drop_last(), i);
    }
}

proof fn lemma_plain_unchanged(s: Seq<char>)
    requires
        forall|i: int| 0 <= i < s.len() ==> !is_markup(#[trigger] s[i]),
    ensures
        escaped(s) == s,
    decreases s.len(),
{
    if s.len() > 0 {
        assert forall|i: int| 0 <= i < s.drop_last().len() implies !is_markup(#[trigger] s.drop_last()[i]) by {
            assert(s.drop_last()[i] == s[i]);
        }
        lemma_plain_unchanged(s.drop_last());
        assert(!is_markup(s[s.len() - 1]));
        assert(escaped_char(s.last()) =~= seq![s.last()]);
        assert(escaped(s) =~= s);
    }
}

/// Whether an entity begins at position `i` of `t`.
pub open spec fn starts_entity(t: Seq<char>, i: int) -> bool {
    ||| (i + 5 <= t.len() && t.subrange(i, i + 5) == "&amp;"@)
    ||| (i + 4 <= t.len() && t.subrange(i, i + 4) == "&lt;"@)
    ||| (i + 4 <= t.len() && t.subrange(i, i + 4) == "&gt;"@)
    ||| (i + 6 <= t.len() && t.subrange(i, i + 6) == "&quot;"@)
    ||| (i + 6 <= t.len() && t.subrange(i, i + 6) == "&apos;"@)
}

/// Every `&` in escaped text begins one of the five entities.
pub proof fn every_ampersand_begins_an_entity(s: Seq<char>)
    ensures
        forall|i: int| 0 <= i < escaped(s).len() && #[trigger] escaped(s)[i] == '&' ==> starts_entity(escaped(s), i),
    decreases s.len(),
{
    reveal_strlit("&amp;");
    reveal_strlit("&lt;");
    reveal_strlit("&gt;");
    reveal_strlit("&quot;");
    reveal_strlit("&apos;");
    if s.len() > 0 {
        let head = escaped(s.drop_last());
        let tail = escaped_char(s.last());
        let t = escaped(s);
        every_ampersand_begins_an_entity(s.drop_last());
        assert(t == head + tail);
        assert forall|i: int| 0 <= i < t.len() && #[trigger] t[i] == '&' implies starts_entity(t, i) by {
            if i < head.len() {
                assert(head[i] == t[i]);
                assert(starts_entity(head, i));
                if i + 5 <= head.len() {
                    assert(t.subrange(i, i + 5) =~= head.subrange(i, i + 5));
                }
                if i + 4 <= head.len() {
                    assert(t.subrange(i, i + 4) =~= head.subrange(i, i + 4));
                }
                if i + 6 <= head.len() {
                    assert(t.subrange(i, i + 6) =~= head.subrange(i, i + 6));
                }
            } else {
                assert(t[i] == tail[i - head.len()]);
                assert(i == head.len());
                assert(t.subrange(i, i + tail.len()) =~= tail);
            }
        }
    }
}

/// Escaping leaves a text as it is exactly when none of `& < > " '` occurs in it.
pub proof fn escaping_changes_only_markup(s: Seq<char>)
    ensures
        escaped(s) == s <==> forall|i: int| 0 <= i < s.len() ==> !is_markup(#[trigger] s[i]),
{
    if forall|i: int| 0 <= i < s.len() ==> !is_markup(#[trigger] s[i]) {
        lemma_plain_unchanged(s);
    } else {
        let i = choose|i: int| 0 <= i < s.len() && is_markup(#[trigger] s[i]);
        lemma_markup_lengthens(s, i);
    }
}

// ---------------------------------------------------------------------------------------------
// The heatmap grid
// ---------------------------------------------------------------------------------------------

/// The zoom of the fine cell grid: a cell is about 6 m across.
pub const CELL_ZOOM: u32 = 22;

/// How many levels coarser than a screen pixel a cell is drawn at, so a point covers about
/// four pixels.
pub const PIXEL_SHIFT: i64 = 2;

/// A tile is 256 px, so the pixel grid at map zoom `z` is the tile grid at `z + 8`.
pub const TILE_PIXELS_SHIFT: i64 = 8;

/// Four cells across the world is as coarse as coarsening ever needs to get.
pub const MAX_SHIFT: u32 = 18;

/// The coarsening that puts a cell at roughly `2^PIXEL_SHIFT` screen pixels, for a map zoom
/// already rounded to a whole level.
pub open spec fn shift_for_zoom(zoom: int) -> int {
    let shift = CELL_ZOOM - zoom - TILE_PIXELS_SHIFT + PIXEL_SHIFT;
    if shift < 0 {
        0
    } else if shift > MAX_SHIFT {
        MAX_SHIFT as int
    } else {
        shift
    }
}

pub fn shift_for(zoom: i64) -> (r: u32)
    requires
        0 <= zoom <= 24,
    ensures
        r == shift_for_zoom(zoom as int),
{
    let shift = CELL_ZOOM as i64 - zoom - TILE_PIXELS_SHIFT + PIXEL_SHIFT;
    if shift < 0 {
        0
    } else if shift > MAX_SHIFT as i64 {
        MAX_SHIFT
    } else {
        shift as u32
    }
}

/// The grid a shift is answered from: the coarsest of the rollup `levels` at or below it, or 0
/// for the fine table, which is finer than every rollup level.
pub open spec fn base_shift_of(levels: Seq<u32>, shift: u32) -> u32
    decreases levels.len(),
{
    if levels.len() == 0 {
        0
    } else {
        let rest = base_shift_of(levels.drop_last(), shift);
        let level = levels.last();
        if level <= shift && level > rest {
            level
        } else {
            rest
        }
    }
}

pub fn base_shift(levels: &[u32], shift: u32) -> (r: u32)
    ensures
        r == base_shift_of(levels@, shift),
{
    let mut best: u32 = 0;
    let mut i: usize = 0;
    while i < levels.len()
        invariant
            i <= levels@.len(),
            best == base_shift_of(levels@.take(i as int), shift),
        decreases levels.len() - i,
    {
        assert(levels@.take(i + 1).drop_last() =~= levels@.take(i as int));
        let level = levels[i];
        if level <= shift && level > best {
            best = level;
        }
        i = i + 1;
    }
    assert(levels@.take(levels@.len() as int) =~= levels@);
    best
}

/// The table a base shift lives in, and the extra predicate a rollup needs. The level goes in
/// as a literal because it comes from the rollup levels, never from the request.
pub fn source(base: u32) -> (r: (&'static str, String))
    ensures
        base == 0 ==> r.0@ == "heatmap_cells"@ && r.1@ == Seq::<char>::empty(),
        base != 0 ==> r.0@ == "heatmap_rollup"@ && r.1@ == "shift = "@ + decimal(base as nat)
            + " AND "@,
{
    if base == 0 {
        ("heatmap_cells", String::new())
    } else {
        let number = decimal_u64(base as u64);
        let head = concat("shift = ", number.as_str());
        ("heatmap_rollup", concat(head.as_str(), " AND "))
    }
}

// ---------------------------------------------------------------------------------------------
// Place search
// ---------------------------------------------------------------------------------------------

/// A search text with every `%` escaped, so it matches literally inside a LIKE pattern.
pub open spec fn percent_escaped(s: Seq<char>) -> Seq<char>
    decreases s.len(),
{
    if s.len() == 0 {
        Seq::empty()
    } else {
        percent_escaped(s.drop_last()) + if s.last() == '%' {
            seq!['\\', '%']
        } else {
            seq![s.last()]
        }
    }
}

/// The LIKE pattern a place search matches names, localities and addresses with: the query
/// anywhere in them.
pub fn like_pattern(query: &str) -> (r: String)
    ensures
        r@ == seq!['%'] + percent_escaped(query@) + seq!['%'],
{
    let chars = chars_of(query);
    let mut out: Vec<char> = Vec::new();
    out.push('%');
    let mut i: usize = 0;
    while i < chars.len()
        invariant
            i <= chars@.len(),
            chars@ == query@,
            out@ == seq!['%'] + percent_escaped(query@.take(i as int)),
        decreases chars.len() - i,
    {
        assert(query@.take(i + 1).drop_last() =~= query@.take(i as int));
        let c = chars[i];
        if c == '%' {
            out.push('\\');
        }
        out.push(c);
        i = i + 1;
        assert(out@ =~= seq!['%'] + percent_escaped(query@.take(i as int)));
    }
    assert(query@.take(chars@.len() as int) =~= query@);
    out.push('%');
    string_from_chars(&out)
}

} // verus!
