//! Settings, read from environment-like pairs.
//!
//! Paths are kept as text. Joining follows `PathBuf::push`: an absolute part replaces what is
//! there, anything else is added after a separator unless the base is empty or ends in one.

use vstd::prelude::*;
use crate::text::{concat, owned, parse_integer, parsed_integer, same_text, strip_prefix, trim, trimmed};

verus! {

/// OpenFreeMap serves this for free and without a key.
pub const DEFAULT_MAP_STYLE: &'static str = "https://tiles.openfreemap.org/styles/liberty";
/// The style the heatmap renders on.
pub const DEFAULT_MAP_STYLE_DARK: &'static str = "https://tiles.openfreemap.org/styles/dark";
pub const DEFAULT_ARC_DIR: &'static str =
    "~/Library/Mobile Documents/iCloud~com~bigpaua~Arc-Timeline-Editor/Documents";
pub const DEFAULT_DATA_DIR: &'static str = "~/Library/Application Support/arches";
pub const DEFAULT_BIND: &'static str = "127.0.0.1:8471";
pub const DEFAULT_INGEST_INTERVAL: &'static str = "15m";

pub struct Config {
    /// Arc's iCloud `Documents` dir. Read-only, without exception.
    pub arc_dir: String,
    pub data_dir: String,
    /// A directory of daily GPX files to ingest as history; none means no GPX ingest.
    pub gpx_dir: Option<String>,
    pub bind: String,
    pub map_style: String,
    pub map_style_dark: String,
    /// How often `serve` polls for changes, in seconds.
    pub ingest_interval_seconds: u64,
}

/// An ingest interval that is not a number followed by `s`, `m` or `h`.
#[derive(Debug, Clone, PartialEq, Eq)]
pub struct InvalidInterval {
    /// The interval as given, trimmed.
    pub raw: String,
}

/// `base` joined with `part` the way `PathBuf::push` joins them.
pub open spec fn joined(base: Seq<char>, part: Seq<char>) -> Seq<char> {
    if part.len() > 0 && part[0] == '/' {
        part
    } else if base.len() > 0 && base.last() != '/' {
        base + seq!['/'] + part
    } else {
        base + part
    }
}

pub fn join_path(base: &str, part: &str) -> (r: String)
    ensures
        r@ == joined(base@, part@),
{
    let p = crate::text::chars_of(part);
    if p.len() > 0 && p[0] == '/' {
        return owned(part);
    }
    let b = crate::text::chars_of(base);
    if b.len() > 0 && b[b.len() - 1] != '/' {
        let with_separator = concat(base, "/");
        proof {
            reveal_strlit("/");
        }
        concat(with_separator.as_str(), part)
    } else {
        concat(base, part)
    }
}

/// `~` only expands as a leading path component, matching shell behavior; anything else is
/// passed through so an already-absolute override is never rewritten.
pub open spec fn expanded(path: Seq<char>, home: Option<Seq<char>>) -> Seq<char> {
    let prefix = seq!['~', '/'];
    if path.len() >= 2 && path.take(2) == prefix && home is Some {
        joined(home->0, path.skip(2))
    } else {
        path
    }
}

pub fn expand_home(path: &str, home: Option<&str>) -> (r: String)
    ensures
        r@ == expanded(path@, match home {
            Some(h) => Some(h@),
            None => None,
        }),
{
    proof {
        reveal_strlit("~/");
        assert("~/"@ =~= seq!['~', '/']);
    }
    match (strip_prefix(path, "~/"), home) {
        (Some(rest), Some(h)) => join_path(h, rest.as_str()),
        _ => owned(path),
    }
}

/// The value of the last pair named `key`: later pairs override earlier ones.
pub open spec fn lookup(pairs: Seq<(String, String)>, key: Seq<char>) -> Option<Seq<char>>
    decreases pairs.len(),
{
    if pairs.len() == 0 {
        None
    } else if pairs.last().0@ == key {
        Some(pairs.last().1@)
    } else {
        lookup(pairs.drop_last(), key)
    }
}

/// The value of the last pair named `key`.
pub fn get_param(pairs: &Vec<(String, String)>, key: &str) -> (r: Option<String>)
    ensures
        match r {
            Some(v) => lookup(pairs@, key@) == Some(v@),
            None => lookup(pairs@, key@) is None,
        },
{
    let mut i: usize = pairs.len();
    assert(pairs@.take(i as int) =~= pairs@);
    while i > 0
        invariant
            i <= pairs@.len(),
            lookup(pairs@, key@) == lookup(pairs@.take(i as int), key@),
        decreases i,
    {
        let ghost upto = pairs@.take(i as int);
        assert(upto.drop_last() =~= pairs@.take(i - 1));
        if same_text(pairs[i - 1].0.as_str(), key) {
            return Some(pairs[i - 1].1.clone());
        }
        i = i - 1;
    }
    None
}

fn get_or(pairs: &Vec<(String, String)>, key: &str, default: &str) -> (r: String)
    ensures
        r@ == match lookup(pairs@, key@) {
            Some(v) => v,
            None => default@,
        },
{
    match get_param(pairs, key) {
        Some(v) => v,
        None => owned(default),
    }
}

/// Whether a trimmed interval is one `parse_interval` cannot take apart: its last character
/// is more than one byte, so the split before it is not at a character boundary.
pub open spec fn interval_split_fails(t: Seq<char>) -> bool {
    t.len() > 0 && t.last() as u32 >= 0x80
}

/// The seconds an interval stands for, before any limit: a number, then `s`, `m` or `h`.
pub open spec fn interval_seconds(raw: Seq<char>) -> Option<int> {
    let t = trimmed(raw);
    if t.len() == 0 {
        None
    } else {
        let number = t.drop_last();
        let unit = t.last();
        match parsed_integer(number, false, 0, u64::MAX as int) {
            Some(v) => if unit == 's' {
                Some(v)
            } else if unit == 'm' {
                Some(v * 60)
            } else if unit == 'h' {
                Some(v * 3600)
            } else {
                None
            },
            None => None,
        }
    }
}

/// Whether parsing an interval would fail by panicking rather than with an error: a
/// multi-byte last character, or more seconds than a `u64` holds.
pub open spec fn interval_panics(raw: Seq<char>) -> bool {
    interval_split_fails(trimmed(raw)) || match interval_seconds(raw) {
        Some(s) => s > u64::MAX,
        None => false,
    }
}

/// Whether [`parse_interval`] would panic on `raw`, for callers to check first.
pub fn interval_would_panic(raw: &str) -> (r: bool)
    ensures
        r == interval_panics(raw@),
{
    let t = trim(raw);
    let chars = crate::text::chars_of(t.as_str());
    if chars.len() > 0 && chars[chars.len() - 1] as u32 >= 0x80 {
        return true;
    }
    match interval_value(t.as_str()) {
        Some((v, multiplier)) => {
            let wide = (v as u128) * (multiplier as u128);
            assert(wide == v * multiplier);
            wide > u64::MAX as u128
        },
        None => false,
    }
}

/// The number and the multiplier of its unit, for a trimmed interval.
fn interval_value(t: &str) -> (r: Option<(u64, u64)>)
    ensures
        match r {
            Some((v, m)) => t@.len() > 0 && parsed_integer(t@.drop_last(), false, 0, u64::MAX as int)
                == Some(v as int) && (m == 1 && t@.last() == 's' || m == 60 && t@.last() == 'm'
                || m == 3600 && t@.last() == 'h'),
            None => t@.len() == 0 || parsed_integer(t@.drop_last(), false, 0, u64::MAX as int) is None
                || !(t@.last() == 's' || t@.last() == 'm' || t@.last() == 'h'),
        },
{
    let chars = crate::text::chars_of(t);
    if chars.len() == 0 {
        return None;
    }
    let mut number: Vec<char> = Vec::new();
    let mut i: usize = 0;
    while i + 1 < chars.len()
        invariant
            chars@ == t@,
            chars@.len() > 0,
            i <= chars@.len() - 1,
            number@ == t@.take(i as int),
        decreases chars.len() - i,
    {
        number.push(chars[i]);
        i = i + 1;
        assert(number@ =~= t@.take(i as int));
    }
    assert(number@ =~= t@.drop_last());
    let digits = crate::text::string_from_chars(&number);
    let value = match parse_integer(digits.as_str(), false, 0, u64::MAX as i128) {
        Some(v) => v as u64,
        None => return None,
    };
    let unit = chars[chars.len() - 1];
    if unit == 's' {
        Some((value, 1))
    } else if unit == 'm' {
        Some((value, 60))
    } else if unit == 'h' {
        Some((value, 3600))
    } else {
        None
    }
}

/// Arc rewrites whole buckets retroactively, so polling is cheap insurance against missed
/// file events; the interval just needs a human-friendly unit, not sub-second precision.
pub fn parse_interval(raw: &str) -> (r: Result<u64, InvalidInterval>)
    requires
        !interval_panics(raw@),
    ensures
        match r {
            Ok(seconds) => interval_seconds(raw@) == Some(seconds as int),
            Err(e) => interval_seconds(raw@) is None && e.raw@ == trimmed(raw@),
        },
{
    let t = trim(raw);
    match interval_value(t.as_str()) {
        Some((v, multiplier)) => {
            assert(v * multiplier <= u64::MAX);
            Ok(v * multiplier)
        },
        None => Err(InvalidInterval { raw: t }),
    }
}

impl Config {
    /// The settings `pairs` make, later pairs overriding earlier ones.
    pub fn from_pairs(pairs: Vec<(String, String)>) -> (r: Result<Self, InvalidInterval>)
        requires
            !interval_panics(match lookup(pairs@, "ARCHES_INGEST_INTERVAL"@) {
                Some(v) => v,
                None => DEFAULT_INGEST_INTERVAL@,
            }),
        ensures
            ({
                let home = lookup(pairs@, "HOME"@);
                let interval = match lookup(pairs@, "ARCHES_INGEST_INTERVAL"@) {
                    Some(v) => v,
                    None => DEFAULT_INGEST_INTERVAL@,
                };
                match r {
                    Ok(c) => {
                        &&& c.arc_dir@ == expanded(
                            match lookup(pairs@, "ARCHES_ARC_DIR"@) {
                                Some(v) => v,
                                None => DEFAULT_ARC_DIR@,
                            },
                            home,
                        )
                        &&& c.data_dir@ == expanded(
                            match lookup(pairs@, "ARCHES_DATA_DIR"@) {
                                Some(v) => v,
                                None => DEFAULT_DATA_DIR@,
                            },
                            home,
                        )
                        &&& match (c.gpx_dir, lookup(pairs@, "ARCHES_GPX_DIR"@)) {
                            (Some(d), Some(v)) => d@ == expanded(v, home),
                            (None, None) => true,
                            _ => false,
                        }
                        &&& c.bind@ == match lookup(pairs@, "ARCHES_BIND"@) {
                            Some(v) => v,
                            None => DEFAULT_BIND@,
                        }
                        &&& c.map_style@ == match lookup(pairs@, "ARCHES_MAP_STYLE"@) {
                            Some(v) => v,
                            None => DEFAULT_MAP_STYLE@,
                        }
                        &&& c.map_style_dark@ == match lookup(pairs@, "ARCHES_MAP_STYLE_DARK"@) {
                            Some(v) => v,
                            None => DEFAULT_MAP_STYLE_DARK@,
                        }
                        &&& interval_seconds(interval) == Some(c.ingest_interval_seconds as int)
                    },
                    Err(e) => interval_seconds(interval) is None && e.raw@ == trimmed(interval),
                }
            }),
    {
        let home = get_param(&pairs, "HOME");
        let home_ref: Option<&str> = match &home {
            Some(h) => Some(h.as_str()),
            None => None,
        };
        let arc = get_or(&pairs, "ARCHES_ARC_DIR", DEFAULT_ARC_DIR);
        let data = get_or(&pairs, "ARCHES_DATA_DIR", DEFAULT_DATA_DIR);
        let gpx_dir = match get_param(&pairs, "ARCHES_GPX_DIR") {
            Some(d) => Some(expand_home(d.as_str(), home_ref)),
            None => None,
        };
        let interval = get_or(&pairs, "ARCHES_INGEST_INTERVAL", DEFAULT_INGEST_INTERVAL);
        let seconds = match parse_interval(interval.as_str()) {
            Ok(s) => s,
            Err(e) => return Err(e),
        };
        Ok(Config {
            arc_dir: expand_home(arc.as_str(), home_ref),
            data_dir: expand_home(data.as_str(), home_ref),
            gpx_dir,
            // Loopback only: there is no auth, exposing it is a deliberate deployment choice.
            bind: get_or(&pairs, "ARCHES_BIND", DEFAULT_BIND),
            map_style: get_or(&pairs, "ARCHES_MAP_STYLE", DEFAULT_MAP_STYLE),
            map_style_dark: get_or(&pairs, "ARCHES_MAP_STYLE_DARK", DEFAULT_MAP_STYLE_DARK),
            ingest_interval_seconds: seconds,
        })
    }

    /// Where the database lives.
    pub fn db_path(&self) -> (r: String)
        ensures
            r@ == joined(self.data_dir@, "arches.db"@),
    {
        join_path(self.data_dir.as_str(), "arches.db")
    }
}

} // verus!
