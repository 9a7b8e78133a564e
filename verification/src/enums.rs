//! Integer enums from LocoKit2, kept faithful to the upstream raw values.
//!
//! Arc ships new enum cases before anyone hears about them, so every enum carries an `Other`
//! escape hatch: one unrecognised raw value must never fail a whole bucket file. Names are what
//! the API speaks, while Arc's JSON only ever holds the integer.

use vstd::prelude::*;
use vstd::string::*;
use crate::text::{decimal_i64, lemma_signed_decimal_parses, lemma_signed_decimal_starts, owned, parse_integer, parsed_integer, same_text, signed_decimal};

verus! {

/// A name that does not match any known case and is not a bare raw value either.
#[derive(Debug, Clone, PartialEq, Eq)]
pub struct UnknownName {
    pub enum_name: &'static str,
    pub value: String,
}

/// What `Debug` writes for a string: the text in double quotes, with quotes, backslashes,
/// control and unprintable characters escaped.
pub uninterp spec fn debug_quoted(text: Seq<char>) -> Seq<char>;

/// `<str as Debug>::fmt`, through `format!("{:?}")`. The result is a function of the text alone;
/// its escaping rules are std's, and nothing here states them.
#[verifier::external_body]
fn quoted(text: &str) -> (r: String)
    ensures
        r@ == debug_quoted(text@),
{
    format!("{:?}", text)
}

impl UnknownName {
    /// `"value" is not a EnumName name`.
    pub open spec fn message_of(self) -> Seq<char> {
        debug_quoted(self.value@) + " is not a "@ + self.enum_name@ + " name"@
    }

    /// The error as a person reads it: the quoted value, then which enum it failed to name.
    pub fn message(&self) -> (r: String)
        ensures
            r@ == self.message_of(),
    {
        let mut r = quoted(self.value.as_str());
        r.append(" is not a ");
        r.append(self.enum_name);
        r.append(" name");
        r
    }
}

/// `LocomotionSample.classifiedActivityType`, `confirmedActivityType` and the trip equivalents.
#[derive(Debug, Clone, Copy, PartialEq, Eq, Hash, Structural)]
pub enum ActivityType {
    Unknown,
    Bogus,
    Stationary,
    Walking,
    Running,
    Cycling,
    Car,
    Airplane,
    Train,
    Bus,
    Motorcycle,
    Boat,
    Tram,
    Tractor,
    Tuktuk,
    Songthaew,
    Scooter,
    Metro,
    CableCar,
    Funicular,
    Chairlift,
    SkiLift,
    Taxi,
    HotAirBalloon,
    Skateboarding,
    InlineSkating,
    Snowboarding,
    Skiing,
    Horseback,
    Swimming,
    Golf,
    Wheelchair,
    Rowing,
    Kayaking,
    Surfing,
    Hiking,
    Other(i32),
}

impl ActivityType {
    /// Every case upstream declares, in raw value order.
    pub const ALL: [ActivityType; 36] = [
        ActivityType::Unknown,
        ActivityType::Bogus,
        ActivityType::Stationary,
        ActivityType::Walking,
        ActivityType::Running,
        ActivityType::Cycling,
        ActivityType::Car,
        ActivityType::Airplane,
        ActivityType::Train,
        ActivityType::Bus,
        ActivityType::Motorcycle,
        ActivityType::Boat,
        ActivityType::Tram,
        ActivityType::Tractor,
        ActivityType::Tuktuk,
        ActivityType::Songthaew,
        ActivityType::Scooter,
        ActivityType::Metro,
        ActivityType::CableCar,
        ActivityType::Funicular,
        ActivityType::Chairlift,
        ActivityType::SkiLift,
        ActivityType::Taxi,
        ActivityType::HotAirBalloon,
        ActivityType::Skateboarding,
        ActivityType::InlineSkating,
        ActivityType::Snowboarding,
        ActivityType::Skiing,
        ActivityType::Horseback,
        ActivityType::Swimming,
        ActivityType::Golf,
        ActivityType::Wheelchair,
        ActivityType::Rowing,
        ActivityType::Kayaking,
        ActivityType::Surfing,
        ActivityType::Hiking,
    ];

    /// The integer Arc's JSON stores for this case.
    pub open spec fn raw_value(self) -> i32 {
        match self {
            ActivityType::Unknown => -1i32,
            ActivityType::Bogus => 0i32,
            ActivityType::Stationary => 1i32,
            ActivityType::Walking => 2i32,
            ActivityType::Running => 3i32,
            ActivityType::Cycling => 4i32,
            ActivityType::Car => 5i32,
            ActivityType::Airplane => 6i32,
            ActivityType::Train => 20i32,
            ActivityType::Bus => 21i32,
            ActivityType::Motorcycle => 22i32,
            ActivityType::Boat => 23i32,
            ActivityType::Tram => 24i32,
            ActivityType::Tractor => 25i32,
            ActivityType::Tuktuk => 26i32,
            ActivityType::Songthaew => 27i32,
            ActivityType::Scooter => 28i32,
            ActivityType::Metro => 29i32,
            ActivityType::CableCar => 30i32,
            ActivityType::Funicular => 31i32,
            ActivityType::Chairlift => 32i32,
            ActivityType::SkiLift => 33i32,
            ActivityType::Taxi => 34i32,
            ActivityType::HotAirBalloon => 35i32,
            ActivityType::Skateboarding => 50i32,
            ActivityType::InlineSkating => 51i32,
            ActivityType::Snowboarding => 52i32,
            ActivityType::Skiing => 53i32,
            ActivityType::Horseback => 54i32,
            ActivityType::Swimming => 55i32,
            ActivityType::Golf => 56i32,
            ActivityType::Wheelchair => 57i32,
            ActivityType::Rowing => 58i32,
            ActivityType::Kayaking => 59i32,
            ActivityType::Surfing => 60i32,
            ActivityType::Hiking => 61i32,
            ActivityType::Other(raw) => raw,
        }
    }

    /// The case a raw value stands for; values upstream has not declared are kept as `Other`.
    pub open spec fn of_raw(raw: i32) -> Self {
        match raw {
            -1i32 => ActivityType::Unknown,
            0i32 => ActivityType::Bogus,
            1i32 => ActivityType::Stationary,
            2i32 => ActivityType::Walking,
            3i32 => ActivityType::Running,
            4i32 => ActivityType::Cycling,
            5i32 => ActivityType::Car,
            6i32 => ActivityType::Airplane,
            20i32 => ActivityType::Train,
            21i32 => ActivityType::Bus,
            22i32 => ActivityType::Motorcycle,
            23i32 => ActivityType::Boat,
            24i32 => ActivityType::Tram,
            25i32 => ActivityType::Tractor,
            26i32 => ActivityType::Tuktuk,
            27i32 => ActivityType::Songthaew,
            28i32 => ActivityType::Scooter,
            29i32 => ActivityType::Metro,
            30i32 => ActivityType::CableCar,
            31i32 => ActivityType::Funicular,
            32i32 => ActivityType::Chairlift,
            33i32 => ActivityType::SkiLift,
            34i32 => ActivityType::Taxi,
            35i32 => ActivityType::HotAirBalloon,
            50i32 => ActivityType::Skateboarding,
            51i32 => ActivityType::InlineSkating,
            52i32 => ActivityType::Snowboarding,
            53i32 => ActivityType::Skiing,
            54i32 => ActivityType::Horseback,
            55i32 => ActivityType::Swimming,
            56i32 => ActivityType::Golf,
            57i32 => ActivityType::Wheelchair,
            58i32 => ActivityType::Rowing,
            59i32 => ActivityType::Kayaking,
            60i32 => ActivityType::Surfing,
            61i32 => ActivityType::Hiking,
            other => ActivityType::Other(other),
        }
    }

    /// Whether this is one of the cases upstream declares.
    pub open spec fn is_declared(self) -> bool {
        !(self is Other)
    }

    /// The upstream camelCase case name; an undeclared case is written as its raw value.
    pub open spec fn label(self) -> Seq<char> {
        match self {
            ActivityType::Unknown => "unknown"@,
            ActivityType::Bogus => "bogus"@,
            ActivityType::Stationary => "stationary"@,
            ActivityType::Walking => "walking"@,
            ActivityType::Running => "running"@,
            ActivityType::Cycling => "cycling"@,
            ActivityType::Car => "car"@,
            ActivityType::Airplane => "airplane"@,
            ActivityType::Train => "train"@,
            ActivityType::Bus => "bus"@,
            ActivityType::Motorcycle => "motorcycle"@,
            ActivityType::Boat => "boat"@,
            ActivityType::Tram => "tram"@,
            ActivityType::Tractor => "tractor"@,
            ActivityType::Tuktuk => "tuktuk"@,
            ActivityType::Songthaew => "songthaew"@,
            ActivityType::Scooter => "scooter"@,
            ActivityType::Metro => "metro"@,
            ActivityType::CableCar => "cableCar"@,
            ActivityType::Funicular => "funicular"@,
            ActivityType::Chairlift => "chairlift"@,
            ActivityType::SkiLift => "skiLift"@,
            ActivityType::Taxi => "taxi"@,
            ActivityType::HotAirBalloon => "hotAirBalloon"@,
            ActivityType::Skateboarding => "skateboarding"@,
            ActivityType::InlineSkating => "inlineSkating"@,
            ActivityType::Snowboarding => "snowboarding"@,
            ActivityType::Skiing => "skiing"@,
            ActivityType::Horseback => "horseback"@,
            ActivityType::Swimming => "swimming"@,
            ActivityType::Golf => "golf"@,
            ActivityType::Wheelchair => "wheelchair"@,
            ActivityType::Rowing => "rowing"@,
            ActivityType::Kayaking => "kayaking"@,
            ActivityType::Surfing => "surfing"@,
            ActivityType::Hiking => "hiking"@,
            ActivityType::Other(raw) => signed_decimal(raw as int),
        }
    }

    /// The case a name reads as: a case name, or else a bare `i32` taken as an undeclared case.
    pub open spec fn of_name(name: Seq<char>) -> Option<Self> {
        if name == "unknown"@ {
            Some(ActivityType::Unknown)
        } else if name == "bogus"@ {
            Some(ActivityType::Bogus)
        } else if name == "stationary"@ {
            Some(ActivityType::Stationary)
        } else if name == "walking"@ {
            Some(ActivityType::Walking)
        } else if name == "running"@ {
            Some(ActivityType::Running)
        } else if name == "cycling"@ {
            Some(ActivityType::Cycling)
        } else if name == "car"@ {
            Some(ActivityType::Car)
        } else if name == "airplane"@ {
            Some(ActivityType::Airplane)
        } else if name == "train"@ {
            Some(ActivityType::Train)
        } else if name == "bus"@ {
            Some(ActivityType::Bus)
        } else if name == "motorcycle"@ {
            Some(ActivityType::Motorcycle)
        } else if name == "boat"@ {
            Some(ActivityType::Boat)
        } else if name == "tram"@ {
            Some(ActivityType::Tram)
        } else if name == "tractor"@ {
            Some(ActivityType::Tractor)
        } else if name == "tuktuk"@ {
            Some(ActivityType::Tuktuk)
        } else if name == "songthaew"@ {
            Some(ActivityType::Songthaew)
        } else if name == "scooter"@ {
            Some(ActivityType::Scooter)
        } else if name == "metro"@ {
            Some(ActivityType::Metro)
        } else if name == "cableCar"@ {
            Some(ActivityType::CableCar)
        } else if name == "funicular"@ {
            Some(ActivityType::Funicular)
        } else if name == "chairlift"@ {
            Some(ActivityType::Chairlift)
        } else if name == "skiLift"@ {
            Some(ActivityType::SkiLift)
        } else if name == "taxi"@ {
            Some(ActivityType::Taxi)
        } else if name == "hotAirBalloon"@ {
            Some(ActivityType::HotAirBalloon)
        } else if name == "skateboarding"@ {
            Some(ActivityType::Skateboarding)
        } else if name == "inlineSkating"@ {
            Some(ActivityType::InlineSkating)
        } else if name == "snowboarding"@ {
            Some(ActivityType::Snowboarding)
        } else if name == "skiing"@ {
            Some(ActivityType::Skiing)
        } else if name == "horseback"@ {
            Some(ActivityType::Horseback)
        } else if name == "swimming"@ {
            Some(ActivityType::Swimming)
        } else if name == "golf"@ {
            Some(ActivityType::Golf)
        } else if name == "wheelchair"@ {
            Some(ActivityType::Wheelchair)
        } else if name == "rowing"@ {
            Some(ActivityType::Rowing)
        } else if name == "kayaking"@ {
            Some(ActivityType::Kayaking)
        } else if name == "surfing"@ {
            Some(ActivityType::Surfing)
        } else if name == "hiking"@ {
            Some(ActivityType::Hiking)
        } else {
            match parsed_integer(name, true, i32::MIN as int, i32::MAX as int) {
                Some(raw) => Some(ActivityType::Other(raw as i32)),
                None => None,
            }
        }
    }

    pub fn from_raw(raw: i32) -> (r: Self)
        ensures
            r == Self::of_raw(raw),
    {
        match raw {
            -1 => ActivityType::Unknown,
            0 => ActivityType::Bogus,
            1 => ActivityType::Stationary,
            2 => ActivityType::Walking,
            3 => ActivityType::Running,
            4 => ActivityType::Cycling,
            5 => ActivityType::Car,
            6 => ActivityType::Airplane,
            20 => ActivityType::Train,
            21 => ActivityType::Bus,
            22 => ActivityType::Motorcycle,
            23 => ActivityType::Boat,
            24 => ActivityType::Tram,
            25 => ActivityType::Tractor,
            26 => ActivityType::Tuktuk,
            27 => ActivityType::Songthaew,
            28 => ActivityType::Scooter,
            29 => ActivityType::Metro,
            30 => ActivityType::CableCar,
            31 => ActivityType::Funicular,
            32 => ActivityType::Chairlift,
            33 => ActivityType::SkiLift,
            34 => ActivityType::Taxi,
            35 => ActivityType::HotAirBalloon,
            50 => ActivityType::Skateboarding,
            51 => ActivityType::InlineSkating,
            52 => ActivityType::Snowboarding,
            53 => ActivityType::Skiing,
            54 => ActivityType::Horseback,
            55 => ActivityType::Swimming,
            56 => ActivityType::Golf,
            57 => ActivityType::Wheelchair,
            58 => ActivityType::Rowing,
            59 => ActivityType::Kayaking,
            60 => ActivityType::Surfing,
            61 => ActivityType::Hiking,
            other => ActivityType::Other(other),
        }
    }

    pub fn raw(self) -> (r: i32)
        ensures
            r == self.raw_value(),
    {
        match self {
            ActivityType::Unknown => -1,
            ActivityType::Bogus => 0,
            ActivityType::Stationary => 1,
            ActivityType::Walking => 2,
            ActivityType::Running => 3,
            ActivityType::Cycling => 4,
            ActivityType::Car => 5,
            ActivityType::Airplane => 6,
            ActivityType::Train => 20,
            ActivityType::Bus => 21,
            ActivityType::Motorcycle => 22,
            ActivityType::Boat => 23,
            ActivityType::Tram => 24,
            ActivityType::Tractor => 25,
            ActivityType::Tuktuk => 26,
            ActivityType::Songthaew => 27,
            ActivityType::Scooter => 28,
            ActivityType::Metro => 29,
            ActivityType::CableCar => 30,
            ActivityType::Funicular => 31,
            ActivityType::Chairlift => 32,
            ActivityType::SkiLift => 33,
            ActivityType::Taxi => 34,
            ActivityType::HotAirBalloon => 35,
            ActivityType::Skateboarding => 50,
            ActivityType::InlineSkating => 51,
            ActivityType::Snowboarding => 52,
            ActivityType::Skiing => 53,
            ActivityType::Horseback => 54,
            ActivityType::Swimming => 55,
            ActivityType::Golf => 56,
            ActivityType::Wheelchair => 57,
            ActivityType::Rowing => 58,
            ActivityType::Kayaking => 59,
            ActivityType::Surfing => 60,
            ActivityType::Hiking => 61,
            ActivityType::Other(raw) => raw,
        }
    }

    /// The upstream camelCase case name; unknown cases render as their raw value.
    pub fn as_str(self) -> (r: String)
        ensures
            r@ == self.label(),
    {
        match self {
            ActivityType::Unknown => String::from_str("unknown"),
            ActivityType::Bogus => String::from_str("bogus"),
            ActivityType::Stationary => String::from_str("stationary"),
            ActivityType::Walking => String::from_str("walking"),
            ActivityType::Running => String::from_str("running"),
            ActivityType::Cycling => String::from_str("cycling"),
            ActivityType::Car => String::from_str("car"),
            ActivityType::Airplane => String::from_str("airplane"),
            ActivityType::Train => String::from_str("train"),
            ActivityType::Bus => String::from_str("bus"),
            ActivityType::Motorcycle => String::from_str("motorcycle"),
            ActivityType::Boat => String::from_str("boat"),
            ActivityType::Tram => String::from_str("tram"),
            ActivityType::Tractor => String::from_str("tractor"),
            ActivityType::Tuktuk => String::from_str("tuktuk"),
            ActivityType::Songthaew => String::from_str("songthaew"),
            ActivityType::Scooter => String::from_str("scooter"),
            ActivityType::Metro => String::from_str("metro"),
            ActivityType::CableCar => String::from_str("cableCar"),
            ActivityType::Funicular => String::from_str("funicular"),
            ActivityType::Chairlift => String::from_str("chairlift"),
            ActivityType::SkiLift => String::from_str("skiLift"),
            ActivityType::Taxi => String::from_str("taxi"),
            ActivityType::HotAirBalloon => String::from_str("hotAirBalloon"),
            ActivityType::Skateboarding => String::from_str("skateboarding"),
            ActivityType::InlineSkating => String::from_str("inlineSkating"),
            ActivityType::Snowboarding => String::from_str("snowboarding"),
            ActivityType::Skiing => String::from_str("skiing"),
            ActivityType::Horseback => String::from_str("horseback"),
            ActivityType::Swimming => String::from_str("swimming"),
            ActivityType::Golf => String::from_str("golf"),
            ActivityType::Wheelchair => String::from_str("wheelchair"),
            ActivityType::Rowing => String::from_str("rowing"),
            ActivityType::Kayaking => String::from_str("kayaking"),
            ActivityType::Surfing => String::from_str("surfing"),
            ActivityType::Hiking => String::from_str("hiking"),
            ActivityType::Other(raw) => decimal_i64(raw as i64),
        }
    }

    /// Reads a case name back, or a bare raw value as the way `as_str` writes undeclared cases.
    pub fn from_name(name: &str) -> (r: Result<Self, UnknownName>)
        ensures
            match r {
                Ok(v) => Self::of_name(name@) == Some(v),
                Err(e) => Self::of_name(name@) is None && e.enum_name@ == "ActivityType"@ && e.value@ == name@,
            },
    {
        if same_text(name, "unknown") {
            return Ok(ActivityType::Unknown);
        }
        if same_text(name, "bogus") {
            return Ok(ActivityType::Bogus);
        }
        if same_text(name, "stationary") {
            return Ok(ActivityType::Stationary);
        }
        if same_text(name, "walking") {
            return Ok(ActivityType::Walking);
        }
        if same_text(name, "running") {
            return Ok(ActivityType::Running);
        }
        if same_text(name, "cycling") {
            return Ok(ActivityType::Cycling);
        }
        if same_text(name, "car") {
            return Ok(ActivityType::Car);
        }
        if same_text(name, "airplane") {
            return Ok(ActivityType::Airplane);
        }
        if same_text(name, "train") {
            return Ok(ActivityType::Train);
        }
        if same_text(name, "bus") {
            return Ok(ActivityType::Bus);
        }
        if same_text(name, "motorcycle") {
            return Ok(ActivityType::Motorcycle);
        }
        if same_text(name, "boat") {
            return Ok(ActivityType::Boat);
        }
        if same_text(name, "tram") {
            return Ok(ActivityType::Tram);
        }
        if same_text(name, "tractor") {
            return Ok(ActivityType::Tractor);
        }
        if same_text(name, "tuktuk") {
            return Ok(ActivityType::Tuktuk);
        }
        if same_text(name, "songthaew") {
            return Ok(ActivityType::Songthaew);
        }
        if same_text(name, "scooter") {
            return Ok(ActivityType::Scooter);
        }
        if same_text(name, "metro") {
            return Ok(ActivityType::Metro);
        }
        if same_text(name, "cableCar") {
            return Ok(ActivityType::CableCar);
        }
        if same_text(name, "funicular") {
            return Ok(ActivityType::Funicular);
        }
        if same_text(name, "chairlift") {
            return Ok(ActivityType::Chairlift);
        }
        if same_text(name, "skiLift") {
            return Ok(ActivityType::SkiLift);
        }
        if same_text(name, "taxi") {
            return Ok(ActivityType::Taxi);
        }
        if same_text(name, "hotAirBalloon") {
            return Ok(ActivityType::HotAirBalloon);
        }
        if same_text(name, "skateboarding") {
            return Ok(ActivityType::Skateboarding);
        }
        if same_text(name, "inlineSkating") {
            return Ok(ActivityType::InlineSkating);
        }
        if same_text(name, "snowboarding") {
            return Ok(ActivityType::Snowboarding);
        }
        if same_text(name, "skiing") {
            return Ok(ActivityType::Skiing);
        }
        if same_text(name, "horseback") {
            return Ok(ActivityType::Horseback);
        }
        if same_text(name, "swimming") {
            return Ok(ActivityType::Swimming);
        }
        if same_text(name, "golf") {
            return Ok(ActivityType::Golf);
        }
        if same_text(name, "wheelchair") {
            return Ok(ActivityType::Wheelchair);
        }
        if same_text(name, "rowing") {
            return Ok(ActivityType::Rowing);
        }
        if same_text(name, "kayaking") {
            return Ok(ActivityType::Kayaking);
        }
        if same_text(name, "surfing") {
            return Ok(ActivityType::Surfing);
        }
        if same_text(name, "hiking") {
            return Ok(ActivityType::Hiking);
        }
        match parse_integer(name, true, i32::MIN as i128, i32::MAX as i128) {
            Some(raw) => Ok(ActivityType::Other(raw as i32)),
            None => Err(UnknownName { enum_name: "ActivityType", value: owned(name) }),
        }
    }

    /// Every raw value comes back unchanged from the case it reads as.
    pub proof fn raw_round_trip(raw: i32)
        ensures
            Self::of_raw(raw).raw_value() == raw,
    {
    }

    /// A declared case is read back from its own raw value.
    pub proof fn case_round_trip(v: Self)
        requires
            v.is_declared(),
        ensures
            Self::of_raw(v.raw_value()) == v,
    {
    }

    /// Whatever case goes out under its name, undeclared ones included, reads back as itself.
    pub proof fn name_round_trip(v: Self)
        ensures
            Self::of_name(v.label()) == Some(v),
    {
        match v {
            ActivityType::Other(raw) => Self::undeclared_name_round_trip(raw),
            _ => Self::declared_name_round_trip(v),
        }
    }

    #[verifier::spinoff_prover]
    proof fn declared_name_round_trip(v: Self)
        requires
            v.is_declared(),
        ensures
            Self::of_name(v.label()) == Some(v),
    {
        reveal_strlit("unknown");
        reveal_strlit("bogus");
        reveal_strlit("stationary");
        reveal_strlit("walking");
        reveal_strlit("running");
        reveal_strlit("cycling");
        reveal_strlit("car");
        reveal_strlit("airplane");
        reveal_strlit("train");
        reveal_strlit("bus");
        reveal_strlit("motorcycle");
        reveal_strlit("boat");
        reveal_strlit("tram");
        reveal_strlit("tractor");
        reveal_strlit("tuktuk");
        reveal_strlit("songthaew");
        reveal_strlit("scooter");
        reveal_strlit("metro");
        reveal_strlit("cableCar");
        reveal_strlit("funicular");
        reveal_strlit("chairlift");
        reveal_strlit("skiLift");
        reveal_strlit("taxi");
        reveal_strlit("hotAirBalloon");
        reveal_strlit("skateboarding");
        reveal_strlit("inlineSkating");
        reveal_strlit("snowboarding");
        reveal_strlit("skiing");
        reveal_strlit("horseback");
        reveal_strlit("swimming");
        reveal_strlit("golf");
        reveal_strlit("wheelchair");
        reveal_strlit("rowing");
        reveal_strlit("kayaking");
        reveal_strlit("surfing");
        reveal_strlit("hiking");
        match v {
            ActivityType::Walking => {
                assert("walking"@[0] != "unknown"@[0]);
            },
            ActivityType::Running => {
                assert("running"@[0] != "unknown"@[0]);
                assert("running"@[0] != "walking"@[0]);
            },
            ActivityType::Cycling => {
                assert("cycling"@[0] != "unknown"@[0]);
                assert("cycling"@[0] != "walking"@[0]);
                assert("cycling"@[0] != "running"@[0]);
            },
            ActivityType::Train => {
                assert("train"@[0] != "bogus"@[0]);
            },
            ActivityType::Bus => {
                assert("bus"@[0] != "car"@[0]);
            },
            ActivityType::Motorcycle => {
                assert("motorcycle"@[0] != "stationary"@[0]);
            },
            ActivityType::Tram => {
                assert("tram"@[0] != "boat"@[0]);
            },
            ActivityType::Tractor => {
                assert("tractor"@[0] != "unknown"@[0]);
                assert("tractor"@[0] != "walking"@[0]);
                assert("tractor"@[0] != "running"@[0]);
                assert("tractor"@[0] != "cycling"@[0]);
            },
            ActivityType::Scooter => {
                assert("scooter"@[0] != "unknown"@[0]);
                assert("scooter"@[0] != "walking"@[0]);
                assert("scooter"@[0] != "running"@[0]);
                assert("scooter"@[0] != "cycling"@[0]);
                assert("scooter"@[0] != "tractor"@[0]);
            },
            ActivityType::Metro => {
                assert("metro"@[0] != "bogus"@[0]);
                assert("metro"@[0] != "train"@[0]);
            },
            ActivityType::CableCar => {
                assert("cableCar"@[0] != "airplane"@[0]);
            },
            ActivityType::Funicular => {
                assert("funicular"@[0] != "songthaew"@[0]);
            },
            ActivityType::Chairlift => {
                assert("chairlift"@[0] != "songthaew"@[0]);
                assert("chairlift"@[0] != "funicular"@[0]);
            },
            ActivityType::SkiLift => {
                assert("skiLift"@[0] != "unknown"@[0]);
                assert("skiLift"@[0] != "walking"@[0]);
                assert("skiLift"@[0] != "running"@[0]);
                assert("skiLift"@[0] != "cycling"@[0]);
                assert("skiLift"@[0] != "tractor"@[0]);
                assert("skiLift"@[1] != "scooter"@[1]);
            },
            ActivityType::Taxi => {
                assert("taxi"@[0] != "boat"@[0]);
                assert("taxi"@[1] != "tram"@[1]);
            },
            ActivityType::Skateboarding => {
                assert("skateboarding"@[0] != "hotAirBalloon"@[0]);
            },
            ActivityType::InlineSkating => {
                assert("inlineSkating"@[0] != "hotAirBalloon"@[0]);
                assert("inlineSkating"@[0] != "skateboarding"@[0]);
            },
            ActivityType::Skiing => {
                assert("skiing"@[0] != "tuktuk"@[0]);
            },
            ActivityType::Horseback => {
                assert("horseback"@[0] != "songthaew"@[0]);
                assert("horseback"@[0] != "funicular"@[0]);
                assert("horseback"@[0] != "chairlift"@[0]);
            },
            ActivityType::Swimming => {
                assert("swimming"@[0] != "airplane"@[0]);
                assert("swimming"@[0] != "cableCar"@[0]);
            },
            ActivityType::Golf => {
                assert("golf"@[0] != "boat"@[0]);
                assert("golf"@[0] != "tram"@[0]);
                assert("golf"@[0] != "taxi"@[0]);
            },
            ActivityType::Wheelchair => {
                assert("wheelchair"@[0] != "stationary"@[0]);
                assert("wheelchair"@[0] != "motorcycle"@[0]);
            },
            ActivityType::Rowing => {
                assert("rowing"@[0] != "tuktuk"@[0]);
                assert("rowing"@[0] != "skiing"@[0]);
            },
            ActivityType::Kayaking => {
                assert("kayaking"@[0] != "airplane"@[0]);
                assert("kayaking"@[0] != "cableCar"@[0]);
                assert("kayaking"@[0] != "swimming"@[0]);
            },
            ActivityType::Surfing => {
                assert("surfing"@[0] != "unknown"@[0]);
                assert("surfing"@[0] != "walking"@[0]);
                assert("surfing"@[0] != "running"@[0]);
                assert("surfing"@[0] != "cycling"@[0]);
                assert("surfing"@[0] != "tractor"@[0]);
                assert("surfing"@[1] != "scooter"@[1]);
                assert("surfing"@[1] != "skiLift"@[1]);
            },
            ActivityType::Hiking => {
                assert("hiking"@[0] != "tuktuk"@[0]);
                assert("hiking"@[0] != "skiing"@[0]);
                assert("hiking"@[0] != "rowing"@[0]);
            },
            _ => {},
        }
    }

    #[verifier::spinoff_prover]
    proof fn undeclared_name_round_trip(raw: i32)
        ensures
            Self::of_name(signed_decimal(raw as int)) == Some(ActivityType::Other(raw)),
    {
        reveal_strlit("unknown");
        reveal_strlit("bogus");
        reveal_strlit("stationary");
        reveal_strlit("walking");
        reveal_strlit("running");
        reveal_strlit("cycling");
        reveal_strlit("car");
        reveal_strlit("airplane");
        reveal_strlit("train");
        reveal_strlit("bus");
        reveal_strlit("motorcycle");
        reveal_strlit("boat");
        reveal_strlit("tram");
        reveal_strlit("tractor");
        reveal_strlit("tuktuk");
        reveal_strlit("songthaew");
        reveal_strlit("scooter");
        reveal_strlit("metro");
        reveal_strlit("cableCar");
        reveal_strlit("funicular");
        reveal_strlit("chairlift");
        reveal_strlit("skiLift");
        reveal_strlit("taxi");
        reveal_strlit("hotAirBalloon");
        reveal_strlit("skateboarding");
        reveal_strlit("inlineSkating");
        reveal_strlit("snowboarding");
        reveal_strlit("skiing");
        reveal_strlit("horseback");
        reveal_strlit("swimming");
        reveal_strlit("golf");
        reveal_strlit("wheelchair");
        reveal_strlit("rowing");
        reveal_strlit("kayaking");
        reveal_strlit("surfing");
        reveal_strlit("hiking");
        lemma_signed_decimal_parses(raw as int, i32::MIN as int, i32::MAX as int);
        lemma_signed_decimal_starts(raw as int);
    }
}

impl std::str::FromStr for ActivityType {
    type Err = UnknownName;

    fn from_str(name: &str) -> (r: Result<Self, Self::Err>)
        ensures
            match r {
                Ok(v) => Self::of_name(name@) == Some(v),
                Err(e) => Self::of_name(name@) is None && e.enum_name@ == "ActivityType"@ && e.value@ == name@,
            },
    {
        Self::from_name(name)
    }
}

impl ActivityType {
    /// The activity type to show for a trip: a user confirmation wins over the classifier.
    pub fn resolved(confirmed: Option<ActivityType>, classified: Option<ActivityType>) -> (r: Option<
        ActivityType,
    >)
        ensures
            r == match confirmed {
                Some(a) => Some(a),
                None => classified,
            },
    {
        match confirmed {
            Some(a) => Some(a),
            None => classified,
        }
    }

    /// Mirrors upstream `isMovingType`: an unknown future case is assumed to be movement, since
    /// the only non-moving cases are the three that mean "not going anywhere".
    pub fn is_moving_type(self) -> (r: bool)
        ensures
            r == !(self is Unknown || self is Bogus || self is Stationary),
    {
        match self {
            ActivityType::Unknown | ActivityType::Bogus | ActivityType::Stationary => false,
            _ => true,
        }
    }
}

/// `LocomotionSample.movingState`.
#[derive(Debug, Clone, Copy, PartialEq, Eq, Hash, Structural)]
pub enum MovingState {
    Uncertain,
    Stationary,
    Moving,
    Other(i32),
}

impl MovingState {
    /// Every case upstream declares, in raw value order.
    pub const ALL: [MovingState; 3] = [
        MovingState::Uncertain,
        MovingState::Stationary,
        MovingState::Moving,
    ];

    /// The integer Arc's JSON stores for this case.
    pub open spec fn raw_value(self) -> i32 {
        match self {
            MovingState::Uncertain => -1i32,
            MovingState::Stationary => 0i32,
            MovingState::Moving => 1i32,
            MovingState::Other(raw) => raw,
        }
    }

    /// The case a raw value stands for; values upstream has not declared are kept as `Other`.
    pub open spec fn of_raw(raw: i32) -> Self {
        match raw {
            -1i32 => MovingState::Uncertain,
            0i32 => MovingState::Stationary,
            1i32 => MovingState::Moving,
            other => MovingState::Other(other),
        }
    }

    /// Whether this is one of the cases upstream declares.
    pub open spec fn is_declared(self) -> bool {
        !(self is Other)
    }

    /// The upstream camelCase case name; an undeclared case is written as its raw value.
    pub open spec fn label(self) -> Seq<char> {
        match self {
            MovingState::Uncertain => "uncertain"@,
            MovingState::Stationary => "stationary"@,
            MovingState::Moving => "moving"@,
            MovingState::Other(raw) => signed_decimal(raw as int),
        }
    }

    /// The case a name reads as: a case name, or else a bare `i32` taken as an undeclared case.
    pub open spec fn of_name(name: Seq<char>) -> Option<Self> {
        if name == "uncertain"@ {
            Some(MovingState::Uncertain)
        } else if name == "stationary"@ {
            Some(MovingState::Stationary)
        } else if name == "moving"@ {
            Some(MovingState::Moving)
        } else {
            match parsed_integer(name, true, i32::MIN as int, i32::MAX as int) {
                Some(raw) => Some(MovingState::Other(raw as i32)),
                None => None,
            }
        }
    }

    pub fn from_raw(raw: i32) -> (r: Self)
        ensures
            r == Self::of_raw(raw),
    {
        match raw {
            -1 => MovingState::Uncertain,
            0 => MovingState::Stationary,
            1 => MovingState::Moving,
            other => MovingState::Other(other),
        }
    }

    pub fn raw(self) -> (r: i32)
        ensures
            r == self.raw_value(),
    {
        match self {
            MovingState::Uncertain => -1,
            MovingState::Stationary => 0,
            MovingState::Moving => 1,
            MovingState::Other(raw) => raw,
        }
    }

    /// The upstream camelCase case name; unknown cases render as their raw value.
    pub fn as_str(self) -> (r: String)
        ensures
            r@ == self.label(),
    {
        match self {
            MovingState::Uncertain => String::from_str("uncertain"),
            MovingState::Stationary => String::from_str("stationary"),
            MovingState::Moving => String::from_str("moving"),
            MovingState::Other(raw) => decimal_i64(raw as i64),
        }
    }

    /// Reads a case name back, or a bare raw value as the way `as_str` writes undeclared cases.
    pub fn from_name(name: &str) -> (r: Result<Self, UnknownName>)
        ensures
            match r {
                Ok(v) => Self::of_name(name@) == Some(v),
                Err(e) => Self::of_name(name@) is None && e.enum_name@ == "MovingState"@ && e.value@ == name@,
            },
    {
        if same_text(name, "uncertain") {
            return Ok(MovingState::Uncertain);
        }
        if same_text(name, "stationary") {
            return Ok(MovingState::Stationary);
        }
        if same_text(name, "moving") {
            return Ok(MovingState::Moving);
        }
        match parse_integer(name, true, i32::MIN as i128, i32::MAX as i128) {
            Some(raw) => Ok(MovingState::Other(raw as i32)),
            None => Err(UnknownName { enum_name: "MovingState", value: owned(name) }),
        }
    }

    /// Every raw value comes back unchanged from the case it reads as.
    pub proof fn raw_round_trip(raw: i32)
        ensures
            Self::of_raw(raw).raw_value() == raw,
    {
    }

    /// A declared case is read back from its own raw value.
    pub proof fn case_round_trip(v: Self)
        requires
            v.is_declared(),
        ensures
            Self::of_raw(v.raw_value()) == v,
    {
    }

    /// Whatever case goes out under its name, undeclared ones included, reads back as itself.
    pub proof fn name_round_trip(v: Self)
        ensures
            Self::of_name(v.label()) == Some(v),
    {
        match v {
            MovingState::Other(raw) => Self::undeclared_name_round_trip(raw),
            _ => Self::declared_name_round_trip(v),
        }
    }

    #[verifier::spinoff_prover]
    proof fn declared_name_round_trip(v: Self)
        requires
            v.is_declared(),
        ensures
            Self::of_name(v.label()) == Some(v),
    {
        reveal_strlit("uncertain");
        reveal_strlit("stationary");
        reveal_strlit("moving");
        match v {
            _ => {},
        }
    }

    #[verifier::spinoff_prover]
    proof fn undeclared_name_round_trip(raw: i32)
        ensures
            Self::of_name(signed_decimal(raw as int)) == Some(MovingState::Other(raw)),
    {
        reveal_strlit("uncertain");
        reveal_strlit("stationary");
        reveal_strlit("moving");
        lemma_signed_decimal_parses(raw as int, i32::MIN as int, i32::MAX as int);
        lemma_signed_decimal_starts(raw as int);
    }
}

impl std::str::FromStr for MovingState {
    type Err = UnknownName;

    fn from_str(name: &str) -> (r: Result<Self, Self::Err>)
        ensures
            match r {
                Ok(v) => Self::of_name(name@) == Some(v),
                Err(e) => Self::of_name(name@) is None && e.enum_name@ == "MovingState"@ && e.value@ == name@,
            },
    {
        Self::from_name(name)
    }
}

/// `LocomotionSample.recordingState`.
#[derive(Debug, Clone, Copy, PartialEq, Eq, Hash, Structural)]
pub enum RecordingState {
    Off,
    Recording,
    Sleeping,
    DeepSleeping,
    Wakeup,
    Standby,
    Other(i32),
}

impl RecordingState {
    /// Every case upstream declares, in raw value order.
    pub const ALL: [RecordingState; 6] = [
        RecordingState::Off,
        RecordingState::Recording,
        RecordingState::Sleeping,
        RecordingState::DeepSleeping,
        RecordingState::Wakeup,
        RecordingState::Standby,
    ];

    /// The integer Arc's JSON stores for this case.
    pub open spec fn raw_value(self) -> i32 {
        match self {
            RecordingState::Off => 0i32,
            RecordingState::Recording => 1i32,
            RecordingState::Sleeping => 2i32,
            RecordingState::DeepSleeping => 3i32,
            RecordingState::Wakeup => 4i32,
            RecordingState::Standby => 5i32,
            RecordingState::Other(raw) => raw,
        }
    }

    /// The case a raw value stands for; values upstream has not declared are kept as `Other`.
    pub open spec fn of_raw(raw: i32) -> Self {
        match raw {
            0i32 => RecordingState::Off,
            1i32 => RecordingState::Recording,
            2i32 => RecordingState::Sleeping,
            3i32 => RecordingState::DeepSleeping,
            4i32 => RecordingState::Wakeup,
            5i32 => RecordingState::Standby,
            other => RecordingState::Other(other),
        }
    }

    /// Whether this is one of the cases upstream declares.
    pub open spec fn is_declared(self) -> bool {
        !(self is Other)
    }

    /// The upstream camelCase case name; an undeclared case is written as its raw value.
    pub open spec fn label(self) -> Seq<char> {
        match self {
            RecordingState::Off => "off"@,
            RecordingState::Recording => "recording"@,
            RecordingState::Sleeping => "sleeping"@,
            RecordingState::DeepSleeping => "deepSleeping"@,
            RecordingState::Wakeup => "wakeup"@,
            RecordingState::Standby => "standby"@,
            RecordingState::Other(raw) => signed_decimal(raw as int),
        }
    }

    /// The case a name reads as: a case name, or else a bare `i32` taken as an undeclared case.
    pub open spec fn of_name(name: Seq<char>) -> Option<Self> {
        if name == "off"@ {
            Some(RecordingState::Off)
        } else if name == "recording"@ {
            Some(RecordingState::Recording)
        } else if name == "sleeping"@ {
            Some(RecordingState::Sleeping)
        } else if name == "deepSleeping"@ {
            Some(RecordingState::DeepSleeping)
        } else if name == "wakeup"@ {
            Some(RecordingState::Wakeup)
        } else if name == "standby"@ {
            Some(RecordingState::Standby)
        } else {
            match parsed_integer(name, true, i32::MIN as int, i32::MAX as int) {
                Some(raw) => Some(RecordingState::Other(raw as i32)),
                None => None,
            }
        }
    }

    pub fn from_raw(raw: i32) -> (r: Self)
        ensures
            r == Self::of_raw(raw),
    {
        match raw {
            0 => RecordingState::Off,
            1 => RecordingState::Recording,
            2 => RecordingState::Sleeping,
            3 => RecordingState::DeepSleeping,
            4 => RecordingState::Wakeup,
            5 => RecordingState::Standby,
            other => RecordingState::Other(other),
        }
    }

    pub fn raw(self) -> (r: i32)
        ensures
            r == self.raw_value(),
    {
        match self {
            RecordingState::Off => 0,
            RecordingState::Recording => 1,
            RecordingState::Sleeping => 2,
            RecordingState::DeepSleeping => 3,
            RecordingState::Wakeup => 4,
            RecordingState::Standby => 5,
            RecordingState::Other(raw) => raw,
        }
    }

    /// The upstream camelCase case name; unknown cases render as their raw value.
    pub fn as_str(self) -> (r: String)
        ensures
            r@ == self.label(),
    {
        match self {
            RecordingState::Off => String::from_str("off"),
            RecordingState::Recording => String::from_str("recording"),
            RecordingState::Sleeping => String::from_str("sleeping"),
            RecordingState::DeepSleeping => String::from_str("deepSleeping"),
            RecordingState::Wakeup => String::from_str("wakeup"),
            RecordingState::Standby => String::from_str("standby"),
            RecordingState::Other(raw) => decimal_i64(raw as i64),
        }
    }

    /// Reads a case name back, or a bare raw value as the way `as_str` writes undeclared cases.
    pub fn from_name(name: &str) -> (r: Result<Self, UnknownName>)
        ensures
            match r {
                Ok(v) => Self::of_name(name@) == Some(v),
                Err(e) => Self::of_name(name@) is None && e.enum_name@ == "RecordingState"@ && e.value@ == name@,
            },
    {
        if same_text(name, "off") {
            return Ok(RecordingState::Off);
        }
        if same_text(name, "recording") {
            return Ok(RecordingState::Recording);
        }
        if same_text(name, "sleeping") {
            return Ok(RecordingState::Sleeping);
        }
        if same_text(name, "deepSleeping") {
            return Ok(RecordingState::DeepSleeping);
        }
        if same_text(name, "wakeup") {
            return Ok(RecordingState::Wakeup);
        }
        if same_text(name, "standby") {
            return Ok(RecordingState::Standby);
        }
        match parse_integer(name, true, i32::MIN as i128, i32::MAX as i128) {
            Some(raw) => Ok(RecordingState::Other(raw as i32)),
            None => Err(UnknownName { enum_name: "RecordingState", value: owned(name) }),
        }
    }

    /// Every raw value comes back unchanged from the case it reads as.
    pub proof fn raw_round_trip(raw: i32)
        ensures
            Self::of_raw(raw).raw_value() == raw,
    {
    }

    /// A declared case is read back from its own raw value.
    pub proof fn case_round_trip(v: Self)
        requires
            v.is_declared(),
        ensures
            Self::of_raw(v.raw_value()) == v,
    {
    }

    /// Whatever case goes out under its name, undeclared ones included, reads back as itself.
    pub proof fn name_round_trip(v: Self)
        ensures
            Self::of_name(v.label()) == Some(v),
    {
        match v {
            RecordingState::Other(raw) => Self::undeclared_name_round_trip(raw),
            _ => Self::declared_name_round_trip(v),
        }
    }

    #[verifier::spinoff_prover]
    proof fn declared_name_round_trip(v: Self)
        requires
            v.is_declared(),
        ensures
            Self::of_name(v.label()) == Some(v),
    {
        reveal_strlit("off");
        reveal_strlit("recording");
        reveal_strlit("sleeping");
        reveal_strlit("deepSleeping");
        reveal_strlit("wakeup");
        reveal_strlit("standby");
        match v {
            _ => {},
        }
    }

    #[verifier::spinoff_prover]
    proof fn undeclared_name_round_trip(raw: i32)
        ensures
            Self::of_name(signed_decimal(raw as int)) == Some(RecordingState::Other(raw)),
    {
        reveal_strlit("off");
        reveal_strlit("recording");
        reveal_strlit("sleeping");
        reveal_strlit("deepSleeping");
        reveal_strlit("wakeup");
        reveal_strlit("standby");
        lemma_signed_decimal_parses(raw as int, i32::MIN as int, i32::MAX as int);
        lemma_signed_decimal_starts(raw as int);
    }
}

impl std::str::FromStr for RecordingState {
    type Err = UnknownName;

    fn from_str(name: &str) -> (r: Result<Self, Self::Err>)
        ensures
            match r {
                Ok(v) => Self::of_name(name@) == Some(v),
                Err(e) => Self::of_name(name@) is None && e.enum_name@ == "RecordingState"@ && e.value@ == name@,
            },
    {
        Self::from_name(name)
    }
}

} // verus!
