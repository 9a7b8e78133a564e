use std::str::FromStr;

use arches::enums::{ActivityType, MovingState, RecordingState};

#[test]
fn activity_types_round_trip_through_raw_and_name() {
    for value in ActivityType::ALL {
        assert_eq!(ActivityType::from_raw(value.raw()), value);
    }
    for value in ActivityType::ALL {
        let name = value.as_str();
        assert_eq!(ActivityType::from_str(&name).unwrap(), value, "name round trip {name}");
    }
    assert_eq!(ActivityType::from_raw(24), ActivityType::Tram);
    assert_eq!(ActivityType::Tram.as_str(), "tram");
    assert_eq!(ActivityType::CableCar.as_str(), "cableCar");
    assert_eq!(ActivityType::Unknown.as_str(), "unknown");
    assert_eq!(ActivityType::Bogus.as_str(), "bogus");
}

#[test]
fn moving_and_recording_states_round_trip() {
    for value in MovingState::ALL {
        assert_eq!(MovingState::from_raw(value.raw()), value);
        assert_eq!(MovingState::from_str(&value.as_str()).unwrap(), value);
    }
    for value in RecordingState::ALL {
        assert_eq!(RecordingState::from_raw(value.raw()), value);
        assert_eq!(RecordingState::from_str(&value.as_str()).unwrap(), value);
    }
}

#[test]
fn unknown_raw_values_become_other() {
    let parsed = ActivityType::from_raw(99);
    assert_eq!(parsed, ActivityType::Other(99));
    assert_eq!(parsed.raw(), 99);
    assert_eq!(parsed.as_str(), "99");
    assert_eq!(ActivityType::from_str("99").unwrap(), parsed);

    assert_eq!(MovingState::from_raw(7), MovingState::Other(7));
    assert_eq!(RecordingState::from_raw(-3), RecordingState::Other(-3));
}

#[test]
fn unparseable_names_are_rejected() {
    let error = ActivityType::from_str("teleporting").unwrap_err();
    assert_eq!(error.enum_name, "ActivityType");
    assert!(MovingState::from_str("hovering").is_err());
}

#[test]
fn moving_classification_matches_upstream() {
    for value in ActivityType::ALL {
        let expected = !matches!(
            value,
            ActivityType::Unknown | ActivityType::Bogus | ActivityType::Stationary
        );
        assert_eq!(value.is_moving_type(), expected, "{}", value.as_str());
    }
    assert!(!ActivityType::Stationary.is_moving_type());
    assert!(ActivityType::Tram.is_moving_type());
    // A future case is assumed to move; only the three known idle cases are not.
    assert!(ActivityType::Other(99).is_moving_type());
}

#[test]
fn every_raw_value_reads_back_unchanged() {
    for raw in [-5, -1, 0, 1, 6, 7, 19, 20, 35, 36, 49, 50, 61, 62, i32::MIN, i32::MAX] {
        assert_eq!(ActivityType::from_raw(raw).raw(), raw);
        assert_eq!(MovingState::from_raw(raw).raw(), raw);
        assert_eq!(RecordingState::from_raw(raw).raw(), raw);
    }
}

#[test]
fn undeclared_cases_read_back_from_their_names() {
    for raw in [-2, 7, 36, 1000, i32::MIN, i32::MAX] {
        let value = ActivityType::Other(raw);
        assert_eq!(ActivityType::from_name(&value.as_str()).unwrap(), value);
    }
    // A declared raw value written by hand is still the undeclared case it names.
    assert_eq!(ActivityType::from_name("24").unwrap(), ActivityType::Other(24));
    assert_eq!(ActivityType::from_name("+24").unwrap(), ActivityType::Other(24));
    assert!(ActivityType::from_name("").is_err());
    assert!(ActivityType::from_name("-").is_err());
    assert!(ActivityType::from_name("2147483648").is_err());
    let error = MovingState::from_name("hovering").unwrap_err();
    assert_eq!(error.enum_name, "MovingState");
    assert_eq!(error.value, "hovering");
}

#[test]
fn an_unknown_name_reads_as_a_sentence_with_the_value_quoted() {
    let error = MovingState::from_name("hovering").unwrap_err();
    assert_eq!(error.message(), "\"hovering\" is not a MovingState name");
    let error = ActivityType::from_name("say \"hi\"").unwrap_err();
    assert_eq!(error.message(), "\"say \\\"hi\\\"\" is not a ActivityType name");
}

#[test]
fn a_confirmation_wins_over_the_classifier() {
    assert_eq!(
        ActivityType::resolved(Some(ActivityType::Tram), Some(ActivityType::Bus)),
        Some(ActivityType::Tram)
    );
    assert_eq!(ActivityType::resolved(None, Some(ActivityType::Bus)), Some(ActivityType::Bus));
    assert_eq!(ActivityType::resolved(None, None), None);
}

#[test]
fn confirmed_activity_type_wins_over_classified() {
    // A trip classified as 5 (car) and confirmed as 24, as nothing, or as an undeclared 99.
    let trip = |confirmed: Option<i32>| {
        ActivityType::resolved(confirmed.map(ActivityType::from_raw), Some(ActivityType::from_raw(5)))
    };
    assert_eq!(trip(Some(24)), Some(ActivityType::Tram));
    assert_eq!(trip(None), Some(ActivityType::Car));
    assert_eq!(trip(Some(99)), Some(ActivityType::Other(99)));
}
