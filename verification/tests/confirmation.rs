use arches::confirmation::Confirmation;

#[test]
fn a_visit_reads_only_its_own_columns() {
    let confirmed = Confirmation::new(true, Some(1), Some(0), None, None);
    assert_eq!(
        confirmed,
        Confirmation {
            confirmed: true,
            uncertain: false
        }
    );
    // A trip's confirmed type sitting on a visit row means nothing.
    let unconfirmed = Confirmation::new(true, Some(0), Some(1), Some(24), Some(1));
    assert_eq!(
        unconfirmed,
        Confirmation {
            confirmed: false,
            uncertain: true
        }
    );
    assert!(!Confirmation::new(true, None, None, None, None).confirmed);
}

#[test]
fn a_trip_is_confirmed_by_having_any_activity_type() {
    assert!(Confirmation::new(false, None, None, Some(24), Some(0)).confirmed);
    // Even an activity type arches does not know the name of is a user decision.
    assert!(Confirmation::new(false, None, None, Some(99), Some(1)).confirmed);
    let unreviewed = Confirmation::new(false, Some(1), Some(0), None, Some(1));
    assert_eq!(
        unreviewed,
        Confirmation {
            confirmed: false,
            uncertain: true
        }
    );
}
