//! Whether the user has reviewed an item yet.
//!
//! Arc records its own guesses and the user's corrections in different columns for visits and
//! trips, so the two flags are defined once here and read the same way by the derivation and
//! by the API.

use vstd::prelude::*;

verus! {

/// The columns a confirmation is read from, in order, for splicing into a SELECT.
pub const COLUMNS: &'static str = "is_visit, visit_confirmed_place, visit_uncertain_place,
     trip_confirmed_activity_type, trip_uncertain_activity_type";

#[derive(Debug, Clone, Copy, PartialEq, Eq, Structural)]
pub struct Confirmation {
    pub confirmed: bool,
    pub uncertain: bool,
}

impl Confirmation {
    /// A visit is confirmed when the user picked its place; a trip when it has a confirmed
    /// activity type at all, which Arc leaves NULL until someone says so.
    pub fn new(
        is_visit: bool,
        visit_confirmed_place: Option<i64>,
        visit_uncertain_place: Option<i64>,
        trip_confirmed_activity_type: Option<i64>,
        trip_uncertain_activity_type: Option<i64>,
    ) -> (result: Self)
        ensures
            is_visit ==> result.confirmed == (visit_confirmed_place == Some(1i64)),
            is_visit ==> result.uncertain == (visit_uncertain_place == Some(1i64)),
            !is_visit ==> result.confirmed == (trip_confirmed_activity_type is Some),
            !is_visit ==> result.uncertain == (trip_uncertain_activity_type == Some(1i64)),
    {
        if is_visit {
            Self {
                confirmed: visit_confirmed_place == Some(1),
                uncertain: visit_uncertain_place == Some(1),
            }
        } else {
            Self {
                confirmed: trip_confirmed_activity_type.is_some(),
                uncertain: trip_uncertain_activity_type == Some(1),
            }
        }
    }
}

} // verus!
