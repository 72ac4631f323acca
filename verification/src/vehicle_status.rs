//! The vehicle's state as the `vehicle_status` topic gives it.
use vstd::prelude::*;

verus! {

/// The arming state of an armed vehicle.
pub const ARMING_STATE_ARMED: u8 = 2;

/// Whether the vehicle is armed after a status message: what the message says,
/// or as before where it does not say.
pub open spec fn armed_after(armed: bool, arming_state: Option<u8>) -> bool {
    match arming_state {
        Some(state) => state == ARMING_STATE_ARMED,
        None => armed,
    }
}

/// Computes [`armed_after`].
pub fn next_armed(armed: bool, arming_state: Option<u8>) -> (r: bool)
    ensures
        r == armed_after(armed, arming_state),
{
    match arming_state {
        Some(state) => state == ARMING_STATE_ARMED,
        None => armed,
    }
}

/// The name of the flight mode with the given navigation state number.
pub open spec fn flight_mode_name(nav_state: u8) -> Seq<char> {
    if nav_state == 0 {
        "Manual"@
    } else if nav_state == 1 {
        "Altitude"@
    } else if nav_state == 2 {
        "Position"@
    } else if nav_state == 3 {
        "Mission"@
    } else if nav_state == 4 {
        "Loiter"@
    } else if nav_state == 5 {
        "Return"@
    } else if nav_state == 10 {
        "Acro"@
    } else if nav_state == 12 {
        "Descend"@
    } else if nav_state == 13 {
        "Termination"@
    } else if nav_state == 14 {
        "Offboard"@
    } else if nav_state == 15 {
        "Stabilized"@
    } else if nav_state == 17 {
        "Takeoff"@
    } else if nav_state == 18 {
        "Land"@
    } else if nav_state == 19 {
        "Follow Target"@
    } else if nav_state == 20 {
        "Precision Land"@
    } else if nav_state == 21 {
        "Orbit"@
    } else if nav_state == 22 {
        "VTOL Takeoff"@
    } else {
        "Unknown"@
    }
}

/// Computes [`flight_mode_name`].
pub fn nav_state_name(nav_state: u8) -> (r: &'static str)
    ensures
        r@ == flight_mode_name(nav_state),
{
    if nav_state == 0 {
        "Manual"
    } else if nav_state == 1 {
        "Altitude"
    } else if nav_state == 2 {
        "Position"
    } else if nav_state == 3 {
        "Mission"
    } else if nav_state == 4 {
        "Loiter"
    } else if nav_state == 5 {
        "Return"
    } else if nav_state == 10 {
        "Acro"
    } else if nav_state == 12 {
        "Descend"
    } else if nav_state == 13 {
        "Termination"
    } else if nav_state == 14 {
        "Offboard"
    } else if nav_state == 15 {
        "Stabilized"
    } else if nav_state == 17 {
        "Takeoff"
    } else if nav_state == 18 {
        "Land"
    } else if nav_state == 19 {
        "Follow Target"
    } else if nav_state == 20 {
        "Precision Land"
    } else if nav_state == 21 {
        "Orbit"
    } else if nav_state == 22 {
        "VTOL Takeoff"
    } else {
        "Unknown"
    }
}

/// Of the states that a message can give, only state 2 means armed; a message
/// without a state leaves things as they are.
pub proof fn law_only_one_state_is_armed(armed: bool, state: u8)
    ensures
        armed_after(armed, Some(state)) <==> state == 2,
        armed_after(armed, None) == armed,
{
}

/// No two flight modes share a name, save for those that are not known.
pub proof fn law_flight_modes_have_names_of_their_own(a: u8, b: u8)
    requires
        a != b,
        flight_mode_name(a) != "Unknown"@,
    ensures
        flight_mode_name(a) != flight_mode_name(b),
{
    reveal_strlit("Manual");
    reveal_strlit("Altitude");
    reveal_strlit("Position");
    reveal_strlit("Mission");
    reveal_strlit("Loiter");
    reveal_strlit("Return");
    reveal_strlit("Acro");
    reveal_strlit("Descend");
    reveal_strlit("Termination");
    reveal_strlit("Offboard");
    reveal_strlit("Stabilized");
    reveal_strlit("Takeoff");
    reveal_strlit("Land");
    reveal_strlit("Follow Target");
    reveal_strlit("Precision Land");
    reveal_strlit("Orbit");
    reveal_strlit("VTOL Takeoff");
    reveal_strlit("Unknown");
    let x = flight_mode_name(a);
    let y = flight_mode_name(b);
    assert(x.len() != y.len() || x[0] != y[0]);
}

} // verus!
