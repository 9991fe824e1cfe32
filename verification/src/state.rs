use vstd::prelude::*;

verus! {

/// Ternary infection state of a gossip node: `-1` susceptible, `0` carrier, `+1` infected.
#[derive(Debug, Clone, Copy, PartialEq, Eq, Structural, Hash)]
pub enum InfectionState {
    /// The node needs the update (-1).
    Susceptible,
    /// The node relays the update but has not fully applied it (0).
    Carrier,
    /// The node has received and applied the update (+1).
    Infected,
}

/// The numeric value of a state.
pub open spec fn state_value(s: InfectionState) -> int {
    match s {
        InfectionState::Susceptible => -1,
        InfectionState::Carrier => 0,
        InfectionState::Infected => 1,
    }
}

/// The state whose numeric value is `v`, if any.
pub open spec fn state_of_value(v: int) -> Option<InfectionState> {
    if v == -1 {
        Some(InfectionState::Susceptible)
    } else if v == 0 {
        Some(InfectionState::Carrier)
    } else if v == 1 {
        Some(InfectionState::Infected)
    } else {
        None
    }
}

impl InfectionState {
    /// Numeric value of the infection state.
    pub fn value(&self) -> (v: i8)
        ensures
            v == state_value(*self),
    {
        match self {
            InfectionState::Susceptible => -1,
            InfectionState::Carrier => 0,
            InfectionState::Infected => 1,
        }
    }

    /// Parse from an `i8` value; `None` for anything but -1, 0 and 1.
    pub fn from_value(v: i8) -> (r: Option<InfectionState>)
        ensures
            r == state_of_value(v as int),
    {
        match v {
            -1 => Some(InfectionState::Susceptible),
            0 => Some(InfectionState::Carrier),
            1 => Some(InfectionState::Infected),
            _ => None,
        }
    }
}

} // verus!
