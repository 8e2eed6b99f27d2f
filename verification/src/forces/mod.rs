//! The three forces of a layout, and the choice of one variant of each
//! from the settings.

pub mod attraction;
pub mod gravity;
pub mod repulsion;

use crate::layout::{Layout, Settings};
use crate::util::Coord;
use vstd::prelude::*;

verus! {

/// The attraction along an edge: one of eight variants, over three
/// switches of the settings
#[derive(Clone, Copy, Debug, PartialEq, Eq, Structural)]
pub enum Attraction {
    /// Proportional to the distance
    Linear,
    /// Proportional to `ln(1 + distance)`
    Log,
    /// Proportional to the gap between the two discs
    NoOverlap,
    /// Proportional to `ln(1 + gap)`
    LogNoOverlap,
    /// `Linear`, the pull on the first node divided by its mass
    Hubs,
    /// `Log`, the pull on the first node divided by its mass
    HubsLog,
    /// `NoOverlap`, the pull on the first node divided by its mass
    HubsNoOverlap,
    /// `LogNoOverlap`, the pull on the first node divided by its mass
    HubsLogNoOverlap,
}

impl Attraction {
    /// The variant with the given switches
    pub open spec fn of(lin_log: bool, prevent_overlapping: bool, dissuade_hubs: bool) -> Self {
        if dissuade_hubs {
            if prevent_overlapping {
                if lin_log {
                    Attraction::HubsLogNoOverlap
                } else {
                    Attraction::HubsNoOverlap
                }
            } else {
                if lin_log {
                    Attraction::HubsLog
                } else {
                    Attraction::Hubs
                }
            }
        } else {
            if prevent_overlapping {
                if lin_log {
                    Attraction::LogNoOverlap
                } else {
                    Attraction::NoOverlap
                }
            } else {
                if lin_log {
                    Attraction::Log
                } else {
                    Attraction::Linear
                }
            }
        }
    }

    /// Whether the pull grows with the logarithm of the distance
    pub open spec fn lin_log(self) -> bool {
        self == Attraction::Log || self == Attraction::LogNoOverlap || self == Attraction::HubsLog
            || self == Attraction::HubsLogNoOverlap
    }

    /// Whether the sizes of the two nodes are taken off the distance
    pub open spec fn prevent_overlapping(self) -> bool {
        self == Attraction::NoOverlap || self == Attraction::LogNoOverlap || self
            == Attraction::HubsNoOverlap || self == Attraction::HubsLogNoOverlap
    }

    /// Whether the pull on the first node of an edge is divided by its mass
    pub open spec fn dissuade_hubs(self) -> bool {
        self == Attraction::Hubs || self == Attraction::HubsLog || self
            == Attraction::HubsNoOverlap || self == Attraction::HubsLogNoOverlap
    }

    /// The variant that the settings ask for
    pub open spec fn chosen<T>(settings: Settings<T>) -> Self {
        Self::of(
            settings.lin_log,
            settings.prevent_overlapping.is_some(),
            settings.dissuade_hubs,
        )
    }
}

/// The pull toward the origin
#[derive(Clone, Copy, Debug, PartialEq, Eq, Structural)]
pub enum Gravity {
    /// No gravity: the coefficient is zero
    Off,
    /// The pull weakens with the distance
    Weak,
    /// The pull does not weaken with the distance
    Strong,
}

impl Gravity {
    /// The variant that the settings ask for
    pub open spec fn chosen<T: Coord>(settings: Settings<T>) -> Self {
        if settings.kg.equals_spec(T::zero_spec()) {
            Gravity::Off
        } else if settings.strong_gravity {
            Gravity::Strong
        } else {
            Gravity::Weak
        }
    }
}

/// The push between nodes
#[derive(Clone, Copy, Debug, PartialEq, Eq, Structural)]
pub enum Repulsion {
    /// Inverse to the distance
    Plain,
    /// Inverse to the gap between the two discs, and constant once they
    /// touch
    NoOverlap,
}

impl Repulsion {
    /// The variant that the settings ask for
    pub open spec fn chosen<T>(settings: Settings<T>) -> Self {
        if settings.prevent_overlapping.is_some() {
            Repulsion::NoOverlap
        } else {
            Repulsion::Plain
        }
    }
}

impl<T: Coord, const N: usize> Layout<T, N> {
    /// The attraction that the settings ask for
    pub fn choose_attraction(settings: &Settings<T>) -> (kind: Attraction)
        ensures
            kind == Attraction::chosen(*settings),
    {
        if settings.prevent_overlapping.is_some() {
            if settings.lin_log {
                if settings.dissuade_hubs {
                    Attraction::HubsLogNoOverlap
                } else {
                    Attraction::LogNoOverlap
                }
            } else {
                if settings.dissuade_hubs {
                    Attraction::HubsNoOverlap
                } else {
                    Attraction::NoOverlap
                }
            }
        } else {
            if settings.lin_log {
                if settings.dissuade_hubs {
                    Attraction::HubsLog
                } else {
                    Attraction::Log
                }
            } else {
                if settings.dissuade_hubs {
                    Attraction::Hubs
                } else {
                    Attraction::Linear
                }
            }
        }
    }

    /// The gravity that the settings ask for
    pub fn choose_gravity(settings: &Settings<T>) -> (kind: Gravity)
        ensures
            kind == Gravity::chosen(*settings),
    {
        if settings.kg.equals(T::zero()) {
            return Gravity::Off;
        }
        if settings.strong_gravity {
            Gravity::Strong
        } else {
            Gravity::Weak
        }
    }

    /// The repulsion that the settings ask for
    pub fn choose_repulsion(settings: &Settings<T>) -> (kind: Repulsion)
        ensures
            kind == Repulsion::chosen(*settings),
    {
        if settings.prevent_overlapping.is_some() {
            Repulsion::NoOverlap
        } else {
            Repulsion::Plain
        }
    }
}

} // verus!
