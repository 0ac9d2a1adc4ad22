//! Cell-status values held by the pathfinding grid maps.

use vstd::prelude::*;

verus! {

/// A two-valued cell status: a default (clear) value and a flagged value.
/// Rasterization writes the flagged value into cells covered by a shape and
/// the default value elsewhere.
pub trait CellStatus: Sized + Copy {
    /// The clear value, held by cells no shape covers.
    spec fn default_spec() -> Self;

    /// The flagged value, held by cells some shape covers.
    spec fn flagged_spec() -> Self;

    /// The two values differ.
    proof fn lemma_distinct()
        ensures
            Self::default_spec() != Self::flagged_spec(),
    ;

    fn default_value() -> (r: Self)
        ensures
            r == Self::default_spec(),
    ;

    fn get_non_default_value() -> (r: Self)
        ensures
            r == Self::flagged_spec(),
    ;

    fn is_flagged(self) -> (b: bool)
        ensures
            b == (self == Self::flagged_spec()),
    ;
}

/// Whether a cell is covered by an obstacle.
#[derive(Clone, Copy, Debug, PartialEq, Eq, Structural)]
pub enum BlockedStatus {
    Empty,
    Blocked,
}

impl CellStatus for BlockedStatus {
    open spec fn default_spec() -> Self {
        BlockedStatus::Empty
    }

    open spec fn flagged_spec() -> Self {
        BlockedStatus::Blocked
    }

    proof fn lemma_distinct() {
    }

    fn default_value() -> Self {
        BlockedStatus::Empty
    }

    fn get_non_default_value() -> Self {
        BlockedStatus::Blocked
    }

    fn is_flagged(self) -> bool {
        match self {
            BlockedStatus::Blocked => true,
            BlockedStatus::Empty => false,
        }
    }
}

/// Whether a cell is covered by a navigation target.
#[derive(Clone, Copy, Debug, PartialEq, Eq, Structural)]
pub enum TargetStatus {
    NotTarget,
    IsTarget,
}

impl CellStatus for TargetStatus {
    open spec fn default_spec() -> Self {
        TargetStatus::NotTarget
    }

    open spec fn flagged_spec() -> Self {
        TargetStatus::IsTarget
    }

    proof fn lemma_distinct() {
    }

    fn default_value() -> Self {
        TargetStatus::NotTarget
    }

    fn get_non_default_value() -> Self {
        TargetStatus::IsTarget
    }

    fn is_flagged(self) -> bool {
        match self {
            TargetStatus::IsTarget => true,
            TargetStatus::NotTarget => false,
        }
    }
}

/// A cell's distance to the nearest reachable target, in thousandths of an
/// axis step (a diagonal step costs 1414).  `Unreachable` marks blocked
/// cells, `NotComputed` cells the wavefront never reached.
#[derive(Clone, Copy, Debug, PartialEq, Eq, Structural)]
pub enum TargetProximity {
    Unreachable,
    NotComputed,
    Computed(u64),
}

} // verus!
