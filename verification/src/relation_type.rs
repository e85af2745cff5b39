//! The four kinds of precedence relation between two assignments.

use vstd::prelude::*;

verus! {

#[derive(Clone, Copy, PartialEq, Eq, Structural, Debug)]
pub enum RelationType {
    FinishToFinish,
    FinishToStart,
    StartToFinish,
    StartToStart,
}

impl RelationType {
    /// The numeric code a relation kind is persisted under.
    pub open spec fn code_spec(self) -> int {
        match self {
            RelationType::FinishToFinish => 0,
            RelationType::FinishToStart => 1,
            RelationType::StartToFinish => 2,
            RelationType::StartToStart => 3,
        }
    }

    /// Decode a persisted relation-type code; every code outside `0..=3` is
    /// rejected.
    pub fn from_code(value: i32) -> (r: Result<RelationType, ()>)
        ensures
            r is Ok <==> 0 <= value <= 3,
            r is Ok ==> r->Ok_0.code_spec() == value,
    {
        match value {
            0 => Ok(RelationType::FinishToFinish),
            1 => Ok(RelationType::FinishToStart),
            2 => Ok(RelationType::StartToFinish),
            3 => Ok(RelationType::StartToStart),
            _ => Err(()),
        }
    }

    /// The inverse of `from_code`.
    pub fn code(self) -> (r: i32)
        ensures
            r as int == self.code_spec(),
    {
        match self {
            RelationType::FinishToFinish => 0,
            RelationType::FinishToStart => 1,
            RelationType::StartToFinish => 2,
            RelationType::StartToStart => 3,
        }
    }
}

} // verus!
