//! Street network components.
use vstd::prelude::*;

use crate::types::Time;

verus! {

/// Street graph edge (street segment).
#[derive(Debug, Clone, Copy, PartialEq, Eq)]
pub struct StreetEdge {
    /// Pedestrian crossing time in seconds.
    pub weight: Time,
}

impl StreetEdge {
    /// Time needed to walk along this edge.
    pub fn walking_time(&self) -> (t: Time)
        ensures
            t == self.weight,
    {
        self.weight
    }
}

} // verus!
