//! Multimodal transit routing: structural model of a public transit network,
//! transfer generation, routing decisions and persistence framing.
use vstd::prelude::*;

pub mod collections;
pub mod error;
pub mod gtfs;
pub mod isochrone;
pub mod loading;
pub mod persist;
pub mod point;
pub mod relations;
pub mod routing;
pub mod snapping;
pub mod statistics;
pub mod streets;
pub mod traced;
pub mod transfers;
pub mod transit;
pub mod types;
pub mod variants;

verus! {

/// Maximum number of candidate stops checked per endpoint when a
/// multimodal query is routed through the transit network.
pub const MAX_CANDIDATE_STOPS: usize = 1;

} // verus!
