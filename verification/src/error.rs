//! Errors reported by the library.
use vstd::prelude::*;

use crate::types::{RaptorStopId, StreetNodeId, Time};

verus! {

/// Which flattened slice a range check refers to.
#[derive(Debug, Clone, Copy, PartialEq, Eq)]
pub enum SliceField {
    StopRoutes,
    StopTransfers,
    RouteStops,
    RouteStopTimes,
}

/// A failure reported by the transit search engine.
#[derive(Debug, Clone)]
pub struct RaptorError {
    pub description: String,
}

/// What is wrong with some data.
#[allow(inconsistent_fields)]
#[derive(Debug, Clone)]
pub enum DataIssue {
    /// `start + len` of a slice does not fit in `usize`.
    RangeOverflow { field: SliceField, index: usize, start: usize, len: usize },
    /// A stop's `stop_routes` slice ends past the array.
    StopRoutesOutOfBounds { stop: usize, start: usize, end: usize, len: usize },
    /// A stop's `transfers` slice ends past the array.
    StopTransfersOutOfBounds { stop: usize, start: usize, end: usize, len: usize },
    /// `stop_routes[index]` names a route that does not exist.
    InvalidRouteReference { index: usize, route: usize },
    /// `transfers[index]` targets a stop that does not exist.
    InvalidTransferTarget { index: usize, stop: RaptorStopId },
    /// `node_to_stop` maps a node to a stop that does not exist.
    InvalidNodeStop { node: StreetNodeId, stop: RaptorStopId },
    /// A route's `route_stops` slice ends past the array.
    RouteStopsOutOfBounds { route: usize, start: usize, end: usize, len: usize },
    /// `num_trips * num_stops` of a route does not fit in `usize`.
    StopTimeLayoutOverflow { route: usize, num_trips: usize, num_stops: usize },
    /// A route's `stop_times` slice ends past the array.
    RouteStopTimesOutOfBounds { route: usize, start: usize, end: usize, len: usize },
    /// A route has no entry in `trips`.
    MissingTripMetadata { route: usize },
    /// A route's trip metadata has the wrong length.
    TripCountMismatch { route: usize, expected: usize, got: usize },
    /// A route's stop pattern names a stop that does not exist.
    InvalidRouteStop { route: usize, offset: usize, stop: RaptorStopId },
    /// A departure later than two days after midnight.
    InvalidDepartureTime { departure: Time },
    /// The transit search failed.
    Raptor(RaptorError),
    /// A walkable way starts at an OSM node that was not read.
    MissingSourceNode { node: i64 },
    /// A walkable way ends at an OSM node that was not read.
    MissingTargetNode { node: i64 },
    /// The street graph has no nodes.
    NoConnectedComponents,
    /// The configuration lists no GTFS directory.
    NoGtfsDirectories,
    /// Not an H3 grid resolution (0 to 15).
    InvalidResolution { resolution: u8 },
}

/// Which required input is missing.
#[derive(Debug, Clone, Copy, PartialEq, Eq)]
pub enum MissingInput {
    /// The OSM extract.
    OsmFile,
    /// The GTFS directory at this position of the configuration.
    GtfsDirectory(usize),
}

/// Why a persisted artifact was refused.
#[allow(inconsistent_fields)]
#[derive(Debug, Clone, Copy, PartialEq, Eq)]
pub enum FormatIssue {
    /// The file does not start with the artifact magic.
    NotAnArtifact,
    /// The layout version is not the one this build reads.
    UnsupportedVersion { found: u16 },
    /// The kind byte names no artifact kind.
    UnknownKind { byte: u8 },
    /// The file holds another kind of artifact.
    WrongKind { found: u8, expected: u8 },
    /// The file was written by another build of the library.
    CrateVersionMismatch,
}

/// Library error.
#[derive(Debug, Clone)]
pub enum Error {
    /// Invalid or inconsistent data.
    InvalidData(DataIssue),
    /// No street network node is within walking range.
    NoPointsFound,
    /// A required input does not exist.
    NotFound(MissingInput),
    /// A persisted artifact is not readable by this build.
    IncompatibleFormat(FormatIssue),
    /// Input ended before a complete header was read.
    UnexpectedEof,
}

} // verus!
