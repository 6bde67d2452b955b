//! Core identifiers and the flat records of the transit model.
use vstd::prelude::*;

verus! {

/// Seconds, either a duration or a time of day (seconds since midnight).
pub type Time = u32;

/// Index of a stop in the flat stop array.
pub type RaptorStopId = usize;

/// Index of a route (a single stop pattern) in the flat route array.
pub type RouteId = usize;

/// Index of a street network node.
pub type StreetNodeId = u32;

/// A geographic position, kept as the IEEE-754 bit patterns of its
/// longitude (`x_bits`) and latitude (`y_bits`). The model carries
/// positions through without interpreting them.
#[derive(Debug, Clone, Copy, PartialEq, Eq)]
pub struct Coordinate {
    pub x_bits: u64,
    pub y_bits: u64,
}

/// One route: a set of trips that all serve the same stop sequence.
#[derive(Debug, Clone)]
pub struct Route {
    /// Number of trips.
    pub num_trips: usize,
    /// Number of stops in the stop pattern.
    pub num_stops: usize,
    /// Start of the pattern in `route_stops`.
    pub stops_start: usize,
    /// Start of the schedule in `stop_times` (trip-major layout).
    pub trips_start: usize,
    /// GTFS route identifier.
    pub route_id: String,
}

/// Arrival and departure of one trip at one stop.
#[derive(Debug, Clone, Copy, PartialEq, Eq)]
pub struct StopTime {
    pub arrival: Time,
    pub departure: Time,
}

/// A transit stop together with its slices into the flat arrays.
#[derive(Debug, Clone)]
pub struct Stop {
    /// GTFS stop identifier.
    pub stop_id: String,
    /// Stop position.
    pub geometry: Coordinate,
    /// Start of this stop's routes in `stop_routes`.
    pub routes_start: usize,
    /// Number of routes through this stop.
    pub routes_len: usize,
    /// Start of this stop's transfers in `transfers`.
    pub transfers_start: usize,
    /// Number of transfers from this stop.
    pub transfers_len: usize,
}

/// A walking transfer to another stop.
#[derive(Debug, Clone, Copy, PartialEq, Eq)]
pub struct Transfer {
    pub target_stop: RaptorStopId,
    pub duration: Time,
}

/// Trip metadata.
#[derive(Debug, Clone)]
pub struct Trip {
    pub trip_id: String,
}

/// Contents of a GTFS `feed_info.txt` row.
#[derive(Debug, Clone)]
pub struct FeedInfo {
    pub feed_publisher_name: String,
    pub feed_publisher_url: String,
    pub feed_lang: String,
    pub feed_start_date: Option<String>,
    pub feed_end_date: Option<String>,
    pub feed_version: Option<String>,
}

/// Metadata of one loaded feed.
#[derive(Debug, Clone)]
pub struct FeedMeta {
    pub feed_info: FeedInfo,
}

/// A row of GTFS `transfers.txt`.
#[derive(Debug, Clone)]
pub struct FeedTransfer {
    pub from_stop_id: String,
    pub to_stop_id: String,
    pub transfer_type: u8,
    pub min_transfer_time: Option<Time>,
}

} // verus!
