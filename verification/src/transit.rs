//! The flat public transit model and its structural audit.
use vstd::prelude::*;

use crate::collections::NodeStopMap;
use crate::error::{DataIssue, Error, SliceField};
use crate::types::{
    Coordinate, FeedMeta, FeedTransfer, RaptorStopId, Route, RouteId, Stop, StopTime,
    StreetNodeId, Time, Transfer, Trip,
};

verus! {

/// Public transit data in the flat layout used by RAPTOR.
pub struct PublicTransitData {
    /// All routes.
    pub routes: Vec<Route>,
    /// Stop patterns of all routes, concatenated.
    pub route_stops: Vec<RaptorStopId>,
    /// Schedules of all routes, concatenated (trip-major per route).
    pub stop_times: Vec<StopTime>,
    /// All stops.
    pub stops: Vec<Stop>,
    /// Routes through each stop, concatenated.
    pub stop_routes: Vec<RouteId>,
    /// Transfers from each stop, concatenated.
    pub transfers: Vec<Transfer>,
    /// Street node to the canonical stop snapped to it.
    pub node_to_stop: NodeStopMap,
    /// Metadata of the loaded feeds.
    pub feeds_meta: Vec<FeedMeta>,
    /// Trip metadata per route, in schedule order.
    pub trips: Vec<Vec<Trip>>,
    /// GTFS-defined transfers, merged into `transfers` when transfers are built.
    pub gtfs_transfers: Vec<FeedTransfer>,
}

/// Model-wide settings.
#[derive(Debug, Clone, Copy, PartialEq, Eq)]
pub struct TransitModelMeta {
    /// Longest walking transfer kept, in seconds.
    pub max_transfer_time: Time,
}

/// The transit side of the unified transport model: public transit data and
/// model-wide settings. The street network it was built against is held
/// beside it by the application.
pub struct TransitModel {
    pub transit_data: PublicTransitData,
    pub meta: TransitModelMeta,
}

impl TransitModel {
    /// A model of the given transit data and settings.
    pub fn with_transit(transit_data: PublicTransitData, meta: TransitModelMeta) -> (r: TransitModel)
        ensures
            r.transit_data == transit_data,
            r.meta == meta,
    {
        TransitModel { transit_data, meta }
    }

    /// Number of stops in the model.
    pub fn stop_count(&self) -> (r: usize)
        ensures
            r == self.transit_data.stops@.len(),
    {
        self.transit_data.stops.len()
    }

    /// Number of routes in the model.
    pub fn route_count(&self) -> (r: usize)
        ensures
            r == self.transit_data.routes@.len(),
    {
        self.transit_data.routes.len()
    }

    /// The stops of the model.
    pub fn stops(&self) -> (r: &[Stop])
        ensures
            r@ == self.transit_data.stops@,
    {
        self.transit_data.stops.as_slice()
    }

    /// Metadata of the loaded feeds.
    pub fn feeds_meta(&self) -> (r: &[FeedMeta])
        ensures
            r@ == self.transit_data.feeds_meta@,
    {
        self.transit_data.feeds_meta.as_slice()
    }
}

impl PublicTransitData {
    /// The stop's `stop_routes` and `transfers` slices lie inside their arrays.
    pub open spec fn stop_slices_fit(&self, i: int) -> bool {
        let s = self.stops@[i];
        &&& s.routes_start + s.routes_len <= self.stop_routes@.len()
        &&& s.transfers_start + s.transfers_len <= self.transfers@.len()
    }

    /// The route's slices lie inside their arrays, its trip metadata has one
    /// entry per trip and its stop pattern names existing stops.
    pub open spec fn route_fits(&self, r: int) -> bool {
        let route = self.routes@[r];
        &&& route.stops_start + route.num_stops <= self.route_stops@.len()
        &&& route.trips_start + route.num_trips * route.num_stops <= self.stop_times@.len()
        &&& r < self.trips@.len()
        &&& self.trips@[r]@.len() == route.num_trips
        &&& forall|k: int|
            route.stops_start <= k < route.stops_start + route.num_stops ==> #[trigger] self.route_stops@[k]
                < self.stops@.len()
    }

    /// Every flattened slice and every index in the model is in bounds.
    pub open spec fn well_formed(&self) -> bool {
        &&& forall|i: int| 0 <= i < self.stops@.len() ==> #[trigger] self.stop_slices_fit(i)
        &&& forall|k: int| 0 <= k < self.stop_routes@.len() ==> #[trigger] self.stop_routes@[k] < self.routes@.len()
        &&& forall|t: int| 0 <= t < self.transfers@.len() ==> #[trigger] self.transfers@[t].target_stop < self.stops@.len()
        &&& forall|n: StreetNodeId| #[trigger] self.node_to_stop@.contains_key(n) ==> self.node_to_stop@[n] < self.stops@.len()
        &&& forall|r: int| 0 <= r < self.routes@.len() ==> #[trigger] self.route_fits(r)
    }

    /// `issue` names a real violation of [`Self::well_formed`].
    pub open spec fn exhibits(&self, issue: DataIssue) -> bool {
        match issue {
            DataIssue::RangeOverflow { field, index, start, len } => start + len > usize::MAX && match field {
                SliceField::StopRoutes => index < self.stops@.len() && self.stops@[index as int].routes_start == start
                    && self.stops@[index as int].routes_len == len,
                SliceField::StopTransfers => index < self.stops@.len() && self.stops@[index as int].transfers_start
                    == start && self.stops@[index as int].transfers_len == len,
                SliceField::RouteStops => index < self.routes@.len() && self.routes@[index as int].stops_start == start
                    && self.routes@[index as int].num_stops == len,
                SliceField::RouteStopTimes => index < self.routes@.len() && self.routes@[index as int].trips_start
                    == start && self.routes@[index as int].num_trips * self.routes@[index as int].num_stops == len,
            },
            DataIssue::StopRoutesOutOfBounds { stop, start, end, len } => stop < self.stops@.len()
                && self.stops@[stop as int].routes_start == start && end == start + self.stops@[stop as int].routes_len
                && len == self.stop_routes@.len() && end > len,
            DataIssue::StopTransfersOutOfBounds { stop, start, end, len } => stop < self.stops@.len()
                && self.stops@[stop as int].transfers_start == start && end == start
                + self.stops@[stop as int].transfers_len && len == self.transfers@.len() && end > len,
            DataIssue::InvalidRouteReference { index, route } => index < self.stop_routes@.len()
                && self.stop_routes@[index as int] == route && route >= self.routes@.len(),
            DataIssue::InvalidTransferTarget { index, stop } => index < self.transfers@.len()
                && self.transfers@[index as int].target_stop == stop && stop >= self.stops@.len(),
            DataIssue::InvalidNodeStop { node, stop } => self.node_to_stop@.contains_key(node)
                && self.node_to_stop@[node] == stop && stop >= self.stops@.len(),
            DataIssue::RouteStopsOutOfBounds { route, start, end, len } => route < self.routes@.len()
                && self.routes@[route as int].stops_start == start && end == start
                + self.routes@[route as int].num_stops && len == self.route_stops@.len() && end > len,
            DataIssue::StopTimeLayoutOverflow { route, num_trips, num_stops } => route < self.routes@.len()
                && self.routes@[route as int].num_trips == num_trips && self.routes@[route as int].num_stops
                == num_stops && num_trips * num_stops > usize::MAX,
            DataIssue::RouteStopTimesOutOfBounds { route, start, end, len } => route < self.routes@.len()
                && self.routes@[route as int].trips_start == start && end == start + self.routes@[route as int].num_trips
                * self.routes@[route as int].num_stops && len == self.stop_times@.len() && end > len,
            DataIssue::MissingTripMetadata { route } => route < self.routes@.len() && route >= self.trips@.len(),
            DataIssue::TripCountMismatch { route, expected, got } => route < self.routes@.len() && route
                < self.trips@.len() && expected == self.routes@[route as int].num_trips && got
                == self.trips@[route as int]@.len() && expected != got,
            DataIssue::InvalidRouteStop { route, offset, stop } => route < self.routes@.len() && offset
                < self.routes@[route as int].num_stops && self.routes@[route as int].stops_start + offset
                < self.route_stops@.len() && self.route_stops@[self.routes@[route as int].stops_start + offset]
                == stop && stop >= self.stops@.len(),
            _ => false,
        }
    }


    /// The first defect of stop `i`'s slices, in the order they are checked:
    /// the routes slice's range, its bound, then the same for transfers.
    pub open spec fn stop_defect(&self, i: int) -> Option<DataIssue> {
        let s = self.stops@[i];
        if s.routes_start + s.routes_len > usize::MAX {
            Some(DataIssue::RangeOverflow { field: SliceField::StopRoutes, index: i as usize, start: s.routes_start, len: s.routes_len })
        } else if s.routes_start + s.routes_len > self.stop_routes@.len() {
            Some(
                DataIssue::StopRoutesOutOfBounds {
                    stop: i as usize,
                    start: s.routes_start,
                    end: (s.routes_start + s.routes_len) as usize,
                    len: self.stop_routes@.len() as usize,
                },
            )
        } else if s.transfers_start + s.transfers_len > usize::MAX {
            Some(
                DataIssue::RangeOverflow {
                    field: SliceField::StopTransfers,
                    index: i as usize,
                    start: s.transfers_start,
                    len: s.transfers_len,
                },
            )
        } else if s.transfers_start + s.transfers_len > self.transfers@.len() {
            Some(
                DataIssue::StopTransfersOutOfBounds {
                    stop: i as usize,
                    start: s.transfers_start,
                    end: (s.transfers_start + s.transfers_len) as usize,
                    len: self.transfers@.len() as usize,
                },
            )
        } else {
            None
        }
    }

    /// The defect of the first stop from `i` on that has one.
    pub open spec fn first_stop_defect(&self, i: int) -> Option<DataIssue>
        decreases self.stops@.len() - i,
    {
        if i < 0 || i >= self.stops@.len() {
            None
        } else if self.stop_defect(i) is Some {
            self.stop_defect(i)
        } else {
            self.first_stop_defect(i + 1)
        }
    }

    /// The first entry of `stop_routes` from `k` on that names no route.
    pub open spec fn first_route_reference_defect(&self, k: int) -> Option<DataIssue>
        decreases self.stop_routes@.len() - k,
    {
        if k < 0 || k >= self.stop_routes@.len() {
            None
        } else if self.stop_routes@[k] >= self.routes@.len() {
            Some(DataIssue::InvalidRouteReference { index: k as usize, route: self.stop_routes@[k] })
        } else {
            self.first_route_reference_defect(k + 1)
        }
    }

    /// The first transfer from `t` on that targets no stop.
    pub open spec fn first_transfer_defect(&self, t: int) -> Option<DataIssue>
        decreases self.transfers@.len() - t,
    {
        if t < 0 || t >= self.transfers@.len() {
            None
        } else if self.transfers@[t].target_stop >= self.stops@.len() {
            Some(DataIssue::InvalidTransferTarget { index: t as usize, stop: self.transfers@[t].target_stop })
        } else {
            self.first_transfer_defect(t + 1)
        }
    }

    /// Some street node is mapped to a stop that does not exist.
    pub open spec fn has_bad_node_stop(&self) -> bool {
        exists|n: StreetNodeId| #[trigger] self.node_to_stop@.contains_key(n) && self.node_to_stop@[n] >= self.stops@.len()
    }

    /// The first defect found by the checks that precede the node map's:
    /// stop slices, then stop routes, then transfer targets.
    pub open spec fn defect_before_nodes(&self) -> Option<DataIssue> {
        if self.first_stop_defect(0) is Some {
            self.first_stop_defect(0)
        } else if self.first_route_reference_defect(0) is Some {
            self.first_route_reference_defect(0)
        } else {
            self.first_transfer_defect(0)
        }
    }

    /// The first stop of route `r`'s pattern, from `offset` on, that does
    /// not exist.
    pub open spec fn route_stop_defect(&self, r: int, offset: int) -> Option<DataIssue>
        decreases self.routes@[r].num_stops - offset,
    {
        let route = self.routes@[r];
        if offset < 0 || offset >= route.num_stops {
            None
        } else if self.route_stops@[route.stops_start + offset] >= self.stops@.len() {
            Some(
                DataIssue::InvalidRouteStop {
                    route: r as usize,
                    offset: offset as usize,
                    stop: self.route_stops@[route.stops_start + offset],
                },
            )
        } else {
            self.route_stop_defect(r, offset + 1)
        }
    }

    /// The first defect of route `r`, in the order they are checked: its
    /// stops slice, its stop-times layout, its trip metadata, its pattern.
    pub open spec fn route_defect(&self, r: int) -> Option<DataIssue> {
        let route = self.routes@[r];
        let cells = route.num_trips * route.num_stops;
        if route.stops_start + route.num_stops > usize::MAX {
            Some(DataIssue::RangeOverflow { field: SliceField::RouteStops, index: r as usize, start: route.stops_start, len: route.num_stops })
        } else if route.stops_start + route.num_stops > self.route_stops@.len() {
            Some(
                DataIssue::RouteStopsOutOfBounds {
                    route: r as usize,
                    start: route.stops_start,
                    end: (route.stops_start + route.num_stops) as usize,
                    len: self.route_stops@.len() as usize,
                },
            )
        } else if cells > usize::MAX {
            Some(DataIssue::StopTimeLayoutOverflow { route: r as usize, num_trips: route.num_trips, num_stops: route.num_stops })
        } else if route.trips_start + cells > usize::MAX {
            Some(
                DataIssue::RangeOverflow { field: SliceField::RouteStopTimes, index: r as usize, start: route.trips_start, len: cells as usize },
            )
        } else if route.trips_start + cells > self.stop_times@.len() {
            Some(
                DataIssue::RouteStopTimesOutOfBounds {
                    route: r as usize,
                    start: route.trips_start,
                    end: (route.trips_start + cells) as usize,
                    len: self.stop_times@.len() as usize,
                },
            )
        } else if r >= self.trips@.len() {
            Some(DataIssue::MissingTripMetadata { route: r as usize })
        } else if self.trips@[r]@.len() != route.num_trips {
            Some(DataIssue::TripCountMismatch { route: r as usize, expected: route.num_trips, got: self.trips@[r]@.len() as usize })
        } else {
            self.route_stop_defect(r, 0)
        }
    }

    /// The defect of the first route from `r` on that has one.
    pub open spec fn first_route_defect(&self, r: int) -> Option<DataIssue>
        decreases self.routes@.len() - r,
    {
        if r < 0 || r >= self.routes@.len() {
            None
        } else if self.route_defect(r) is Some {
            self.route_defect(r)
        } else {
            self.first_route_defect(r + 1)
        }
    }

    /// A model that exhibits a violation is not well formed.
    pub proof fn lemma_exhibited_issue_is_violation(&self, issue: DataIssue)
        requires
            self.exhibits(issue),
        ensures
            !self.well_formed(),
    {
        assert(self.stop_routes.len() == self.stop_routes@.len());
        assert(self.transfers.len() == self.transfers@.len());
        assert(self.route_stops.len() == self.route_stops@.len());
        assert(self.stop_times.len() == self.stop_times@.len());
        match issue {
            DataIssue::RangeOverflow { field, index, start, len } => match field {
                SliceField::StopRoutes => assert(!self.stop_slices_fit(index as int)),
                SliceField::StopTransfers => assert(!self.stop_slices_fit(index as int)),
                SliceField::RouteStops => assert(!self.route_fits(index as int)),
                SliceField::RouteStopTimes => assert(!self.route_fits(index as int)),
            },
            DataIssue::StopRoutesOutOfBounds { stop, .. } => assert(!self.stop_slices_fit(stop as int)),
            DataIssue::StopTransfersOutOfBounds { stop, .. } => assert(!self.stop_slices_fit(stop as int)),
            DataIssue::InvalidRouteReference { index, .. } => assert(!(self.stop_routes@[index as int] < self.routes@.len())),
            DataIssue::InvalidTransferTarget { index, .. } => assert(!(self.transfers@[index as int].target_stop < self.stops@.len())),
            DataIssue::InvalidNodeStop { node, .. } => assert(self.node_to_stop@.contains_key(node)),
            DataIssue::RouteStopsOutOfBounds { route, .. } => assert(!self.route_fits(route as int)),
            DataIssue::StopTimeLayoutOverflow { route, .. } => assert(!self.route_fits(route as int)),
            DataIssue::RouteStopTimesOutOfBounds { route, .. } => assert(!self.route_fits(route as int)),
            DataIssue::MissingTripMetadata { route } => assert(!self.route_fits(route as int)),
            DataIssue::TripCountMismatch { route, .. } => assert(!self.route_fits(route as int)),
            DataIssue::InvalidRouteStop { route, offset, .. } => {
                let k = self.routes@[route as int].stops_start + offset;
                assert(!(self.route_stops@[k] < self.stops@.len()));
                assert(!self.route_fits(route as int));
            },
            _ => {},
        }
    }

    /// Routes through the given stop.
    pub fn routes_for_stop(&self, stop_idx: RaptorStopId) -> (r: &[RouteId])
        requires
            stop_idx < self.stops@.len(),
            self.stop_slices_fit(stop_idx as int),
        ensures
            r@ == self.stop_routes@.subrange(
                self.stops@[stop_idx as int].routes_start as int,
                self.stops@[stop_idx as int].routes_start + self.stops@[stop_idx as int].routes_len,
            ),
    {
        let start = self.stops[stop_idx].routes_start;
        assert(self.stop_routes.len() == self.stop_routes@.len());
        let end = start + self.stops[stop_idx].routes_len;
        vstd::slice::slice_subrange(self.stop_routes.as_slice(), start, end)
    }

    /// Position of a stop. An invalid stop id is a corrupted route state and
    /// is ruled out by the precondition.
    pub fn transit_stop_location(&self, stop_id: RaptorStopId) -> (c: Coordinate)
        requires
            stop_id < self.stops@.len(),
        ensures
            c == self.stops@[stop_id as int].geometry,
    {
        self.stops[stop_id].geometry
    }

    /// GTFS identifier of a stop, or `None` for an unknown stop id.
    pub fn transit_stop_name(&self, stop_id: RaptorStopId) -> (r: Option<String>)
        ensures
            stop_id < self.stops@.len() <==> r is Some,
            r matches Some(name) ==> name@ == self.stops@[stop_id as int].stop_id@,
    {
        if stop_id < self.stops.len() {
            Some(self.stops[stop_id].stop_id.clone())
        } else {
            None
        }
    }

    /// GTFS identifier of the given trip of a route, if both exist.
    pub fn get_trip_id(&self, route_id: RouteId, trip_idx: usize) -> (r: Option<&str>)
        ensures
            (route_id < self.trips@.len() && trip_idx < self.trips@[route_id as int]@.len()) <==> r is Some,
            r matches Some(id) ==> id@ == self.trips@[route_id as int]@[trip_idx as int].trip_id@,
    {
        if route_id < self.trips.len() && trip_idx < self.trips[route_id].len() {
            Some(self.trips[route_id][trip_idx].trip_id.as_str())
        } else {
            None
        }
    }
}

/// End of the slice `start..start + len`, or an overflow error naming the slice.
pub fn checked_end(start: usize, len: usize, field: SliceField, index: usize) -> (r: Result<usize, Error>)
    ensures
        start + len <= usize::MAX ==> r == Ok::<usize, Error>((start + len) as usize),
        start + len > usize::MAX ==> (r matches Err(Error::InvalidData(DataIssue::RangeOverflow { field: f, index: i, start: s, len: l }))
            && f == field && i == index && s == start && l == len),
{
    match start.checked_add(len) {
        Some(end) => Ok(end),
        None => Err(Error::InvalidData(DataIssue::RangeOverflow { field, index, start, len })),
    }
}


/// The audit's failure for an exhibited violation.
fn audit_failure(transit: &PublicTransitData, issue: DataIssue) -> (r: Result<(), Error>)
    requires
        transit.exhibits(issue),
    ensures
        r matches Err(Error::InvalidData(i)) && i == issue,
        !transit.well_formed(),
{
    proof {
        transit.lemma_exhibited_issue_is_violation(issue);
    }
    Err(Error::InvalidData(issue))
}

/// Audits the model for structural consistency: flattened slice bounds and
/// referenced stop and route indices. Succeeds exactly on well-formed models;
/// otherwise reports the first violation found, checking stop slices, stop
/// routes, transfer targets, the node map (in the map's own order) and
/// routes, in that order.
pub fn audit_transit_model(transit: &PublicTransitData) -> (r: Result<(), Error>)
    ensures
        r is Ok <==> transit.well_formed(),
        r matches Err(e) ==> (e matches Error::InvalidData(issue) && transit.exhibits(issue)),
        transit.defect_before_nodes() matches Some(d) ==> (r matches Err(Error::InvalidData(i)) && i == d),
        transit.defect_before_nodes() is None && transit.has_bad_node_stop() ==> (r matches Err(Error::InvalidData(i))
            && i is InvalidNodeStop && transit.exhibits(i)),
        transit.defect_before_nodes() is None && !transit.has_bad_node_stop() ==> match transit.first_route_defect(0) {
            Some(d) => (r matches Err(Error::InvalidData(i)) && i == d),
            None => r is Ok,
        },
{
    let stop_count = transit.stops.len();
    let route_count = transit.routes.len();

    let mut stop_idx: usize = 0;
    while stop_idx < stop_count
        invariant
            stop_count == transit.stops@.len(),
            stop_idx <= stop_count,
            forall|i: int| 0 <= i < stop_idx ==> #[trigger] transit.stop_slices_fit(i),
            transit.first_stop_defect(0) == transit.first_stop_defect(stop_idx as int),
        decreases stop_count - stop_idx,
    {
        let stop = &transit.stops[stop_idx];
        let routes_end = match checked_end(stop.routes_start, stop.routes_len, SliceField::StopRoutes, stop_idx) {
            Ok(end) => end,
            Err(e) => {
                proof {
                    transit.lemma_exhibited_issue_is_violation(e->InvalidData_0);
                    assert(transit.stop_defect(stop_idx as int) == Some(e->InvalidData_0));
                }
                return Err(e);
            },
        };
        if routes_end > transit.stop_routes.len() {
            return audit_failure(transit, DataIssue::StopRoutesOutOfBounds {
                stop: stop_idx,
                start: stop.routes_start,
                end: routes_end,
                len: transit.stop_routes.len(),
            });
        }
        let transfers_end = match checked_end(stop.transfers_start, stop.transfers_len, SliceField::StopTransfers, stop_idx) {
            Ok(end) => end,
            Err(e) => {
                proof {
                    transit.lemma_exhibited_issue_is_violation(e->InvalidData_0);
                    assert(transit.stop_defect(stop_idx as int) == Some(e->InvalidData_0));
                }
                return Err(e);
            },
        };
        if transfers_end > transit.transfers.len() {
            return audit_failure(transit, DataIssue::StopTransfersOutOfBounds {
                stop: stop_idx,
                start: stop.transfers_start,
                end: transfers_end,
                len: transit.transfers.len(),
            });
        }
        assert(transit.stop_defect(stop_idx as int) is None);
        stop_idx += 1;
    }
    assert(transit.first_stop_defect(0) is None);

    let mut k: usize = 0;
    while k < transit.stop_routes.len()
        invariant
            route_count == transit.routes@.len(),
            k <= transit.stop_routes@.len(),
            forall|j: int| 0 <= j < k ==> #[trigger] transit.stop_routes@[j] < route_count,
            transit.first_stop_defect(0) is None,
            transit.first_route_reference_defect(0) == transit.first_route_reference_defect(k as int),
        decreases transit.stop_routes@.len() - k,
    {
        let route_id = transit.stop_routes[k];
        if route_id >= route_count {
            return audit_failure(transit, DataIssue::InvalidRouteReference { index: k, route: route_id });
        }
        k += 1;
    }

    let mut t: usize = 0;
    while t < transit.transfers.len()
        invariant
            stop_count == transit.stops@.len(),
            t <= transit.transfers@.len(),
            forall|j: int| 0 <= j < t ==> #[trigger] transit.transfers@[j].target_stop < stop_count,
            transit.first_stop_defect(0) is None,
            transit.first_route_reference_defect(0) is None,
            transit.first_transfer_defect(0) == transit.first_transfer_defect(t as int),
        decreases transit.transfers@.len() - t,
    {
        let target = transit.transfers[t].target_stop;
        if target >= stop_count {
            return audit_failure(transit, DataIssue::InvalidTransferTarget { index: t, stop: target });
        }
        t += 1;
    }
    assert(transit.defect_before_nodes() is None);

    let entries = transit.node_to_stop.entries();
    let mut e: usize = 0;
    while e < entries.len()
        invariant
            stop_count == transit.stops@.len(),
            e <= entries@.len(),
            forall|i: int| 0 <= i < entries@.len() ==> #[trigger] transit.node_to_stop@.contains_key(entries@[i].0)
                && transit.node_to_stop@[entries@[i].0] == entries@[i].1,
            forall|j: int| 0 <= j < e ==> #[trigger] entries@[j].1 < stop_count,
            transit.defect_before_nodes() is None,
        decreases entries@.len() - e,
    {
        let (node, stop_id) = entries[e];
        if stop_id >= stop_count {
            proof {
                assert(transit.node_to_stop@.contains_key(entries@[e as int].0));
            }
            return audit_failure(transit, DataIssue::InvalidNodeStop { node, stop: stop_id });
        }
        e += 1;
    }
    assert forall|n: StreetNodeId| #[trigger] transit.node_to_stop@.contains_key(n) implies transit.node_to_stop@[n]
        < stop_count by {
        let i = choose|i: int| 0 <= i < entries@.len() && #[trigger] entries@[i].0 == n;
        assert(entries@[i].1 < stop_count);
    }
    assert(!transit.has_bad_node_stop());

    let mut route_idx: usize = 0;
    while route_idx < route_count
        invariant
            route_count == transit.routes@.len(),
            stop_count == transit.stops@.len(),
            route_idx <= route_count,
            forall|r: int| 0 <= r < route_idx ==> #[trigger] transit.route_fits(r),
            transit.defect_before_nodes() is None,
            !transit.has_bad_node_stop(),
            transit.first_route_defect(0) == transit.first_route_defect(route_idx as int),
        decreases route_count - route_idx,
    {
        let route = &transit.routes[route_idx];
        let stops_end = match checked_end(route.stops_start, route.num_stops, SliceField::RouteStops, route_idx) {
            Ok(end) => end,
            Err(e) => {
                proof {
                    transit.lemma_exhibited_issue_is_violation(e->InvalidData_0);
                    assert(transit.route_defect(route_idx as int) == Some(e->InvalidData_0));
                }
                return Err(e);
            },
        };
        if stops_end > transit.route_stops.len() {
            return audit_failure(transit, DataIssue::RouteStopsOutOfBounds {
                route: route_idx,
                start: route.stops_start,
                end: stops_end,
                len: transit.route_stops.len(),
            });
        }
        let stop_times_len = match route.num_trips.checked_mul(route.num_stops) {
            Some(n) => n,
            None => {
                return audit_failure(transit, DataIssue::StopTimeLayoutOverflow {
                    route: route_idx,
                    num_trips: route.num_trips,
                    num_stops: route.num_stops,
                });
            },
        };
        let stop_times_end = match checked_end(route.trips_start, stop_times_len, SliceField::RouteStopTimes, route_idx) {
            Ok(end) => end,
            Err(e) => {
                proof {
                    transit.lemma_exhibited_issue_is_violation(e->InvalidData_0);
                    assert(transit.route_defect(route_idx as int) == Some(e->InvalidData_0));
                }
                return Err(e);
            },
        };
        if stop_times_end > transit.stop_times.len() {
            return audit_failure(transit, DataIssue::RouteStopTimesOutOfBounds {
                route: route_idx,
                start: route.trips_start,
                end: stop_times_end,
                len: transit.stop_times.len(),
            });
        }
        if route_idx >= transit.trips.len() {
            return audit_failure(transit, DataIssue::MissingTripMetadata { route: route_idx });
        }
        if transit.trips[route_idx].len() != route.num_trips {
            return audit_failure(transit, DataIssue::TripCountMismatch {
                route: route_idx,
                expected: route.num_trips,
                got: transit.trips[route_idx].len(),
            });
        }
        assert(transit.route_defect(route_idx as int) == transit.route_stop_defect(route_idx as int, 0));
        let mut offset: usize = 0;
        while offset < route.num_stops
            invariant
                stop_count == transit.stops@.len(),
                route_idx < transit.routes@.len(),
                route == transit.routes@[route_idx as int],
                stops_end == route.stops_start + route.num_stops,
                stops_end <= transit.route_stops@.len(),
                offset <= route.num_stops,
                forall|k: int| route.stops_start <= k < route.stops_start + offset ==> #[trigger] transit.route_stops@[k]
                    < stop_count,
                transit.defect_before_nodes() is None,
                !transit.has_bad_node_stop(),
                transit.first_route_defect(0) == transit.first_route_defect(route_idx as int),
                transit.route_defect(route_idx as int) == transit.route_stop_defect(route_idx as int, offset as int),
            decreases route.num_stops - offset,
        {
            let stop_id = transit.route_stops[route.stops_start + offset];
            if stop_id >= stop_count {
                return audit_failure(transit, DataIssue::InvalidRouteStop { route: route_idx, offset, stop: stop_id });
            }
            offset += 1;
        }
        assert(transit.route_fits(route_idx as int));
        assert(transit.route_defect(route_idx as int) is None);
        route_idx += 1;
    }
    Ok(())
}

} // verus!
