use std::collections::HashSet;

use ferrobus_core::collections::{NodeStopMap, WalkingTimes};
use ferrobus_core::error::{DataIssue, Error, SliceField};
use ferrobus_core::point::TransitPoint;
use ferrobus_core::streets::StreetEdge;
use ferrobus_core::transit::{audit_transit_model, checked_end, PublicTransitData, TransitModel, TransitModelMeta};
use ferrobus_core::types::{Coordinate, Route, Stop, Time, Transfer, Trip};

fn walking(entries: &[(u32, Time)]) -> WalkingTimes {
    let mut w = WalkingTimes::new();
    for &(n, t) in entries {
        w.insert(n, t);
    }
    w
}

/// Four street nodes in a square with 793 s edges; stops 0 and 1 at nodes 1
/// and 2.
fn create_test_data() -> PublicTransitData {
    let mut node_to_stop = NodeStopMap::new();
    node_to_stop.insert(1, 0);
    node_to_stop.insert(2, 1);
    PublicTransitData {
        routes: vec![],
        route_stops: vec![],
        stop_times: vec![],
        stops: vec![],
        stop_routes: vec![],
        transfers: vec![],
        node_to_stop,
        feeds_meta: vec![],
        trips: vec![],
        gtfs_transfers: vec![],
    }
}

/// Walking times from node 0 over the square.
fn paths_from_origin() -> WalkingTimes {
    walking(&[(0, 0), (1, 793), (2, 793), (3, 1586)])
}

fn origin() -> Coordinate {
    Coordinate { x_bits: 0, y_bits: 0 }
}

#[test]
fn test_new_transit_point() {
    let data = create_test_data();
    let transit_point = TransitPoint::new(origin(), Some((0, 0)), paths_from_origin(), &data, 1000, 5).unwrap();

    assert_eq!(transit_point.node_id, 0);
    assert_eq!(transit_point.nearest_stops.len(), 2);
    assert_eq!(transit_point.walking_paths.entries().len(), 4);
    let stop_ids: HashSet<_> = transit_point.nearest_stops.iter().map(|&(stop_id, _)| stop_id).collect();
    assert!(stop_ids.contains(&0));
    assert!(stop_ids.contains(&1));
}

#[test]
fn test_new_transit_point_with_insufficient_walking_time() {
    let data = create_test_data();
    let transit_point = TransitPoint::new(origin(), Some((0, 0)), walking(&[(0, 0)]), &data, 500, 5).unwrap();

    assert_eq!(transit_point.nearest_stops.len(), 0);
    assert!(!transit_point.walking_paths.entries().is_empty());
}

#[test]
fn test_new_transit_point_off_network() {
    let data = create_test_data();
    // The nearest node is two hours' walk away.
    let result = TransitPoint::new(origin(), Some((0, 7200)), WalkingTimes::new(), &data, 1800, 5);
    assert!(matches!(result, Err(Error::NoPointsFound)));
    let no_network = TransitPoint::new(origin(), None, WalkingTimes::new(), &data, 1800, 5);
    assert!(matches!(no_network, Err(Error::NoPointsFound)));
}

#[test]
fn test_new_transit_point_max_stops_limit() {
    let mut data = create_test_data();
    let mut paths = vec![(0, 0), (1, 793), (2, 793), (3, 1586)];
    for i in 0..8u32 {
        let node = 10 + i;
        data.node_to_stop.insert(node, (i + 2) as usize);
        paths.push((node, 500));
    }

    let transit_point = TransitPoint::new(origin(), Some((0, 0)), walking(&paths), &data, 2000, 3).unwrap();

    assert_eq!(transit_point.nearest_stops.len(), 3);
    let mut walking_times: Vec<_> = transit_point.nearest_stops.iter().map(|&(_, time)| time).collect();
    walking_times.sort_unstable();
    for i in 1..walking_times.len() {
        assert!(walking_times[i - 1] <= walking_times[i]);
    }
    assert!(walking_times.iter().all(|&t| t == 500));
}

#[test]
fn test_walking_time_to() {
    let data = create_test_data();
    let transit_point1 = TransitPoint::new(origin(), Some((0, 0)), paths_from_origin(), &data, 2000, 5).unwrap();
    let transit_point2 =
        TransitPoint::new(origin(), Some((3, 0)), walking(&[(3, 0), (1, 793), (2, 793), (0, 1586)]), &data, 2000, 5).unwrap();

    let time = transit_point1.walking_time_to(&transit_point2);
    assert!(time.is_some());
    if let Some(t) = time {
        assert!(t > 1500 && t < 1700);
    }
}

#[test]
fn nearest_stops_come_nearest_first_with_the_snap_distance_added() {
    let data = create_test_data();
    let point = TransitPoint::new(origin(), Some((0, 100)), walking(&[(0, 0), (1, 300), (2, 200)]), &data, 1000, 5).unwrap();
    assert_eq!(point.nearest_stops, vec![(1, 300), (0, 400)]);
    assert_eq!(point.nearest_stops(), vec![1, 0]);
}

fn stop(id: &str, transfers_start: usize, transfers_len: usize) -> Stop {
    Stop { stop_id: id.to_string(), geometry: origin(), routes_start: 0, routes_len: 0, transfers_start, transfers_len }
}

fn create_valid_structural_model() -> PublicTransitData {
    let mut data = create_test_data();
    data.stops = vec![stop("S0", 0, 0), stop("S1", 0, 0)];
    data
}

#[test]
fn audit_accepts_structurally_valid_model() {
    let data = create_valid_structural_model();
    assert!(audit_transit_model(&data).is_ok());
}

#[test]
fn audit_rejects_invalid_transfer_slice() {
    let mut data = create_test_data();
    data.stops.push(stop("S-invalid", 1, 1));
    let result = audit_transit_model(&data);
    assert!(matches!(result, Err(Error::InvalidData(_))));
}

#[test]
fn audit_reports_each_kind_of_inconsistency() {
    let mut bad_target = create_valid_structural_model();
    bad_target.transfers = vec![Transfer { target_stop: 9, duration: 0 }];
    assert!(matches!(
        audit_transit_model(&bad_target),
        Err(Error::InvalidData(DataIssue::InvalidTransferTarget { index: 0, stop: 9 }))
    ));

    let mut bad_route_ref = create_valid_structural_model();
    bad_route_ref.stop_routes = vec![3];
    assert!(matches!(
        audit_transit_model(&bad_route_ref),
        Err(Error::InvalidData(DataIssue::InvalidRouteReference { index: 0, route: 3 }))
    ));

    let mut missing_trips = create_valid_structural_model();
    missing_trips.routes = vec![Route { num_trips: 0, num_stops: 0, stops_start: 0, trips_start: 0, route_id: "R".to_string() }];
    assert!(matches!(
        audit_transit_model(&missing_trips),
        Err(Error::InvalidData(DataIssue::MissingTripMetadata { route: 0 }))
    ));

    let mut wrong_count = create_valid_structural_model();
    wrong_count.routes = vec![Route { num_trips: 2, num_stops: 0, stops_start: 0, trips_start: 0, route_id: "R".to_string() }];
    wrong_count.trips = vec![vec![Trip { trip_id: "T".to_string() }]];
    assert!(matches!(
        audit_transit_model(&wrong_count),
        Err(Error::InvalidData(DataIssue::TripCountMismatch { route: 0, expected: 2, got: 1 }))
    ));

    let mut bad_node = create_valid_structural_model();
    bad_node.node_to_stop.insert(7, 5);
    assert!(matches!(audit_transit_model(&bad_node), Err(Error::InvalidData(DataIssue::InvalidNodeStop { node: 7, stop: 5 }))));
}

#[test]
fn checked_end_reports_overflow() {
    assert_eq!(checked_end(3, 4, SliceField::RouteStops, 0).ok(), Some(7));
    assert!(matches!(
        checked_end(usize::MAX, 1, SliceField::StopRoutes, 2),
        Err(Error::InvalidData(DataIssue::RangeOverflow { field: SliceField::StopRoutes, index: 2, start: usize::MAX, len: 1 }))
    ));
}

#[test]
fn model_accessors_and_stop_lookups() {
    let data = create_valid_structural_model();
    let model = TransitModel::with_transit(data, TransitModelMeta { max_transfer_time: 600 });
    assert_eq!(model.stop_count(), 2);
    assert_eq!(model.route_count(), 0);
    assert_eq!(model.stops()[1].stop_id, "S1");
    assert!(model.feeds_meta().is_empty());
    assert_eq!(model.transit_data.transit_stop_name(1), Some("S1".to_string()));
    assert_eq!(model.transit_data.transit_stop_name(2), None);
    assert_eq!(model.transit_data.transit_stop_location(0), origin());
    assert_eq!(model.transit_data.get_trip_id(0, 0), None);
    assert_eq!(StreetEdge { weight: 793 }.walking_time(), 793);
}

#[test]
fn audit_reports_the_first_inconsistency_in_check_order() {
    // A bad transfer target and a bad route reference: stop routes are checked first.
    let mut both = create_valid_structural_model();
    both.transfers = vec![Transfer { target_stop: 9, duration: 0 }];
    both.stop_routes = vec![0, 4];
    assert!(matches!(
        audit_transit_model(&both),
        Err(Error::InvalidData(DataIssue::InvalidRouteReference { index: 0, route: 0 }))
    ));

    // A bad route and a bad node mapping: the node map is checked before routes.
    let mut node_and_route = create_valid_structural_model();
    node_and_route.routes = vec![Route { num_trips: 0, num_stops: 0, stops_start: 0, trips_start: 0, route_id: "R".to_string() }];
    node_and_route.node_to_stop.insert(7, 5);
    assert!(matches!(
        audit_transit_model(&node_and_route),
        Err(Error::InvalidData(DataIssue::InvalidNodeStop { node: 7, stop: 5 }))
    ));

    // Two routes with defects: the first route's is reported.
    let mut two_routes = create_valid_structural_model();
    two_routes.routes = vec![
        Route { num_trips: 2, num_stops: 0, stops_start: 0, trips_start: 0, route_id: "A".to_string() },
        Route { num_trips: 0, num_stops: 5, stops_start: 0, trips_start: 0, route_id: "B".to_string() },
    ];
    two_routes.trips = vec![vec![Trip { trip_id: "T".to_string() }]];
    assert!(matches!(
        audit_transit_model(&two_routes),
        Err(Error::InvalidData(DataIssue::TripCountMismatch { route: 0, expected: 2, got: 1 }))
    ));
}
