use ferrobus_core::collections::{NodeStopMap, WalkingTimes};
use ferrobus_core::error::{DataIssue, Error, RaptorError};
use ferrobus_core::point::TransitPoint;
use ferrobus_core::routing::{
    create_transit_result, create_walking_result, is_walking_better, multimodal_routing, multimodal_routing_one_to_many,
    CandidateJourney, TargetArrival, MAX_DEPARTURE_TIME,
};
use ferrobus_core::traced::{traced_multimodal_routing, TracedChoice, TracedLeg};
use ferrobus_core::transit::PublicTransitData;
use ferrobus_core::types::{Coordinate, Route, Stop, StopTime, Time, Transfer, Trip};

fn stop(id: &str, routes_start: usize, routes_len: usize, transfers_start: usize, transfers_len: usize) -> Stop {
    Stop {
        stop_id: id.to_string(),
        geometry: Coordinate { x_bits: 0, y_bits: 0 },
        routes_start,
        routes_len,
        transfers_start,
        transfers_len,
    }
}

/// Stop 0 is the canonical stop of node 0, stop 1 a hidden stop at the same
/// node served by route R0, stop 2 the destination at node 1.
fn build_model(with_colocated_transfer: bool) -> PublicTransitData {
    let transfers = if with_colocated_transfer { vec![Transfer { target_stop: 1, duration: 0 }] } else { vec![] };
    let n = transfers.len();
    let mut node_to_stop = NodeStopMap::new();
    node_to_stop.insert(0, 0);
    node_to_stop.insert(1, 2);
    PublicTransitData {
        routes: vec![Route { num_trips: 1, num_stops: 2, stops_start: 0, trips_start: 0, route_id: "R0".to_string() }],
        route_stops: vec![1, 2],
        stop_times: vec![StopTime { arrival: 100, departure: 100 }, StopTime { arrival: 200, departure: 200 }],
        stops: vec![stop("S0", 0, 0, 0, usize::from(with_colocated_transfer)), stop("S1", 0, 1, n, 0), stop("S2", 1, 1, n, 0)],
        stop_routes: vec![0, 0],
        transfers,
        node_to_stop,
        feeds_meta: vec![],
        trips: vec![vec![Trip { trip_id: "T0".to_string() }]],
        gtfs_transfers: vec![],
    }
}

fn walking(entries: &[(u32, Time)]) -> WalkingTimes {
    let mut w = WalkingTimes::new();
    for &(n, t) in entries {
        w.insert(n, t);
    }
    w
}

fn make_points(model: &PublicTransitData) -> (TransitPoint, TransitPoint) {
    let origin = Coordinate { x_bits: 0, y_bits: 0 };
    let start = TransitPoint::new(origin, Some((0, 0)), walking(&[(0, 0)]), model, 600, 5).expect("start point should be valid");
    let end = TransitPoint::new(origin, Some((1, 0)), walking(&[(1, 0)]), model, 600, 5).expect("end point should be valid");
    (start, end)
}

fn reached(arrival_time: Time) -> TargetArrival {
    TargetArrival { arrival_time, transfers_used: 0, reachable: true }
}

fn not_reached() -> TargetArrival {
    TargetArrival { arrival_time: Time::MAX, transfers_used: 0, reachable: false }
}

#[test]
fn colocated_transfer_restores_single_routing_reachability() {
    let model_without = build_model(false);
    let (start_without, end_without) = make_points(&model_without);
    // Without the transfer the search from stop 0 never boards R0.
    let without = multimodal_routing(&start_without, &end_without, 50, &vec![vec![Some(not_reached())]]).expect("routing should not fail");
    assert!(without.is_none(), "without co-located transfer route should be unreachable");

    let model_with = build_model(true);
    let (start_with, end_with) = make_points(&model_with);
    let with = multimodal_routing(&start_with, &end_with, 50, &vec![vec![Some(reached(200))]])
        .expect("routing should not fail")
        .expect("route should become reachable with co-located transfer");

    assert_eq!(with.travel_time, 150);
    assert_eq!(with.transit_time, Some(150));
    assert_eq!(with.walking_time, 0);
}

#[test]
fn colocated_transfer_restores_one_to_many_reachability() {
    let model = build_model(true);
    let (start, end) = make_points(&model);
    let search = Ok(vec![reached(50), reached(50), reached(200)]);

    let results = multimodal_routing_one_to_many(&start, &[end], 50, &vec![search]).expect("one-to-many routing should not fail");
    assert_eq!(results.len(), 1);

    let route = results[0].as_ref().expect("route should be reachable with co-located transfer");
    assert_eq!(route.travel_time, 150);
    assert_eq!(route.transit_time, Some(150));
    assert_eq!(route.walking_time, 0);
}

#[test]
fn one_to_many_propagates_raptor_errors() {
    let invalid_start = TransitPoint {
        geometry: Coordinate { x_bits: 0, y_bits: 0 },
        node_id: 0,
        nearest_stops: vec![(usize::MAX, 0)],
        walking_paths: WalkingTimes::new(),
    };
    let end = TransitPoint {
        geometry: Coordinate { x_bits: 0, y_bits: 0 },
        node_id: 1,
        nearest_stops: vec![(2, 0)],
        walking_paths: WalkingTimes::new(),
    };
    let search = Err(RaptorError { description: "source stop out of range".to_string() });

    let result = multimodal_routing_one_to_many(&invalid_start, &[end], 50, &vec![search]);
    assert!(matches!(result, Err(Error::InvalidData(_))));
}

#[test]
fn departures_after_two_days_are_refused() {
    let model = build_model(true);
    let (start, end) = make_points(&model);
    let result = multimodal_routing(&start, &end, MAX_DEPARTURE_TIME + 1, &vec![vec![Some(reached(200))]]);
    assert!(matches!(result, Err(Error::InvalidData(DataIssue::InvalidDepartureTime { departure })) if departure == MAX_DEPARTURE_TIME + 1));
}

#[test]
fn walking_wins_ties_and_is_the_fallback() {
    let candidate = CandidateJourney { total_time: 300, transit_time: 200, transfers_used: 1 };
    assert!(is_walking_better(Some(300), Some(&candidate)));
    assert!(!is_walking_better(Some(301), Some(&candidate)));
    assert!(is_walking_better(Some(5), None));
    assert!(!is_walking_better(None, Some(&candidate)));

    let transit = create_transit_result(&candidate);
    assert_eq!(transit.travel_time, 300);
    assert_eq!(transit.transit_time, Some(200));
    assert_eq!(transit.walking_time, 100);
    assert_eq!(transit.transfers, 1);

    let walk = create_walking_result(420);
    assert_eq!(walk.travel_time, 420);
    assert_eq!(walk.transit_time, None);
    assert_eq!(walk.walking_time, 420);
}

#[test]
fn routing_is_never_slower_than_walking() {
    let origin = Coordinate { x_bits: 0, y_bits: 0 };
    let model = build_model(true);
    let start = TransitPoint::new(origin, Some((0, 0)), walking(&[(0, 0), (1, 120)]), &model, 600, 5).expect("start point should be valid");
    let end = TransitPoint::new(origin, Some((1, 0)), walking(&[(1, 0)]), &model, 600, 5).expect("end point should be valid");
    let result = multimodal_routing(&start, &end, 50, &vec![vec![Some(reached(200))]]).unwrap().unwrap();
    assert_eq!(result.travel_time, 120);
    assert_eq!(result.transit_time, None);
}

fn point(node: u32, nearest_stops: Vec<(usize, Time)>, paths: &[(u32, Time)]) -> TransitPoint {
    TransitPoint { geometry: Coordinate { x_bits: 0, y_bits: 0 }, node_id: node, nearest_stops, walking_paths: walking(paths) }
}

#[test]
fn traced_multimodal_prefers_direct_walking_when_faster() {
    let start = point(0, vec![(0, 0)], &[(0, 0), (1, 20)]);
    let end = point(1, vec![(1, 0)], &[(1, 0)]);
    // The ride from stop 0 at 100 arrives at stop 1 at 200.
    let legs = vec![vec![Some(TracedLeg { departure_time: 100, arrival_time: 200 })]];

    let journey = traced_multimodal_routing(&start, &end, 100, &legs).expect("routing should succeed").expect("journey should exist");

    assert_eq!(journey, TracedChoice::Walking { walking_time: 20 });
    assert_eq!(journey.total_time(), 20);
    assert_eq!(100 + journey.total_time(), 120);
}

#[test]
fn traced_multimodal_pruning_keeps_best_sorted_candidate() {
    let start = point(0, vec![(0, 0), (2, 30)], &[]);
    let end = point(1, vec![(1, 0), (3, 5)], &[]);
    let legs = vec![vec![Some(TracedLeg { departure_time: 100, arrival_time: 120 })]];

    let journey = traced_multimodal_routing(&start, &end, 100, &legs).expect("routing should succeed").expect("journey should exist");

    match journey {
        TracedChoice::Transit { access_stop, egress_stop, total_time, .. } => {
            assert_eq!(total_time, 20);
            assert_eq!(100 + total_time, 120);
            assert_eq!(access_stop, 0);
            assert_eq!(egress_stop, 1);
            // The pruning model's stops are S0 to S3.
            let mut data = build_model(false);
            data.stops = vec![stop("S0", 0, 0, 0, 0), stop("S1", 0, 0, 0, 0), stop("S2", 0, 0, 0, 0), stop("S3", 0, 0, 0, 0)];
            assert_eq!(start.transit_stop_name(&data, access_stop).as_deref(), Some("S0"));
            assert_eq!(end.transit_stop_name(&data, egress_stop).as_deref(), Some("S1"));
        },
        TracedChoice::Walking { .. } => panic!("expected a transit journey"),
    }
}

#[test]
fn traced_pruning_matches_an_exhaustive_choice() {
    let start = point(0, vec![(0, 0)], &[(1, 500)]);
    let end = point(1, vec![(1, 10)], &[]);
    let legs = vec![vec![Some(TracedLeg { departure_time: 100, arrival_time: 400 })]];
    let journey = traced_multimodal_routing(&start, &end, 90, &legs).unwrap().unwrap();
    assert_eq!(journey.total_time(), 310);
    let slower = vec![vec![Some(TracedLeg { departure_time: 100, arrival_time: 700 })]];
    assert_eq!(traced_multimodal_routing(&start, &end, 90, &slower).unwrap(), Some(TracedChoice::Walking { walking_time: 500 }));
}
