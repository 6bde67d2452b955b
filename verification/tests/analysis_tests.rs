use ferrobus_core::error::{DataIssue, Error, MissingInput};
use ferrobus_core::isochrone::{
    access_counts, departure_samples, reached_cells, GridPoint, IsochroneIndex, GRID_EGRESS_STOPS,
};
use ferrobus_core::loading::{assemble_street_graph, keep_largest_component, validate_config};
use ferrobus_core::routing::MultiModalResult;
use ferrobus_core::statistics::{matrix_row, origin_statistic, parse_statistic, travel_time_row, Statistic, StatisticParts};

fn result(travel_time: u32) -> Option<MultiModalResult> {
    Some(MultiModalResult { travel_time, transit_time: None, walking_time: travel_time, transfers: 0 })
}

#[test]
fn grid_point_stays_compact() {
    assert!(std::mem::size_of::<GridPoint>() <= 32, "GridPoint grew to {} bytes", std::mem::size_of::<GridPoint>());
    assert_eq!(GRID_EGRESS_STOPS, 3);
}

#[test]
fn grid_points_keep_the_three_nearest_stops() {
    let g = GridPoint::from_snap(7, &vec![(4, 10), (5, 20), (6, 30), (7, 40)]).expect("indices fit");
    assert_eq!(g.node, 7);
    assert_eq!(g.stop_count, 3);
    assert_eq!(g.stops, [(4, 10), (5, 20), (6, 30)]);
    let short = GridPoint::from_snap(1, &vec![(2, 5)]).unwrap();
    assert_eq!(short.stop_count, 1);
    assert!(GridPoint::from_snap(1, &vec![(usize::MAX, 5)]).is_none());
}

fn cells() -> Vec<h3o::CellIndex> {
    [(48.85, 2.35), (48.86, 2.36), (48.87, 2.37)]
        .into_iter()
        .map(|(lat, lng)| h3o::LatLng::new(lat, lng).expect("valid coordinate").to_cell(h3o::Resolution::Ten))
        .collect()
}

#[test]
fn index_keeps_snapped_cells_in_order() {
    let point = GridPoint::from_snap(3, &vec![(0, 60)]).unwrap();
    let index = IsochroneIndex::new(cells(), vec![Some(point), None, Some(point)], 10).expect("resolution 10 exists");
    assert_eq!(index.len(), 2);
    assert_eq!(index.grid, vec![cells()[0], cells()[2]]);
    assert_eq!(index.resolution(), 10);
    assert!(!index.is_empty());
    assert!(IsochroneIndex::empty(9).is_empty());
    let refused = IsochroneIndex::new(cells(), vec![None, None, None], 16);
    assert!(matches!(refused, Err(Error::InvalidData(DataIssue::InvalidResolution { resolution: 16 }))));
}

#[test]
fn reached_cells_come_from_the_grid_and_grow_with_the_cutoff() {
    let grid = cells();
    let results = vec![result(600), None, result(2000)];
    let near = reached_cells(&grid, &results, 900);
    let far = reached_cells(&grid, &results, 2700);
    assert_eq!(near, vec![grid[0]]);
    assert_eq!(far, vec![grid[0], grid[2]]);
    assert!(near.iter().all(|c| far.contains(c)));
}

#[test]
fn departures_are_sampled_inclusively() {
    assert_eq!(departure_samples(100, 400, 100), vec![100, 200, 300, 400]);
    assert_eq!(departure_samples(100, 450, 100), vec![100, 200, 300, 400]);
    assert!(departure_samples(500, 400, 100).is_empty());
}

#[test]
fn access_is_counted_per_cell_over_samples() {
    let samples = vec![vec![result(100), None, result(900)], vec![result(200), result(300), None]];
    assert_eq!(access_counts(&samples, 500, 3), vec![2, 1, 0]);
}

#[test]
fn statistics_parse_only_mean_and_median() {
    assert_eq!(parse_statistic("mean"), Some(Statistic::Mean));
    assert_eq!(parse_statistic("median"), Some(Statistic::Median));
    assert_eq!(parse_statistic("max"), None);
}

#[test]
fn statistics_use_the_reached_times_within_the_cutoff() {
    let row = vec![result(300), None, result(100), result(1000), result(200)];
    assert_eq!(origin_statistic(&row, None, Statistic::Mean), (4, Some(StatisticParts::Mean { sum: 1600, count: 4 })));
    assert_eq!(origin_statistic(&row, Some(500), Statistic::Mean), (3, Some(StatisticParts::Mean { sum: 600, count: 3 })));
    assert_eq!(origin_statistic(&row, None, Statistic::Median), (4, Some(StatisticParts::Median { lower: 200, upper: 300 })));
    assert_eq!(origin_statistic(&row, Some(500), Statistic::Median), (3, Some(StatisticParts::Median { lower: 200, upper: 200 })));
    assert_eq!(origin_statistic(&vec![None, None], None, Statistic::Median), (0, None));
}

#[test]
fn matrix_rows_hold_travel_times() {
    let row = vec![result(10), None];
    assert_eq!(travel_time_row(&row), vec![Some(10), None]);
    assert_eq!(matrix_row::<String>(Ok(row), 2), vec![Some(10), None]);
    assert_eq!(matrix_row::<String>(Err("failed".to_string()), 3), vec![None, None, None]);
}

#[test]
fn keeps_the_largest_component_and_drops_the_rest() {
    // A three-node path, plus an unrelated pair that must not survive.
    let edges = vec![(0, 1), (1, 2), (3, 4)];
    let keep = keep_largest_component(5, &edges).expect("a graph with edges has a component");
    assert_eq!(keep, vec![true, true, true, false, false]);
    assert_eq!(keep.iter().filter(|&&k| k).count(), 3);
    let kept_edges = edges.iter().filter(|&&(a, b)| keep[a as usize] && keep[b as usize]).count();
    assert_eq!(kept_edges, 2);
}

#[test]
fn an_empty_street_network_has_no_component() {
    assert!(matches!(keep_largest_component(0, &vec![]), Err(Error::InvalidData(DataIssue::NoConnectedComponents))));
    // Ties go to the last component in label order; every node alone is a tie.
    let keep = keep_largest_component(3, &vec![]).unwrap();
    assert_eq!(keep.iter().filter(|&&k| k).count(), 1);
}

#[test]
fn configuration_is_checked_in_order() {
    assert!(matches!(validate_config(false, &vec![true]), Err(Error::NotFound(MissingInput::OsmFile))));
    assert!(matches!(validate_config(true, &vec![]), Err(Error::InvalidData(DataIssue::NoGtfsDirectories))));
    assert!(matches!(validate_config(true, &vec![true, false, false]), Err(Error::NotFound(MissingInput::GtfsDirectory(1)))));
    assert!(validate_config(true, &vec![true, true]).is_ok());
}

#[test]
fn self_loops_and_repeated_edges_join_nothing_new() {
    // A self-loop on node 0 and a pair joined twice: the pair is the largest component.
    let edges = vec![(0, 0), (1, 2), (2, 1), (1, 2)];
    let keep = keep_largest_component(4, &edges).unwrap();
    assert_eq!(keep, vec![false, true, true, false]);
}

#[test]
fn street_graph_keeps_first_nodes_and_walkable_ways() {
    let node_ids = vec![10, 20, 10, 30];
    let ways = vec![(10, 20, 5, true), (20, 20, 3, true), (20, 30, 7, false), (30, 10, 9, true)];
    let (nodes, edges) = assemble_street_graph(&node_ids, &ways).unwrap();
    assert_eq!(nodes, vec![0, 1, 3]);
    assert_eq!(edges, vec![(0, 1, 5), (2, 0, 9)]);
}

#[test]
fn street_graph_refuses_ways_to_unread_nodes() {
    let node_ids = vec![10, 20];
    assert!(matches!(
        assemble_street_graph(&node_ids, &vec![(10, 20, 1, true), (10, 99, 1, true), (98, 20, 1, true)]),
        Err(Error::InvalidData(DataIssue::MissingTargetNode { node: 99 }))
    ));
    assert!(matches!(
        assemble_street_graph(&node_ids, &vec![(98, 99, 1, true)]),
        Err(Error::InvalidData(DataIssue::MissingSourceNode { node: 98 }))
    ));
    // Ways pedestrians cannot use, and loops, are dropped before any lookup.
    let (_, edges) = assemble_street_graph(&node_ids, &vec![(98, 99, 1, false), (97, 97, 1, true)]).unwrap();
    assert!(edges.is_empty());
}
