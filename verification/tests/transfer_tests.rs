use std::collections::HashMap;

use ferrobus_core::collections::{NodeStopMap, StopIdMap, WalkingTimes};
use ferrobus_core::transfers::{
    calculate_transfers, convert_gtfs_transfers_to_internal, create_colocated_stop_transfers, group_stops_by_node,
    merge_transfers, snap_stops_to_network, transfers_from_reachable,
};
use ferrobus_core::transit::PublicTransitData;
use ferrobus_core::types::{Coordinate, FeedTransfer, RaptorStopId, Stop, Time, Transfer};

fn to_sorted_targets(transfers: Vec<(RaptorStopId, Vec<Transfer>)>) -> HashMap<RaptorStopId, Vec<(RaptorStopId, Time)>> {
    let mut map: HashMap<RaptorStopId, Vec<(RaptorStopId, Time)>> = HashMap::new();
    for (from, ts) in transfers {
        let mut vals = ts.into_iter().map(|t| (t.target_stop, t.duration)).collect::<Vec<_>>();
        vals.sort_unstable();
        map.insert(from, vals);
    }
    map
}

fn walking(entries: &[(u32, Time)]) -> WalkingTimes {
    let mut w = WalkingTimes::new();
    for &(n, t) in entries {
        w.insert(n, t);
    }
    w
}

#[test]
fn creates_pairwise_synthetic_transfers_for_colocated_stops() {
    let stop_nodes = vec![Some(0), Some(0), Some(1), Some(0), None];

    let grouped = create_colocated_stop_transfers(&group_stops_by_node(&stop_nodes));
    let as_map = to_sorted_targets(grouped);

    assert_eq!(as_map.get(&0), Some(&vec![(1, 0), (3, 0)]));
    assert_eq!(as_map.get(&1), Some(&vec![(0, 0), (3, 0)]));
    assert_eq!(as_map.get(&3), Some(&vec![(0, 0), (1, 0)]));
    assert!(!as_map.contains_key(&2));
    assert!(!as_map.contains_key(&4));
}

/// Every other snapped stop whose node is reached within the limit.
fn transfers_by_scanning_every_stop(
    reachable: &HashMap<u32, Time>,
    stop_nodes: &[Option<u32>],
    source_idx: RaptorStopId,
    max_transfer_time: Time,
) -> Vec<Transfer> {
    stop_nodes
        .iter()
        .enumerate()
        .filter_map(|(target_idx, target_node_opt)| {
            if source_idx == target_idx {
                return None;
            }
            let target_node = (*target_node_opt)?;
            reachable
                .get(&target_node)
                .filter(|&&time| time <= max_transfer_time)
                .map(|&time| Transfer { target_stop: target_idx, duration: time })
        })
        .collect()
}

#[test]
fn inverted_search_agrees_with_scanning_every_stop() {
    let stop_nodes = vec![Some(0), Some(1), Some(2), Some(3), Some(1), None];
    let entries = [(0, 0), (1, 120), (2, 600), (3, 1500), (9, 300)];
    let reachable: HashMap<u32, Time> = entries.into_iter().collect();

    let stops_by_node = group_stops_by_node(&stop_nodes);
    let inverted = transfers_from_reachable(&walking(&entries), &stops_by_node, 0, 1200);
    let scanned = transfers_by_scanning_every_stop(&reachable, &stop_nodes, 0, 1200);

    assert_eq!(to_sorted_targets(vec![(0, inverted)]), to_sorted_targets(vec![(0, scanned)]));
}

#[test]
fn gtfs_overrides_synthetic_for_same_pair() {
    let computed = vec![(0, vec![Transfer { target_stop: 1, duration: 120 }])];
    let synthetic = vec![(0, vec![Transfer { target_stop: 1, duration: 0 }, Transfer { target_stop: 2, duration: 0 }])];
    let gtfs = vec![(0, vec![Transfer { target_stop: 1, duration: 42 }])];

    let with_synthetic = merge_transfers(computed, synthetic);
    let merged = merge_transfers(with_synthetic, gtfs);
    let as_map = to_sorted_targets(merged);

    assert_eq!(as_map.get(&0), Some(&vec![(1, 42), (2, 0)]));
}

#[test]
fn snapping_keeps_stops_within_the_snap_limit() {
    let nearest = vec![Some((4, 100)), Some((5, 1801)), None, Some((6, 1800))];
    assert_eq!(snap_stops_to_network(&nearest, 1800), vec![Some(4), None, None, Some(6)]);
}

fn feed_transfer(from: &str, to: &str, transfer_type: u8, min: Option<Time>) -> FeedTransfer {
    FeedTransfer {
        from_stop_id: from.to_string(),
        to_stop_id: to.to_string(),
        transfer_type,
        min_transfer_time: min,
    }
}

#[test]
fn gtfs_transfers_resolve_stop_ids_and_respect_the_limit() {
    let mut ids = StopIdMap::new();
    ids.insert("A".to_string(), 0);
    ids.insert("B".to_string(), 1);
    ids.insert("C".to_string(), 2);
    let raw = vec![
        feed_transfer("A", "B", 2, Some(90)),
        feed_transfer("A", "C", 2, Some(5000)),
        feed_transfer("A", "X", 2, Some(30)),
        feed_transfer("B", "C", 0, None),
        feed_transfer("C", "A", 3, Some(10)),
    ];
    let converted = to_sorted_targets(convert_gtfs_transfers_to_internal(&raw, &ids, 1800));
    assert_eq!(converted.get(&0), Some(&vec![(1, 90)]));
    assert!(!converted.contains_key(&2));
}

fn stop(id: &str) -> Stop {
    Stop {
        stop_id: id.to_string(),
        geometry: Coordinate { x_bits: 0, y_bits: 0 },
        routes_start: 0,
        routes_len: 0,
        transfers_start: 0,
        transfers_len: 0,
    }
}

#[test]
fn calculate_transfers_lays_out_slices_and_records_snapped_stops() {
    let mut transit = PublicTransitData {
        routes: vec![],
        route_stops: vec![],
        stop_times: vec![],
        stops: vec![stop("S0"), stop("S1"), stop("S2")],
        stop_routes: vec![],
        transfers: vec![],
        node_to_stop: NodeStopMap::new(),
        feeds_meta: vec![],
        trips: vec![],
        gtfs_transfers: vec![feed_transfer("S0", "S2", 2, Some(42))],
    };
    let stop_nodes = vec![Some(10), Some(10), Some(11)];
    let reachable = vec![
        walking(&[(10, 0), (11, 300)]),
        walking(&[(10, 0), (11, 300)]),
        walking(&[(11, 0), (10, 300)]),
    ];
    calculate_transfers(&mut transit, 600, &stop_nodes, &reachable);

    assert!(transit.gtfs_transfers.is_empty());
    assert_eq!(transit.node_to_stop.get(10), Some(1));
    assert_eq!(transit.node_to_stop.get(11), Some(2));
    let slice = |s: usize| {
        let st = &transit.stops[s];
        let mut v: Vec<(usize, Time)> = transit.transfers[st.transfers_start..st.transfers_start + st.transfers_len]
            .iter()
            .map(|t| (t.target_stop, t.duration))
            .collect();
        v.sort_unstable();
        v
    };
    assert_eq!(slice(0), vec![(1, 0), (2, 42)]);
    assert_eq!(slice(1), vec![(0, 0), (2, 300)]);
    assert_eq!(slice(2), vec![(0, 300), (1, 300)]);
}
