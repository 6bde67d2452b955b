use ferrobus_core::snapping::{plan_edge_split, EdgeSnap, ProjectionPlace, SplitNode, SplitStep};

fn snap(stop: usize, place: ProjectionPlace, offset: u32, access: u32, x_bits: u64, y_bits: u64) -> EdgeSnap {
    EdgeSnap { stop, place, offset, access, x_bits, y_bits }
}

#[test]
fn edge_without_snaps_stays_one_piece() {
    let (steps, attached) = plan_edge_split(100, &vec![]);
    assert_eq!(
        steps,
        vec![SplitStep::StreetPiece { from: SplitNode::Source, to: SplitNode::Target, weight: 100, upto: None }]
    );
    assert!(attached.is_empty());
}

#[test]
fn stop_on_the_street_splits_the_edge_in_two() {
    let (steps, attached) = plan_edge_split(100, &vec![snap(7, ProjectionPlace::Inside, 40, 0, 1, 2)]);
    assert_eq!(
        steps,
        vec![
            SplitStep::ProjectionNode { snap: 0 },
            SplitStep::StreetPiece { from: SplitNode::Source, to: SplitNode::Created(0), weight: 40, upto: Some(0) },
            SplitStep::StreetPiece { from: SplitNode::Created(0), to: SplitNode::Target, weight: 60, upto: None },
        ]
    );
    assert_eq!(attached, vec![(7, SplitNode::Created(0))]);
}

#[test]
fn stops_at_one_position_share_a_connector() {
    let snaps = vec![
        snap(3, ProjectionPlace::Inside, 40, 5, 11, 12),
        snap(4, ProjectionPlace::AtPrevious, 40, 5, 11, 12),
    ];
    let (steps, attached) = plan_edge_split(100, &snaps);
    assert_eq!(
        steps,
        vec![
            SplitStep::ProjectionNode { snap: 0 },
            SplitStep::StreetPiece { from: SplitNode::Source, to: SplitNode::Created(0), weight: 40, upto: Some(0) },
            SplitStep::ConnectorNode { snap: 0 },
            SplitStep::Connector { from: SplitNode::Created(0), to: SplitNode::Created(1), weight: 5, snap: 0 },
            SplitStep::StreetPiece { from: SplitNode::Created(0), to: SplitNode::Target, weight: 60, upto: None },
        ]
    );
    assert_eq!(attached, vec![(3, SplitNode::Created(1)), (4, SplitNode::Created(1))]);
}

#[test]
fn stop_at_the_target_needs_no_closing_piece() {
    let (steps, attached) = plan_edge_split(100, &vec![snap(9, ProjectionPlace::AtTarget, 100, 0, 0, 0)]);
    assert_eq!(
        steps,
        vec![SplitStep::StreetPiece { from: SplitNode::Source, to: SplitNode::Target, weight: 100, upto: Some(0) }]
    );
    assert_eq!(attached, vec![(9, SplitNode::Target)]);
}

#[test]
fn split_pieces_add_up_to_the_edge_weight() {
    let snaps = vec![
        snap(1, ProjectionPlace::Inside, 25, 0, 0, 0),
        snap(2, ProjectionPlace::Inside, 70, 3, 8, 9),
    ];
    let (steps, _) = plan_edge_split(100, &snaps);
    let total: u32 = steps
        .iter()
        .map(|s| match s {
            SplitStep::StreetPiece { weight, .. } => *weight,
            _ => 0,
        })
        .sum();
    assert_eq!(total, 100);
}
