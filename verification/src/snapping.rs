//! Splitting a street edge at the stops snapped onto it: which nodes are
//! created, which edges replace the original one, and where each stop is
//! attached. Projections are computed on coordinates by the caller; here the
//! split is decided from their places along the edge and their costs.
use std::collections::BTreeMap;
use vstd::prelude::*;

use crate::types::Time;

verus! {

/// Where a stop's projection lies on the edge, relative to what came before
/// it in projection order.
#[derive(Debug, Clone, Copy, PartialEq, Eq, Structural)]
pub enum ProjectionPlace {
    /// On the source junction.
    AtSource,
    /// On the target junction.
    AtTarget,
    /// On the same point as the previous projection (or the start of the
    /// edge's geometry, for the first).
    AtPrevious,
    /// Strictly inside the edge, at a new point.
    Inside,
}

/// One stop snapped onto the edge, in projection order.
#[derive(Debug, Clone, Copy, PartialEq, Eq, Structural)]
pub struct EdgeSnap {
    /// The stop.
    pub stop: usize,
    pub place: ProjectionPlace,
    /// Cost from the source junction to the projection.
    pub offset: Time,
    /// Cost of the off-street connection from the projection to the stop.
    pub access: Time,
    /// The stop's coordinates, as bit patterns: stops at the same position
    /// share a connector.
    pub x_bits: u64,
    pub y_bits: u64,
}

/// A node of the split edge.
#[derive(Debug, Clone, Copy, PartialEq, Eq, Structural)]
pub enum SplitNode {
    Source,
    Target,
    /// The `k`-th node created by the split.
    Created(usize),
}

/// One step of the split, to be carried out in order.
#[derive(Debug, Clone, Copy, PartialEq, Eq, Structural)]
pub enum SplitStep {
    /// Create a node at the projection of snap `snap`.
    ProjectionNode { snap: usize },
    /// Create a node at the position of snap `snap`'s stop.
    ConnectorNode { snap: usize },
    /// Add a street piece; it ends at snap `upto`'s projection, or at the
    /// target junction when `upto` is `None`.
    StreetPiece { from: SplitNode, to: SplitNode, weight: Time, upto: Option<usize> },
    /// Add an off-street connector of snap `snap`.
    Connector { from: SplitNode, to: SplitNode, weight: Time, snap: usize },
}

/// The progress of a split over the snaps seen so far.
pub struct SplitState {
    pub steps: Seq<SplitStep>,
    pub attached: Seq<(usize, SplitNode)>,
    pub previous: SplitNode,
    pub previous_offset: Time,
    pub connectors: Map<(usize, u64, u64), SplitNode>,
    pub created: nat,
}

/// The number a node goes by in connector keys: 0 and 1 for the junctions,
/// `k + 2` for the `k`-th created node.
pub open spec fn node_key(n: SplitNode) -> usize {
    match n {
        SplitNode::Source => 0,
        SplitNode::Target => 1,
        SplitNode::Created(k) => (k + 2) as usize,
    }
}

/// The connector key of a stop position off a projection node.
pub open spec fn connector_key(node: SplitNode, snap: EdgeSnap) -> (usize, u64, u64) {
    (node_key(node), snap.x_bits, snap.y_bits)
}

/// One snap's share of the split, after state `s`: the snap's projection
/// becomes the source or target junction, the previous projection's node, or
/// a new node; a street piece joins it to the previous node when they
/// differ; the stop is attached to the projection node when it lies on the
/// street, otherwise to the connector node of its position off that node,
/// made with its connector the first time.
#[verifier::opaque]
pub open spec fn split_step(s: SplitState, snap: EdgeSnap, k: int) -> SplitState {
    let (projection, steps1, created1) = match snap.place {
        ProjectionPlace::AtSource => (SplitNode::Source, s.steps, s.created),
        ProjectionPlace::AtTarget => (SplitNode::Target, s.steps, s.created),
        ProjectionPlace::AtPrevious => (s.previous, s.steps, s.created),
        ProjectionPlace::Inside => (
            SplitNode::Created(s.created as usize),
            s.steps.push(SplitStep::ProjectionNode { snap: k as usize }),
            s.created + 1,
        ),
    };
    let steps2 = if projection != s.previous {
        steps1.push(
            SplitStep::StreetPiece {
                from: s.previous,
                to: projection,
                weight: (snap.offset - s.previous_offset) as Time,
                upto: Some(k as usize),
            },
        )
    } else {
        steps1
    };
    if snap.access == 0 {
        SplitState {
            steps: steps2,
            attached: s.attached.push((snap.stop, projection)),
            previous: projection,
            previous_offset: snap.offset,
            connectors: s.connectors,
            created: created1,
        }
    } else {
        let key = connector_key(projection, snap);
        match (if s.connectors.contains_key(key) { Some(s.connectors[key]) } else { None::<SplitNode> }) {
            Some(node) => SplitState {
                steps: steps2,
                attached: s.attached.push((snap.stop, node)),
                previous: projection,
                previous_offset: snap.offset,
                connectors: s.connectors,
                created: created1,
            },
            None => {
                let node = SplitNode::Created(created1 as usize);
                SplitState {
                    steps: steps2.push(SplitStep::ConnectorNode { snap: k as usize }).push(
                        SplitStep::Connector { from: projection, to: node, weight: snap.access, snap: k as usize },
                    ),
                    attached: s.attached.push((snap.stop, node)),
                    previous: projection,
                    previous_offset: snap.offset,
                    connectors: s.connectors.insert(key, node),
                    created: created1 + 1,
                }
            },
        }
    }
}

/// The split after the first `n` snaps (see [`split_step`]).
pub open spec fn split_state(snaps: Seq<EdgeSnap>, n: int) -> SplitState
    decreases n,
{
    if n <= 0 {
        SplitState {
            steps: Seq::empty(),
            attached: Seq::empty(),
            previous: SplitNode::Source,
            previous_offset: 0,
            connectors: Map::empty(),
            created: 0,
        }
    } else {
        split_step(split_state(snaps, n - 1), snaps[n - 1], n - 1)
    }
}

/// The whole split: the snaps' steps, then the closing street piece to the
/// target junction unless the last projection is the target itself at the
/// full edge cost.
pub open spec fn split_steps(weight: Time, snaps: Seq<EdgeSnap>) -> Seq<SplitStep> {
    let s = split_state(snaps, snaps.len() as int);
    if s.previous != SplitNode::Target || s.previous_offset < weight {
        s.steps.push(SplitStep::StreetPiece { from: s.previous, to: SplitNode::Target, weight: (weight - s.previous_offset) as Time, upto: None })
    } else {
        s.steps
    }
}

/// Projections come in order along the edge: their costs from the source
/// never decrease and never exceed the edge's.
pub open spec fn offsets_ordered(weight: Time, snaps: Seq<EdgeSnap>) -> bool {
    &&& forall|a: int, b: int| 0 <= a <= b < snaps.len() ==> #[trigger] snaps[a].offset <= #[trigger] snaps[b].offset
    &&& forall|a: int| 0 <= a < snaps.len() ==> #[trigger] snaps[a].offset <= weight
}

/// The number a node goes by in connector keys (see [`node_key`]).
fn node_key_of(n: SplitNode) -> (k: usize)
    requires
        n matches SplitNode::Created(c) ==> c + 2 <= usize::MAX,
    ensures
        k == node_key(n),
{
    match n {
        SplitNode::Source => 0,
        SplitNode::Target => 1,
        SplitNode::Created(c) => c + 2,
    }
}

/// The connector recorded under `key`, if any.
fn connector_lookup(connectors: &BTreeMap<(usize, u64, u64), SplitNode>, key: (usize, u64, u64)) -> (r: Option<SplitNode>)
    ensures
        r == (if connectors@.contains_key(key) { Some(connectors@[key]) } else { None::<SplitNode> }),
{
    broadcast use vstd::laws_cmp::group_laws_cmp;
    broadcast use vstd::std_specs::btree::group_btree_axioms;

    match connectors.get(&key) {
        Some(node) => Some(*node),
        None => None,
    }
}

/// Records the connector made for `key`.
fn connector_record(connectors: &mut BTreeMap<(usize, u64, u64), SplitNode>, key: (usize, u64, u64), node: SplitNode)
    ensures
        final(connectors)@ == old(connectors)@.insert(key, node),
{
    broadcast use vstd::laws_cmp::group_laws_cmp;
    broadcast use vstd::std_specs::btree::group_btree_axioms;

    connectors.insert(key, node);
}

/// The steps splitting an edge of cost `weight` at the given snaps (in
/// projection order), and the node each snap's stop is attached to.
pub fn plan_edge_split(weight: Time, snaps: &Vec<EdgeSnap>) -> (r: (Vec<SplitStep>, Vec<(usize, SplitNode)>))
    requires
        offsets_ordered(weight, snaps@),
        snaps@.len() < usize::MAX / 2,
    ensures
        r.0@ == split_steps(weight, snaps@),
        r.1@ == split_state(snaps@, snaps@.len() as int).attached,
        places_consistent(weight, snaps@) ==> street_cost(r.0@) == weight,
        r.1@.len() == snaps@.len(),
        forall|k: int| 0 <= k < snaps@.len() ==> (#[trigger] r.1@[k]).0 == snaps@[k].stop,
        forall|i: int, j: int|
            0 <= i < j < snaps@.len() && split_state(snaps@, i + 1).previous == split_state(snaps@, j + 1).previous && snaps@[i].x_bits
                == snaps@[j].x_bits && snaps@[i].y_bits == snaps@[j].y_bits && snaps@[i].access == snaps@[j].access ==> (
            #[trigger] r.1@[i]).1 == (#[trigger] r.1@[j]).1,
{
    let mut steps: Vec<SplitStep> = Vec::new();
    let mut attached: Vec<(usize, SplitNode)> = Vec::new();
    let mut previous = SplitNode::Source;
    let mut previous_offset: Time = 0;
    let mut connectors: BTreeMap<(usize, u64, u64), SplitNode> = BTreeMap::new();
    let mut created: usize = 0;
    let mut k: usize = 0;
    while k < snaps.len()
        invariant
            k <= snaps@.len(),
            snaps@.len() < usize::MAX / 2,
            offsets_ordered(weight, snaps@),
            created <= 2 * k,
            previous matches SplitNode::Created(j) ==> j < created,
            k > 0 ==> previous_offset == snaps@[k - 1].offset,
            k == 0 ==> previous_offset == 0,
            ({
                let s = split_state(snaps@, k as int);
                &&& steps@ == s.steps
                &&& attached@ == s.attached
                &&& previous == s.previous
                &&& previous_offset == s.previous_offset
                &&& connectors@ == s.connectors
                &&& created == s.created
            }),
        decreases snaps@.len() - k,
    {
        proof {
            reveal(split_step);
        }
        let snap = snaps[k];
        assert(snaps.len() <= usize::MAX);
        let projection = match snap.place {
            ProjectionPlace::AtSource => SplitNode::Source,
            ProjectionPlace::AtTarget => SplitNode::Target,
            ProjectionPlace::AtPrevious => previous,
            ProjectionPlace::Inside => {
                steps.push(SplitStep::ProjectionNode { snap: k });
                let node = SplitNode::Created(created);
                created = created + 1;
                node
            },
        };
        if projection != previous {
            steps.push(SplitStep::StreetPiece { from: previous, to: projection, weight: snap.offset - previous_offset, upto: Some(k) });
        }
        if snap.access == 0 {
            attached.push((snap.stop, projection));
        } else {
            let key = (node_key_of(projection), snap.x_bits, snap.y_bits);
            match connector_lookup(&connectors, key) {
                Some(node) => {
                    attached.push((snap.stop, node));
                },
                None => {
                    let node = SplitNode::Created(created);
                    created = created + 1;
                    steps.push(SplitStep::ConnectorNode { snap: k });
                    steps.push(SplitStep::Connector { from: projection, to: node, weight: snap.access, snap: k });
                    connector_record(&mut connectors, key, node);
                    attached.push((snap.stop, node));
                },
            }
        }
        previous = projection;
        previous_offset = snap.offset;
        k += 1;
    }
    if previous != SplitNode::Target || previous_offset < weight {
        steps.push(SplitStep::StreetPiece { from: previous, to: SplitNode::Target, weight: weight - previous_offset, upto: None });
    }
    proof {
        let n = snaps@.len() as int;
        if places_consistent(weight, snaps@) {
            law_split_conserves_weight(weight, snaps@);
        }
        law_every_stop_attached(snaps@, n);
        assert forall|i: int, j: int|
            0 <= i < j < n && split_state(snaps@, i + 1).previous == split_state(snaps@, j + 1).previous && snaps@[i].x_bits
                == snaps@[j].x_bits && snaps@[i].y_bits == snaps@[j].y_bits && snaps@[i].access == snaps@[j].access implies (
            #[trigger] attached@[i]).1 == (#[trigger] attached@[j]).1 by {
            law_coincident_stops_share_attachment(snaps@, i, j, n);
        }
    }
    (steps, attached)
}

/// Total cost of the street pieces among the steps.
pub open spec fn street_cost(steps: Seq<SplitStep>) -> int
    decreases steps.len(),
{
    if steps.len() == 0 {
        0
    } else {
        street_cost(steps.drop_last()) + match steps.last() {
            SplitStep::StreetPiece { weight, .. } => weight as int,
            _ => 0,
        }
    }
}

/// The projections' places agree with their costs: a projection on the
/// source junction costs nothing, one on the target junction costs the whole
/// edge, and one on the previous projection costs what that one did.
pub open spec fn places_consistent(weight: Time, snaps: Seq<EdgeSnap>) -> bool {
    forall|k: int| 0 <= k < snaps.len() ==> #[trigger] place_agrees(weight, snaps, k)
}

/// Snap `k`'s place agrees with its cost (see [`places_consistent`]).
pub open spec fn place_agrees(weight: Time, snaps: Seq<EdgeSnap>, k: int) -> bool {
    match snaps[k].place {
        ProjectionPlace::AtSource => snaps[k].offset == 0,
        ProjectionPlace::AtTarget => snaps[k].offset == weight,
        ProjectionPlace::AtPrevious => snaps[k].offset == if k == 0 { 0 } else { snaps[k - 1].offset },
        ProjectionPlace::Inside => true,
    }
}

/// A step keeps the street pieces costing the last projection's offset.
proof fn lemma_step_cost(weight: Time, s: SplitState, snap: EdgeSnap, k: int)
    requires
        street_cost(s.steps) == s.previous_offset,
        s.previous == SplitNode::Source ==> s.previous_offset == 0,
        s.previous == SplitNode::Target ==> s.previous_offset == weight,
        s.previous_offset <= snap.offset <= weight,
        snap.place == ProjectionPlace::AtSource ==> snap.offset == 0,
        snap.place == ProjectionPlace::AtTarget ==> snap.offset == weight,
        snap.place == ProjectionPlace::AtPrevious ==> snap.offset == s.previous_offset,
        s.previous matches SplitNode::Created(j) ==> j < s.created,
        s.created + 2 <= usize::MAX,
    ensures
        split_step(s, snap, k).previous matches SplitNode::Created(j) ==> j < split_step(s, snap, k).created,
        split_step(s, snap, k).created <= s.created + 2,
        street_cost(split_step(s, snap, k).steps) == split_step(s, snap, k).previous_offset,
        split_step(s, snap, k).previous == SplitNode::Source ==> split_step(s, snap, k).previous_offset == 0,
        split_step(s, snap, k).previous == SplitNode::Target ==> split_step(s, snap, k).previous_offset == weight,
        split_step(s, snap, k).previous_offset == snap.offset,
{
    reveal(split_step);
    let created1 = match snap.place {
        ProjectionPlace::Inside => s.created + 1,
        _ => s.created,
    };
    let projection = match snap.place {
        ProjectionPlace::AtSource => SplitNode::Source,
        ProjectionPlace::AtTarget => SplitNode::Target,
        ProjectionPlace::AtPrevious => s.previous,
        ProjectionPlace::Inside => SplitNode::Created(s.created as usize),
    };
    let step = SplitStep::ProjectionNode { snap: k as usize };
    let steps1 = match snap.place {
        ProjectionPlace::Inside => s.steps.push(step),
        _ => s.steps,
    };
    assert(street_cost(s.steps.push(step)) == street_cost(s.steps)) by {
        assert(s.steps.push(step).drop_last() =~= s.steps);
    }
    let piece = SplitStep::StreetPiece {
        from: s.previous,
        to: projection,
        weight: (snap.offset - s.previous_offset) as Time,
        upto: Some(k as usize),
    };
    assert(street_cost(steps1.push(piece)) == street_cost(steps1) + snap.offset - s.previous_offset) by {
        assert(steps1.push(piece).drop_last() =~= steps1);
    }
    let steps2 = if projection != s.previous {
        steps1.push(piece)
    } else {
        steps1
    };
    let c1 = SplitStep::ConnectorNode { snap: k as usize };
    let c2 = SplitStep::Connector { from: projection, to: SplitNode::Created(created1 as usize), weight: snap.access, snap: k as usize };
    let x1 = steps2.push(c1);
    assert(x1.drop_last() =~= steps2);
    assert(street_cost(x1) == street_cost(steps2));
    let x2 = x1.push(c2);
    assert(x2.drop_last() =~= x1);
    assert(street_cost(x2) == street_cost(x1));
}

/// Where the split stands after `n` snaps: the street pieces so far cost the
/// last projection's offset, which is zero at the source and the whole edge
/// at the target.
proof fn lemma_split_cost(weight: Time, snaps: Seq<EdgeSnap>, n: int)
    requires
        0 <= n <= snaps.len(),
        snaps.len() < usize::MAX / 2,
        offsets_ordered(weight, snaps),
        places_consistent(weight, snaps),
    ensures
        split_state(snaps, n).created <= 2 * n,
        street_cost(split_state(snaps, n).steps) == split_state(snaps, n).previous_offset,
        split_state(snaps, n).previous == SplitNode::Source ==> split_state(snaps, n).previous_offset == 0,
        split_state(snaps, n).previous == SplitNode::Target ==> split_state(snaps, n).previous_offset == weight,
        n > 0 ==> split_state(snaps, n).previous_offset == snaps[n - 1].offset,
        n == 0 ==> split_state(snaps, n).previous_offset == 0,
        split_state(snaps, n).previous matches SplitNode::Created(j) ==> j < split_state(snaps, n).created,
    decreases n,
{
    if n > 0 {
        lemma_split_cost(weight, snaps, n - 1);
        let k = n - 1;
        let snap = snaps[k];
        let prev = split_state(snaps, k);
        assert(prev.previous_offset <= snap.offset) by {
            if k > 0 {
                assert(snaps[k - 1].offset <= snaps[k].offset);
            }
        }
        assert(snap.offset <= weight);
        assert(place_agrees(weight, snaps, k));
        lemma_step_cost(weight, prev, snap, k);
    }
}

/// A step attaches exactly the snap's stop, after those attached before.
proof fn lemma_step_attaches(s: SplitState, snap: EdgeSnap, k: int)
    ensures
        split_step(s, snap, k).attached.drop_last() == s.attached,
        split_step(s, snap, k).attached.len() == s.attached.len() + 1,
        split_step(s, snap, k).attached.last().0 == snap.stop,
{
    reveal(split_step);
    assert(split_step(s, snap, k).attached.drop_last() =~= s.attached);
}

/// Splitting conserves the edge's cost: the street pieces that replace the
/// edge cost exactly what the edge did, whatever stops are attached to it.
pub proof fn law_split_conserves_weight(weight: Time, snaps: Seq<EdgeSnap>)
    requires
        offsets_ordered(weight, snaps),
        places_consistent(weight, snaps),
        snaps.len() < usize::MAX / 2,
    ensures
        street_cost(split_steps(weight, snaps)) == weight,
{
    lemma_split_cost(weight, snaps, snaps.len() as int);
    let s = split_state(snaps, snaps.len() as int);
    if snaps.len() > 0 {
        assert(s.previous_offset <= weight);
    }
    let last = SplitStep::StreetPiece { from: s.previous, to: SplitNode::Target, weight: (weight - s.previous_offset) as Time, upto: None };
    assert(s.steps.push(last).drop_last() =~= s.steps);
}

/// Every snapped stop is attached, in projection order.
pub proof fn law_every_stop_attached(snaps: Seq<EdgeSnap>, n: int)
    requires
        0 <= n <= snaps.len(),
    ensures
        split_state(snaps, n).attached.len() == n,
        forall|k: int| 0 <= k < n ==> (#[trigger] split_state(snaps, n).attached[k]).0 == snaps[k].stop,
    decreases n,
{
    if n > 0 {
        law_every_stop_attached(snaps, n - 1);
        let prev = split_state(snaps, n - 1);
        lemma_step_attaches(prev, snaps[n - 1], n - 1);
        let now = split_state(snaps, n);
        assert forall|k: int| 0 <= k < n implies (#[trigger] split_state(snaps, n).attached[k]).0 == snaps[k].stop by {
            if k < n - 1 {
                assert(now.attached.drop_last()[k] == now.attached[k]);
            }
        }
    }
}

/// A step's stop gets the connector recorded for its projection and
/// position, and a connector recorded before stays recorded.
proof fn lemma_step_connectors(s: SplitState, snap: EdgeSnap, k: int, key: (usize, u64, u64))
    ensures
        snap.access != 0 ==> ({
            let r = split_step(s, snap, k);
            let ck = connector_key(r.previous, snap);
            r.connectors.contains_key(ck) && r.connectors[ck] == r.attached.last().1
        }),
        snap.access == 0 ==> split_step(s, snap, k).attached.last().1 == split_step(s, snap, k).previous,
        s.connectors.contains_key(key) ==> split_step(s, snap, k).connectors.contains_key(key) && split_step(s, snap, k).connectors[key]
            == s.connectors[key],
{
    reveal(split_step);
}

/// A stop's attachment does not change as later stops are attached.
proof fn lemma_attached_stable(snaps: Seq<EdgeSnap>, m: int, k: int)
    requires
        0 <= m < k <= snaps.len(),
    ensures
        split_state(snaps, k).attached[m] == split_state(snaps, m + 1).attached[m],
    decreases k,
{
    if k > m + 1 {
        lemma_attached_stable(snaps, m, k - 1);
        law_every_stop_attached(snaps, k - 1);
        lemma_step_attaches(split_state(snaps, k - 1), snaps[k - 1], k - 1);
        assert(split_state(snaps, k).attached.drop_last()[m] == split_state(snaps, k).attached[m]);
    }
}

/// The connector made for a stop off the street stays recorded for its
/// projection and position.
proof fn lemma_connector_persists(snaps: Seq<EdgeSnap>, m: int, k: int)
    requires
        0 <= m < k <= snaps.len(),
        snaps[m].access != 0,
    ensures
        ({
            let ck = connector_key(split_state(snaps, m + 1).previous, snaps[m]);
            split_state(snaps, k).connectors.contains_key(ck) && split_state(snaps, k).connectors[ck] == split_state(snaps, m + 1).attached[m].1
        }),
    decreases k,
{
    let ck = connector_key(split_state(snaps, m + 1).previous, snaps[m]);
    if k == m + 1 {
        law_every_stop_attached(snaps, m + 1);
        lemma_step_connectors(split_state(snaps, m), snaps[m], m, ck);
    } else {
        lemma_connector_persists(snaps, m, k - 1);
        lemma_step_connectors(split_state(snaps, k - 1), snaps[k - 1], k - 1, ck);
    }
}

/// Coincident stops share their attachment: two stops at the same position
/// whose projections land on the same node are attached to the same node,
/// the later one reusing the off-street connector made for the earlier.
pub proof fn law_coincident_stops_share_attachment(snaps: Seq<EdgeSnap>, i: int, j: int, n: int)
    requires
        0 <= i < j < n <= snaps.len(),
        split_state(snaps, i + 1).previous == split_state(snaps, j + 1).previous,
        snaps[i].x_bits == snaps[j].x_bits,
        snaps[i].y_bits == snaps[j].y_bits,
        snaps[i].access == snaps[j].access,
    ensures
        split_state(snaps, n).attached[i].1 == split_state(snaps, n).attached[j].1,
{
    lemma_attached_stable(snaps, i, n);
    lemma_attached_stable(snaps, j, n);
    law_every_stop_attached(snaps, i + 1);
    law_every_stop_attached(snaps, j + 1);
    let ck = connector_key(split_state(snaps, i + 1).previous, snaps[i]);
    lemma_step_connectors(split_state(snaps, i), snaps[i], i, ck);
    if snaps[i].access != 0 {
        lemma_connector_persists(snaps, i, j);
        lemma_step_connectors(split_state(snaps, j), snaps[j], j, ck);
        reveal(split_step);
    } else {
        lemma_step_connectors(split_state(snaps, j), snaps[j], j, ck);
    }
}

} // verus!
