//! The transfer relation a model ends up with: what applying transfer lists
//! in order amounts to, and the relation built from the street network,
//! co-located stops and GTFS transfers.
use vstd::prelude::*;

use crate::collections::WalkingTimes;
use crate::transfers::{
    apply_groups, apply_list, colocated, concat_lists, last_listing, gtfs_accepted, members_distinct, gtfs_accepted_from, lemma_node_members, lists_relation, node_members,
    slice_recorded, TransferRelation,
};
use crate::types::{FeedTransfer, RaptorStopId, Stop, StreetNodeId, Time, Transfer};

verus! {

/// The duration last listed for target `t`.
pub open spec fn last_in_list(ts: Seq<Transfer>, t: RaptorStopId) -> Option<Time>
    decreases ts.len(),
{
    if ts.len() == 0 {
        None
    } else if ts.last().target_stop == t {
        Some(ts.last().duration)
    } else {
        last_in_list(ts.drop_last(), t)
    }
}

/// The relation one origin's list establishes on its own.
pub open spec fn list_map(from: RaptorStopId, ts: Seq<Transfer>) -> TransferRelation {
    Map::new(
        |k: (RaptorStopId, RaptorStopId)| k.0 == from && last_in_list(ts, k.1) is Some,
        |k: (RaptorStopId, RaptorStopId)| last_in_list(ts, k.1)->0,
    )
}

/// Applying a list overlays the relation it establishes.
pub proof fn lemma_apply_list_map(m: TransferRelation, from: RaptorStopId, ts: Seq<Transfer>)
    ensures
        apply_list(m, from, ts) == m.union_prefer_right(list_map(from, ts)),
    decreases ts.len(),
{
    if ts.len() == 0 {
        assert(list_map(from, ts) =~= Map::empty());
        assert(m.union_prefer_right(Map::empty()) =~= m);
    } else {
        lemma_apply_list_map(m, from, ts.drop_last());
        let last = ts.last();
        assert(m.union_prefer_right(list_map(from, ts.drop_last())).insert((from, last.target_stop), last.duration) =~= m.union_prefer_right(
            list_map(from, ts),
        ));
    }
}

/// The duration last listed for the pair `k` across the groups.
pub open spec fn listing_time(gs: Seq<(RaptorStopId, Seq<Transfer>)>, k: (RaptorStopId, RaptorStopId)) -> Option<Time>
    decreases gs.len(),
{
    if gs.len() == 0 {
        None
    } else if gs.last().0 == k.0 && last_in_list(gs.last().1, k.1) is Some {
        last_in_list(gs.last().1, k.1)
    } else {
        listing_time(gs.drop_last(), k)
    }
}

/// The relation the groups establish on their own.
pub open spec fn groups_map(gs: Seq<(RaptorStopId, Seq<Transfer>)>) -> TransferRelation {
    Map::new(|k: (RaptorStopId, RaptorStopId)| listing_time(gs, k) is Some, |k: (RaptorStopId, RaptorStopId)| listing_time(gs, k)->0)
}

/// Applying groups overlays the relation they establish: for every pair
/// they list, the duration listed last.
pub proof fn lemma_apply_groups_map(m: TransferRelation, gs: Seq<(RaptorStopId, Seq<Transfer>)>)
    ensures
        apply_groups(m, gs) == m.union_prefer_right(groups_map(gs)),
    decreases gs.len(),
{
    if gs.len() == 0 {
        assert(groups_map(gs) =~= Map::empty());
        assert(m.union_prefer_right(Map::empty()) =~= m);
    } else {
        lemma_apply_groups_map(m, gs.drop_last());
        let last = gs.last();
        lemma_apply_list_map(apply_groups(m, gs.drop_last()), last.0, last.1);
        assert(m.union_prefer_right(groups_map(gs.drop_last())).union_prefer_right(list_map(last.0, last.1)) =~= m.union_prefer_right(
            groups_map(gs),
        ));
    }
}

/// A listed duration is the duration of some listing, and a target listed
/// at all has a last duration.
pub proof fn lemma_last_in_list(ts: Seq<Transfer>, t: RaptorStopId)
    ensures
        last_in_list(ts, t) matches Some(d) ==> exists|j: int| 0 <= j < ts.len() && (#[trigger] ts[j]).target_stop == t && ts[j].duration == d,
        (exists|j: int| 0 <= j < ts.len() && (#[trigger] ts[j]).target_stop == t) ==> last_in_list(ts, t) is Some,
    decreases ts.len(),
{
    if ts.len() > 0 {
        lemma_last_in_list(ts.drop_last(), t);
        if last_in_list(ts, t) is Some && ts.last().target_stop != t {
            let j = choose|j: int| 0 <= j < ts.drop_last().len() && (#[trigger] ts.drop_last()[j]).target_stop == t && ts.drop_last()[j].duration
                == last_in_list(ts, t)->0;
            assert(ts[j] == ts.drop_last()[j]);
        }
        if ts.last().target_stop == t {
            assert(ts[ts.len() - 1].target_stop == t);
        }
        if exists|j: int| 0 <= j < ts.len() && (#[trigger] ts[j]).target_stop == t {
            let j = choose|j: int| 0 <= j < ts.len() && (#[trigger] ts[j]).target_stop == t;
            if j < ts.len() - 1 {
                assert(ts.drop_last()[j] == ts[j]);
            }
        }
    }
}

/// The pair `k` is listed by one of the groups.
pub open spec fn listed(gs: Seq<(RaptorStopId, Seq<Transfer>)>, k: (RaptorStopId, RaptorStopId)) -> bool {
    exists|i: int, j: int| 0 <= i < gs.len() && 0 <= j < gs[i].1.len() && gs[i].0 == k.0 && (#[trigger] gs[i].1[j]).target_stop == k.1
}

/// The last listing of a pair is one of its listings, and a listed pair has
/// a last listing.
pub proof fn lemma_last_listing(gs: Seq<(RaptorStopId, Seq<Transfer>)>, k: (RaptorStopId, RaptorStopId))
    ensures
        listing_time(gs, k) matches Some(d) ==> exists|i: int, j: int|
            0 <= i < gs.len() && 0 <= j < gs[i].1.len() && gs[i].0 == k.0 && (#[trigger] gs[i].1[j]).target_stop == k.1 && gs[i].1[j].duration
                == d,
        listed(gs, k) ==> listing_time(gs, k) is Some,
    decreases gs.len(),
{
    if gs.len() > 0 {
        let last = gs.last();
        let n = gs.len() - 1;
        lemma_last_listing(gs.drop_last(), k);
        lemma_last_in_list(last.1, k.1);
        if last.0 == k.0 && last_in_list(last.1, k.1) is Some {
            let j = choose|j: int| 0 <= j < last.1.len() && (#[trigger] last.1[j]).target_stop == k.1 && last.1[j].duration == last_in_list(
                last.1,
                k.1,
            )->0;
            assert(gs[n].1[j] == last.1[j]);
        } else if listing_time(gs, k) is Some {
            let (i, j) = choose|i: int, j: int|
                0 <= i < gs.drop_last().len() && 0 <= j < gs.drop_last()[i].1.len() && gs.drop_last()[i].0 == k.0 && (
                #[trigger] gs.drop_last()[i].1[j]).target_stop == k.1 && gs.drop_last()[i].1[j].duration == listing_time(gs, k)->0;
            assert(gs[i] == gs.drop_last()[i]);
            assert(gs[i].1[j].target_stop == k.1);
        }
        if listed(gs, k) {
            let (i, j) = choose|i: int, j: int| 0 <= i < gs.len() && 0 <= j < gs[i].1.len() && gs[i].0 == k.0 && (#[trigger] gs[i].1[j]).target_stop == k.1;
            if i < n {
                assert(gs.drop_last()[i] == gs[i]);
                assert(gs.drop_last()[i].1[j].target_stop == k.1);
                assert(listed(gs.drop_last(), k));
            } else {
                assert(last.1[j].target_stop == k.1);
            }
        }
    }
}

/// With distinct origins, the last listing of a pair is the last listing in
/// its origin's list.
pub proof fn lemma_last_listing_by_origin(gs: Seq<(RaptorStopId, Seq<Transfer>)>, k: (RaptorStopId, RaptorStopId), i: int)
    requires
        forall|a: int, b: int| 0 <= a < gs.len() && 0 <= b < gs.len() && a != b ==> gs[a].0 != gs[b].0,
        0 <= i < gs.len(),
        gs[i].0 == k.0,
    ensures
        listing_time(gs, k) == last_in_list(gs[i].1, k.1),
    decreases gs.len(),
{
    let n = gs.len() - 1;
    if i < n {
        assert(gs.last().0 != k.0);
        assert forall|a: int, b: int| 0 <= a < gs.drop_last().len() && 0 <= b < gs.drop_last().len() && a != b implies gs.drop_last()[a].0
            != gs.drop_last()[b].0 by {
            assert(gs.drop_last()[a] == gs[a]);
            assert(gs.drop_last()[b] == gs[b]);
        }
        assert(gs.drop_last()[i] == gs[i]);
        lemma_last_listing_by_origin(gs.drop_last(), k, i);
    } else {
        if last_in_list(gs.last().1, k.1) is None {
            lemma_no_listing_without_origin(gs.drop_last(), k);
        }
    }
}

/// Without a group of its origin, a pair has no listing.
pub proof fn lemma_no_listing_without_origin(gs: Seq<(RaptorStopId, Seq<Transfer>)>, k: (RaptorStopId, RaptorStopId))
    requires
        forall|a: int| 0 <= a < gs.len() ==> (#[trigger] gs[a]).0 != k.0,
    ensures
        listing_time(gs, k) is None,
    decreases gs.len(),
{
    if gs.len() > 0 {
        assert(gs[gs.len() - 1].0 != k.0);
        assert forall|a: int| 0 <= a < gs.drop_last().len() implies (#[trigger] gs.drop_last()[a]).0 != k.0 by {
            assert(gs.drop_last()[a] == gs[a]);
        }
        lemma_no_listing_without_origin(gs.drop_last(), k);
    }
}

/// The GTFS transfers accepted in file order, a later one replacing an
/// earlier one for the same pair of stops.
pub open spec fn gtfs_relation(gtfs: Seq<FeedTransfer>, ids: Map<Seq<char>, RaptorStopId>, max_transfer_time: Time) -> TransferRelation
    decreases gtfs.len(),
{
    if gtfs.len() == 0 {
        Map::empty()
    } else {
        let prev = gtfs_relation(gtfs.drop_last(), ids, max_transfer_time);
        match gtfs_accepted(gtfs.last(), ids, max_transfer_time) {
            Some((f, t)) => prev.insert((f, t.target_stop), t.duration),
            None => prev,
        }
    }
}

/// The GTFS relation at a pair is the last accepted transfer of the pair's
/// origin to its target.
pub proof fn lemma_gtfs_relation(gtfs: Seq<FeedTransfer>, ids: Map<Seq<char>, RaptorStopId>, max_transfer_time: Time, k: (RaptorStopId, RaptorStopId))
    ensures
        gtfs_relation(gtfs, ids, max_transfer_time).contains_key(k) == last_in_list(gtfs_accepted_from(gtfs, ids, max_transfer_time, k.0), k.1) is Some,
        gtfs_relation(gtfs, ids, max_transfer_time).contains_key(k) ==> gtfs_relation(gtfs, ids, max_transfer_time)[k] == last_in_list(
            gtfs_accepted_from(gtfs, ids, max_transfer_time, k.0),
            k.1,
        )->0,
    decreases gtfs.len(),
{
    if gtfs.len() > 0 {
        lemma_gtfs_relation(gtfs.drop_last(), ids, max_transfer_time, k);
        match gtfs_accepted(gtfs.last(), ids, max_transfer_time) {
            Some((f, t)) => {
                let prev_list = gtfs_accepted_from(gtfs.drop_last(), ids, max_transfer_time, k.0);
                if f == k.0 {
                    assert(gtfs_accepted_from(gtfs, ids, max_transfer_time, k.0).drop_last() =~= prev_list);
                }
            },
            None => {},
        }
    }
}

/// Stop `t` is snapped to a street node that stop `s` walks to within the
/// limit, and `s` is snapped itself.
pub open spec fn street_pair(
    stop_nodes: Seq<Option<StreetNodeId>>,
    reachable: Seq<Map<StreetNodeId, Time>>,
    max_transfer_time: Time,
    s: RaptorStopId,
    t: RaptorStopId,
) -> bool {
    &&& s < stop_nodes.len()
    &&& t < stop_nodes.len()
    &&& s != t
    &&& stop_nodes[s as int] is Some
    &&& stop_nodes[t as int] matches Some(node) && reachable[s as int].contains_key(node) && reachable[s as int][node]
        <= max_transfer_time
}

/// Two different stops snapped to the same street node.
pub open spec fn colocated_pair(stop_nodes: Seq<Option<StreetNodeId>>, a: RaptorStopId, b: RaptorStopId) -> bool {
    &&& a < stop_nodes.len()
    &&& b < stop_nodes.len()
    &&& a != b
    &&& stop_nodes[a as int] is Some
    &&& stop_nodes[a as int] == stop_nodes[b as int]
}

/// Walking transfers over the street network: from each snapped stop to
/// every other snapped stop whose node it reaches within the limit, timed by
/// the walk to that node.
pub open spec fn street_relation(
    stop_nodes: Seq<Option<StreetNodeId>>,
    reachable: Seq<Map<StreetNodeId, Time>>,
    max_transfer_time: Time,
) -> TransferRelation {
    Map::new(
        |k: (RaptorStopId, RaptorStopId)| street_pair(stop_nodes, reachable, max_transfer_time, k.0, k.1),
        |k: (RaptorStopId, RaptorStopId)| reachable[k.0 as int][stop_nodes[k.1 as int]->0],
    )
}

/// Zero-cost transfers between every two stops snapped to the same node.
pub open spec fn colocated_relation(stop_nodes: Seq<Option<StreetNodeId>>) -> TransferRelation {
    Map::new(|k: (RaptorStopId, RaptorStopId)| colocated_pair(stop_nodes, k.0, k.1), |k: (RaptorStopId, RaptorStopId)| 0 as Time)
}

/// The model's transfers: walking over the street network between snapped
/// stops, replaced by zero-cost links between co-located stops, replaced by
/// the GTFS transfers.
pub open spec fn model_transfers(
    stop_nodes: Seq<Option<StreetNodeId>>,
    reachable: Seq<Map<StreetNodeId, Time>>,
    gtfs: Seq<FeedTransfer>,
    ids: Map<Seq<char>, RaptorStopId>,
    max_transfer_time: Time,
) -> TransferRelation {
    street_relation(stop_nodes, reachable, max_transfer_time).union_prefer_right(colocated_relation(stop_nodes)).union_prefer_right(
        gtfs_relation(gtfs, ids, max_transfer_time),
    )
}

/// Each stop's walking times, as maps.
pub open spec fn walking_views(reachable: Seq<WalkingTimes>) -> Seq<Map<StreetNodeId, Time>> {
    reachable.map_values(|w: WalkingTimes| w@)
}

/// Every listed transfer carries the relation's time, and every pair of the
/// relation is listed (a pair may be listed more than once).
pub open spec fn covers(gs: Seq<(RaptorStopId, Seq<Transfer>)>, rel: TransferRelation) -> bool {
    &&& forall|i: int, k: int|
        0 <= i < gs.len() && 0 <= k < gs[i].1.len() ==> rel.contains_key((gs[i].0, (#[trigger] gs[i].1[k]).target_stop))
            && rel[(gs[i].0, gs[i].1[k].target_stop)] == gs[i].1[k].duration
    &&& forall|k: (RaptorStopId, RaptorStopId)| #[trigger] rel.contains_key(k) ==> listed(gs, k)
}

/// Groups that cover a relation establish exactly that relation.
pub proof fn lemma_covered_groups(gs: Seq<(RaptorStopId, Seq<Transfer>)>, rel: TransferRelation)
    requires
        covers(gs, rel),
    ensures
        groups_map(gs) == rel,
        apply_groups(Map::empty(), gs) == rel,
{
    assert forall|k: (RaptorStopId, RaptorStopId)| #[trigger] groups_map(gs).contains_key(k) <==> rel.contains_key(k) by {
        lemma_last_listing(gs, k);
        if listing_time(gs, k) is Some {
            let (i, j) = choose|i: int, j: int|
                0 <= i < gs.len() && 0 <= j < gs[i].1.len() && gs[i].0 == k.0 && (#[trigger] gs[i].1[j]).target_stop == k.1 && gs[i].1[j].duration
                    == listing_time(gs, k)->0;
            assert(rel.contains_key((gs[i].0, gs[i].1[j].target_stop)));
        }
    }
    assert forall|k: (RaptorStopId, RaptorStopId)| #[trigger] groups_map(gs).contains_key(k) implies groups_map(gs)[k] == rel[k] by {
        lemma_last_listing(gs, k);
        let (i, j) = choose|i: int, j: int|
            0 <= i < gs.len() && 0 <= j < gs[i].1.len() && gs[i].0 == k.0 && (#[trigger] gs[i].1[j]).target_stop == k.1 && gs[i].1[j].duration
                == listing_time(gs, k)->0;
        assert(rel[(gs[i].0, gs[i].1[j].target_stop)] == gs[i].1[j].duration);
    }
    assert(groups_map(gs) =~= rel);
    lemma_apply_groups_map(Map::empty(), gs);
    assert(Map::<(RaptorStopId, RaptorStopId), Time>::empty().union_prefer_right(rel) =~= rel);
}

/// Groups listing a relation exactly cover it.
pub proof fn lemma_lists_cover(gs: Seq<(RaptorStopId, Seq<Transfer>)>, rel: TransferRelation)
    requires
        lists_relation(gs, rel),
    ensures
        covers(gs, rel),
{
    assert forall|k: (RaptorStopId, RaptorStopId)| #[trigger] rel.contains_key(k) implies listed(gs, k) by {
        assert(rel.contains_key((k.0, k.1)));
    }
}

/// GTFS groups, one per origin with that origin's accepted transfers,
/// establish the GTFS relation.
pub proof fn lemma_gtfs_groups(gs: Seq<(RaptorStopId, Seq<Transfer>)>, gtfs: Seq<FeedTransfer>, ids: Map<Seq<char>, RaptorStopId>, max_transfer_time: Time)
    requires
        forall|a: int, b: int| 0 <= a < gs.len() && 0 <= b < gs.len() && a != b ==> gs[a].0 != gs[b].0,
        forall|a: int| 0 <= a < gs.len() ==> (#[trigger] gs[a]).1 == gtfs_accepted_from(gtfs, ids, max_transfer_time, gs[a].0),
        forall|from: RaptorStopId|
            #[trigger] gtfs_accepted_from(gtfs, ids, max_transfer_time, from).len() > 0 ==> exists|a: int| 0 <= a < gs.len() && #[trigger] gs[a].0 == from,
    ensures
        groups_map(gs) == gtfs_relation(gtfs, ids, max_transfer_time),
{
    let g = gtfs_relation(gtfs, ids, max_transfer_time);
    assert forall|k: (RaptorStopId, RaptorStopId)| listing_time(gs, k) == (if #[trigger] g.contains_key(k) { Some(g[k]) } else { None }) by {
        lemma_gtfs_relation(gtfs, ids, max_transfer_time, k);
        if exists|a: int| 0 <= a < gs.len() && #[trigger] gs[a].0 == k.0 {
            let a = choose|a: int| 0 <= a < gs.len() && #[trigger] gs[a].0 == k.0;
            lemma_last_listing_by_origin(gs, k, a);
        } else {
            lemma_no_listing_without_origin(gs, k);
            assert(gtfs_accepted_from(gtfs, ids, max_transfer_time, k.0).len() == 0);
        }
    }
    assert(groups_map(gs) =~= g);
}

/// `groups` indexes the stops by street node: each node with snapped stops
/// maps to them in increasing order.
pub open spec fn indexes_nodes(stop_nodes: Seq<Option<StreetNodeId>>, groups: Map<StreetNodeId, Seq<RaptorStopId>>) -> bool {
    &&& forall|n: StreetNodeId| #[trigger] groups.contains_key(n) <==> node_members(stop_nodes, n).len() > 0
    &&& forall|n: StreetNodeId| #[trigger] groups.contains_key(n) ==> groups[n] == node_members(stop_nodes, n)
}

/// A node's group holds a stop exactly when the stop is snapped to it.
pub proof fn lemma_node_index(stop_nodes: Seq<Option<StreetNodeId>>, groups: Map<StreetNodeId, Seq<RaptorStopId>>, n: StreetNodeId, t: RaptorStopId)
    requires
        indexes_nodes(stop_nodes, groups),
        stop_nodes.len() <= usize::MAX,
    ensures
        (groups.contains_key(n) && groups[n].contains(t)) <==> (t < stop_nodes.len() && stop_nodes[t as int] == Some(n)),
{
    lemma_node_members(stop_nodes, n, t);
    let members = node_members(stop_nodes, n);
    if t < stop_nodes.len() && stop_nodes[t as int] == Some(n) {
        let p = choose|p: int| 0 <= p < members.len() && members[p] == t;
        assert(members.len() > 0);
        assert(groups.contains_key(n));
    }
    if groups.contains_key(n) {
        assert(groups[n] == members);
    }
}

/// The stops of a node come in strictly increasing order.
pub proof fn lemma_node_members_increasing(stop_nodes: Seq<Option<StreetNodeId>>, n: StreetNodeId)
    requires
        stop_nodes.len() <= usize::MAX,
    ensures
        forall|i: int, j: int| 0 <= i < j < node_members(stop_nodes, n).len() ==> #[trigger] node_members(stop_nodes, n)[i]
            < #[trigger] node_members(stop_nodes, n)[j],
    decreases stop_nodes.len(),
{
    if stop_nodes.len() > 0 {
        let prev = stop_nodes.drop_last();
        lemma_node_members_increasing(prev, n);
        lemma_node_members(prev, n, 0);
        let pm = node_members(prev, n);
        let m = node_members(stop_nodes, n);
        if stop_nodes.last() == Some(n) {
            assert forall|i: int, j: int| 0 <= i < j < m.len() implies #[trigger] m[i] < #[trigger] m[j] by {
                assert(m[i] == pm[i]);
                if j < pm.len() {
                    assert(m[j] == pm[j]);
                } else {
                    assert(pm[i] < prev.len());
                }
            }
        }
    }
}

/// Node groups indexed from the stops' nodes hold every stop at most once.
pub proof fn lemma_indexed_members_distinct(stop_nodes: Seq<Option<StreetNodeId>>, groups: Map<StreetNodeId, Seq<RaptorStopId>>)
    requires
        indexes_nodes(stop_nodes, groups),
        stop_nodes.len() <= usize::MAX,
    ensures
        members_distinct(groups),
{
    assert forall|n1: StreetNodeId, n2: StreetNodeId, i: int, j: int|
        groups.contains_key(n1) && groups.contains_key(n2) && 0 <= i < groups[n1].len() && 0 <= j < groups[n2].len() && (n1 != n2 || i
            != j) implies #[trigger] groups[n1][i] != #[trigger] groups[n2][j] by {
        if n1 != n2 {
            let v = groups[n1][i];
            if v == groups[n2][j] {
                assert(groups[n1].contains(v));
                assert(groups[n2].contains(v));
                lemma_node_index(stop_nodes, groups, n1, v);
                lemma_node_index(stop_nodes, groups, n2, v);
            }
        } else {
            lemma_node_members_increasing(stop_nodes, n1);
            assert(groups[n1] == node_members(stop_nodes, n1));
            if i < j {
                assert(groups[n1][i] < groups[n1][j]);
            } else {
                assert(groups[n1][j] < groups[n1][i]);
            }
        }
    }
}

/// Sharing a node group is being co-located.
pub proof fn lemma_colocated_pair(
    stop_nodes: Seq<Option<StreetNodeId>>,
    groups: Map<StreetNodeId, Seq<RaptorStopId>>,
    a: RaptorStopId,
    b: RaptorStopId,
)
    requires
        indexes_nodes(stop_nodes, groups),
        stop_nodes.len() <= usize::MAX,
    ensures
        (a != b && colocated(groups, a, b)) <==> colocated_pair(stop_nodes, a, b),
{
    if a != b && colocated(groups, a, b) {
        let n = choose|n: StreetNodeId| #[trigger] groups.contains_key(n) && groups[n].len() >= 2 && groups[n].contains(a) && groups[n].contains(b);
        lemma_node_index(stop_nodes, groups, n, a);
        lemma_node_index(stop_nodes, groups, n, b);
    }
    if colocated_pair(stop_nodes, a, b) {
        let n = stop_nodes[a as int]->0;
        lemma_node_index(stop_nodes, groups, n, a);
        lemma_node_index(stop_nodes, groups, n, b);
        let members = groups[n];
        let p = choose|p: int| 0 <= p < members.len() && members[p] == a;
        let q = choose|q: int| 0 <= q < members.len() && members[q] == b;
        assert(p != q);
        assert(members.len() >= 2);
        assert(colocated(groups, a, b));
    }
}

/// The transfer array and the stops' slices hold the relation: some grouping
/// of it by origin, each origin once, is stored list after list, and each
/// stop with transfers points at its list; other stops keep their slices.
pub open spec fn stores_transfers(old_stops: Seq<Stop>, new_stops: Seq<Stop>, transfers: Seq<Transfer>, rel: TransferRelation) -> bool {
    exists|gs: Seq<(RaptorStopId, Seq<Transfer>)>|
        #[trigger] lists_relation(gs, rel) && transfers == concat_lists(gs) && new_stops.len() == old_stops.len() && forall|s: int|
            0 <= s < new_stops.len() ==> slice_recorded(gs, gs.len() as int, old_stops[s], #[trigger] new_stops[s], s as RaptorStopId)
}

/// GTFS stop identifier to stop index, a later stop replacing an earlier one
/// with the same identifier.
pub open spec fn stop_ids_of(stops: Seq<Stop>) -> Map<Seq<char>, RaptorStopId>
    decreases stops.len(),
{
    if stops.len() == 0 {
        Map::empty()
    } else {
        stop_ids_of(stops.drop_last()).insert(stops.last().stop_id@, (stops.len() - 1) as RaptorStopId)
    }
}

/// A list of the concatenation sits at its offset: the offset is the length
/// of the lists before it.
pub proof fn lemma_concat_index(gs: Seq<(RaptorStopId, Seq<Transfer>)>, i: int, k: int)
    requires
        0 <= i < gs.len(),
        0 <= k < gs[i].1.len(),
    ensures
        concat_lists(gs.take(i)).len() + gs[i].1.len() <= concat_lists(gs).len(),
        concat_lists(gs)[concat_lists(gs.take(i)).len() + k] == gs[i].1[k],
    decreases gs.len(),
{
    let n = gs.len() - 1;
    if i == n {
        assert(gs.take(i) =~= gs.drop_last());
    } else {
        assert(gs.drop_last().take(i) =~= gs.take(i));
        assert(gs.drop_last()[i] == gs[i]);
        lemma_concat_index(gs.drop_last(), i, k);
    }
}

/// Reading the stored transfers gives the relation back: a stop with
/// transfers in the relation points at a slice of the transfer array that
/// holds exactly its pairs of the relation, each target once, with the
/// relation's time; a stop without any keeps its slice.
pub proof fn law_stored_transfers_read_back(
    old_stops: Seq<Stop>,
    new_stops: Seq<Stop>,
    transfers: Seq<Transfer>,
    rel: TransferRelation,
    s: RaptorStopId,
)
    requires
        stores_transfers(old_stops, new_stops, transfers, rel),
        s < new_stops.len(),
    ensures
        (forall|t: RaptorStopId| !#[trigger] rel.contains_key((s, t))) ==> new_stops[s as int].transfers_start == old_stops[s as int].transfers_start
            && new_stops[s as int].transfers_len == old_stops[s as int].transfers_len,
        (exists|t: RaptorStopId| #[trigger] rel.contains_key((s, t))) ==> {
            let start = new_stops[s as int].transfers_start as int;
            let len = new_stops[s as int].transfers_len as int;
            &&& start + len <= transfers.len()
            &&& forall|j: int|
                start <= j < start + len ==> rel.contains_key((s, (#[trigger] transfers[j]).target_stop)) && rel[(s, transfers[j].target_stop)]
                    == transfers[j].duration
            &&& forall|j: int, l: int|
                start <= j < start + len && start <= l < start + len && j != l ==> (#[trigger] transfers[j]).target_stop != (
                #[trigger] transfers[l]).target_stop
            &&& forall|t: RaptorStopId| #[trigger] rel.contains_key((s, t)) ==> exists|j: int|
                start <= j < start + len && (#[trigger] transfers[j]).target_stop == t
        },
{
    let gs = choose|gs: Seq<(RaptorStopId, Seq<Transfer>)>|
        #[trigger] lists_relation(gs, rel) && transfers == concat_lists(gs) && new_stops.len() == old_stops.len() && forall|x: int|
            0 <= x < new_stops.len() ==> slice_recorded(gs, gs.len() as int, old_stops[x], #[trigger] new_stops[x], x as RaptorStopId);
    let n = gs.len() as int;
    assert(slice_recorded(gs, n, old_stops[s as int], new_stops[s as int], s));
    if exists|j: int| 0 <= j < n && #[trigger] gs[j].0 == s {
        let i = choose|i: int|
            #[trigger] last_listing(gs, s, i, n) && new_stops[s as int].transfers_start == concat_lists(gs.take(i)).len()
                && new_stops[s as int].transfers_len == gs[i].1.len();
        let start = new_stops[s as int].transfers_start as int;
        let len = new_stops[s as int].transfers_len as int;
        assert(gs[i].1.len() > 0);
        lemma_concat_index(gs, i, 0);
        assert forall|j: int| start <= j < start + len implies transfers[j] == gs[i].1[j - start] by {
            lemma_concat_index(gs, i, j - start);
        }
        assert forall|j: int|
            start <= j < start + len implies rel.contains_key((s, (#[trigger] transfers[j]).target_stop)) && rel[(s, transfers[j].target_stop)]
                == transfers[j].duration by {
            assert(transfers[j] == gs[i].1[j - start]);
        }
        assert forall|j: int, l: int|
            start <= j < start + len && start <= l < start + len && j != l implies (#[trigger] transfers[j]).target_stop != (
            #[trigger] transfers[l]).target_stop by {
            assert(transfers[j] == gs[i].1[j - start]);
            assert(transfers[l] == gs[i].1[l - start]);
        }
        assert forall|t: RaptorStopId| #[trigger] rel.contains_key((s, t)) implies exists|j: int|
            start <= j < start + len && (#[trigger] transfers[j]).target_stop == t by {
            let (a, k) = choose|a: int, k: int| 0 <= a < gs.len() && 0 <= k < gs[a].1.len() && gs[a].0 == s && (#[trigger] gs[a].1[k]).target_stop == t;
            assert(a == i);
            assert(transfers[start + k] == gs[i].1[k]);
        }
    } else {
        assert forall|t: RaptorStopId| !#[trigger] rel.contains_key((s, t)) by {
            if rel.contains_key((s, t)) {
                let (a, k) = choose|a: int, k: int| 0 <= a < gs.len() && 0 <= k < gs[a].1.len() && gs[a].0 == s && (#[trigger] gs[a].1[k]).target_stop == t;
                assert(gs[a].0 == s);
            }
        }
    }
}

/// GTFS transfers take precedence over computed ones, and zero-cost links
/// between co-located stops over street walks: a pair's time is the last
/// accepted GTFS time for it if the feeds have one, else 0 if the two stops
/// share a street node, else the street walk if there is one; a pair with
/// none of these has no transfer.
pub proof fn law_transfer_precedence(
    stop_nodes: Seq<Option<StreetNodeId>>,
    reachable: Seq<Map<StreetNodeId, Time>>,
    gtfs: Seq<FeedTransfer>,
    ids: Map<Seq<char>, RaptorStopId>,
    max_transfer_time: Time,
    a: RaptorStopId,
    b: RaptorStopId,
)
    ensures
        ({
            let m = model_transfers(stop_nodes, reachable, gtfs, ids, max_transfer_time);
            let listed_by_gtfs = last_in_list(gtfs_accepted_from(gtfs, ids, max_transfer_time, a), b);
            &&& listed_by_gtfs matches Some(d) ==> m.contains_key((a, b)) && m[(a, b)] == d
            &&& listed_by_gtfs is None && colocated_pair(stop_nodes, a, b) ==> m.contains_key((a, b)) && m[(a, b)] == 0
            &&& listed_by_gtfs is None && !colocated_pair(stop_nodes, a, b) && street_pair(stop_nodes, reachable, max_transfer_time, a, b)
                ==> m.contains_key((a, b)) && m[(a, b)] == reachable[a as int][stop_nodes[b as int]->0]
            &&& listed_by_gtfs is None && !colocated_pair(stop_nodes, a, b) && !street_pair(stop_nodes, reachable, max_transfer_time, a, b)
                ==> !m.contains_key((a, b))
        }),
{
    lemma_gtfs_relation(gtfs, ids, max_transfer_time, (a, b));
}

} // verus!
