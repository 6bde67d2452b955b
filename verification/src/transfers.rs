//! Walking transfers between stops: street-network transfers, zero-cost
//! links between co-located stops and GTFS-defined transfers, merged with
//! GTFS taking precedence.
use vstd::prelude::*;

use crate::collections::{StopIdMap, StopsByNode, TransferTable, TransfersByStop, WalkingTimes};
use crate::types::{FeedTransfer, RaptorStopId, StreetNodeId, Time, Transfer};

verus! {

/// Transfers grouped by their origin stop.
pub type StopTransfers = Vec<(RaptorStopId, Vec<Transfer>)>;

/// The lists of a group sequence, viewed as sequences.
pub open spec fn groups_view(v: Seq<(RaptorStopId, Vec<Transfer>)>) -> Seq<(RaptorStopId, Seq<Transfer>)> {
    v.map_values(|p: (RaptorStopId, Vec<Transfer>)| (p.0, p.1@))
}

/// Stops snapped to node `n`, in increasing order.
pub open spec fn node_members(stop_nodes: Seq<Option<StreetNodeId>>, n: StreetNodeId) -> Seq<RaptorStopId>
    decreases stop_nodes.len(),
{
    if stop_nodes.len() == 0 {
        Seq::empty()
    } else {
        let prev = node_members(stop_nodes.drop_last(), n);
        if stop_nodes.last() == Some(n) {
            prev.push((stop_nodes.len() - 1) as RaptorStopId)
        } else {
            prev
        }
    }
}

/// A stop is a member of node `n` exactly when it was snapped to `n`.
pub proof fn lemma_node_members(stop_nodes: Seq<Option<StreetNodeId>>, n: StreetNodeId, s: RaptorStopId)
    requires
        stop_nodes.len() <= usize::MAX,
    ensures
        node_members(stop_nodes, n).contains(s) <==> (s < stop_nodes.len() && stop_nodes[s as int] == Some(n)),
        forall|k: int| 0 <= k < node_members(stop_nodes, n).len() ==> #[trigger] node_members(stop_nodes, n)[k] < stop_nodes.len(),
    decreases stop_nodes.len(),
{
    if stop_nodes.len() > 0 {
        let prev = stop_nodes.drop_last();
        lemma_node_members(prev, n, s);
        let last = (stop_nodes.len() - 1) as RaptorStopId;
        let pm = node_members(prev, n);
        let m = node_members(stop_nodes, n);
        if s < prev.len() {
            assert(prev[s as int] == stop_nodes[s as int]);
        }
        if stop_nodes.last() == Some(n) {
            assert(m == pm.push(last));
            if s == last {
                assert(m[pm.len() as int] == s);
            } else {
                if m.contains(s) {
                    let k = choose|k: int| 0 <= k < m.len() && m[k] == s;
                    assert(k < pm.len());
                    assert(pm[k] == s);
                }
                if pm.contains(s) {
                    let k = choose|k: int| 0 <= k < pm.len() && pm[k] == s;
                    assert(m[k] == s);
                }
            }
            assert forall|k: int| 0 <= k < m.len() implies #[trigger] m[k] < stop_nodes.len() by {
                if k < pm.len() {
                    assert(m[k] == pm[k]);
                }
            }
        } else {
            assert(m == pm);
        }
    }
}

/// Keeps the street node of each stop that lies within `max_snap_time`
/// walking seconds of it. `nearest[i]` is stop `i`'s nearest street node and
/// the walking time to it, if the street network has any node.
pub fn snap_stops_to_network(nearest: &Vec<Option<(StreetNodeId, Time)>>, max_snap_time: Time) -> (r: Vec<Option<StreetNodeId>>)
    ensures
        r@.len() == nearest@.len(),
        forall|i: int| 0 <= i < r@.len() ==> #[trigger] r@[i] == (match nearest@[i] {
            Some((node, time)) => if time <= max_snap_time { Some(node) } else { None },
            None => None,
        }),
{
    let mut r: Vec<Option<StreetNodeId>> = Vec::new();
    let mut i: usize = 0;
    while i < nearest.len()
        invariant
            i <= nearest@.len(),
            r@.len() == i,
            forall|k: int| 0 <= k < i ==> #[trigger] r@[k] == (match nearest@[k] {
                Some((node, time)) => if time <= max_snap_time { Some(node) } else { None },
                None => None,
            }),
        decreases nearest@.len() - i,
    {
        let snapped = match nearest[i] {
            Some((node, time)) => if time <= max_snap_time {
                Some(node)
            } else {
                None
            },
            None => None,
        };
        r.push(snapped);
        i += 1;
    }
    r
}

/// Reverse index from street node to the stops snapped to it, each list in
/// increasing stop order.
pub fn group_stops_by_node(stop_nodes: &Vec<Option<StreetNodeId>>) -> (r: StopsByNode)
    ensures
        forall|n: StreetNodeId| #[trigger] r@.contains_key(n) <==> node_members(stop_nodes@, n).len() > 0,
        forall|n: StreetNodeId| #[trigger] r@.contains_key(n) ==> r@[n] == node_members(stop_nodes@, n),
        crate::relations::indexes_nodes(stop_nodes@, r@),
        members_distinct(r@),
{
    let mut grouped = StopsByNode::new();
    let mut i: usize = 0;
    while i < stop_nodes.len()
        invariant
            i <= stop_nodes@.len(),
            forall|n: StreetNodeId| #[trigger] grouped@.contains_key(n) <==> node_members(stop_nodes@.take(i as int), n).len() > 0,
            forall|n: StreetNodeId| #[trigger] grouped@.contains_key(n) ==> grouped@[n] == node_members(stop_nodes@.take(i as int), n),
        decreases stop_nodes@.len() - i,
    {
        let ghost before = grouped@;
        assert(stop_nodes@.take(i + 1).drop_last() =~= stop_nodes@.take(i as int));
        if let Some(node) = stop_nodes[i] {
            grouped.append(node, i);
        }
        i += 1;
        assert forall|n: StreetNodeId| #[trigger] grouped@.contains_key(n) <==> node_members(stop_nodes@.take(i as int), n).len() > 0 by {
            assert(node_members(stop_nodes@.take(i as int), n) == if stop_nodes@[i - 1] == Some(n) {
                node_members(stop_nodes@.take(i - 1), n).push((i - 1) as RaptorStopId)
            } else {
                node_members(stop_nodes@.take(i - 1), n)
            });
        }
        assert forall|n: StreetNodeId| #[trigger] grouped@.contains_key(n) implies grouped@[n] == node_members(stop_nodes@.take(i as int), n) by {
            assert(node_members(stop_nodes@.take(i as int), n) == if stop_nodes@[i - 1] == Some(n) {
                node_members(stop_nodes@.take(i - 1), n).push((i - 1) as RaptorStopId)
            } else {
                node_members(stop_nodes@.take(i - 1), n)
            });
            if stop_nodes@[i - 1] == Some(n) && !before.contains_key(n) {
                assert(node_members(stop_nodes@.take(i - 1), n) =~= Seq::<RaptorStopId>::empty());
            }
        }
    }
    assert(stop_nodes@.take(i as int) =~= stop_nodes@);
    proof {
        assert(stop_nodes.len() == stop_nodes@.len());
        crate::relations::lemma_indexed_members_distinct(stop_nodes@, grouped@);
    }
    grouped
}

} // verus!

verus! {

/// Stops `a` and `b` share a street node with at least two stops.
pub open spec fn colocated(groups: Map<StreetNodeId, Seq<RaptorStopId>>, a: RaptorStopId, b: RaptorStopId) -> bool {
    exists|n: StreetNodeId|
        #[trigger] groups.contains_key(n) && groups[n].len() >= 2 && groups[n].contains(a) && groups[n].contains(b)
}

/// The map holds a transfer from `a` to `b`.
pub open spec fn produced(m: Map<RaptorStopId, Seq<Transfer>>, a: RaptorStopId, b: RaptorStopId) -> bool {
    m.contains_key(a) && exists|k: int| 0 <= k < m[a].len() && (#[trigger] m[a][k]).target_stop == b
}

/// Appending to one list keeps every transfer already held.
pub proof fn lemma_append_keeps(
    m: Map<RaptorStopId, Seq<Transfer>>,
    x: RaptorStopId,
    t: Transfer,
    a: RaptorStopId,
    b: RaptorStopId,
)
    requires
        produced(m, a, b),
    ensures
        produced(
            m.insert(x, (if m.contains_key(x) { m[x] } else { Seq::<Transfer>::empty() }).push(t)),
            a,
            b,
        ),
{
    let m2 = m.insert(x, (if m.contains_key(x) { m[x] } else { Seq::<Transfer>::empty() }).push(t));
    let k = choose|k: int| 0 <= k < m[a].len() && (#[trigger] m[a][k]).target_stop == b;
    if a == x {
        assert(m2[a][k] == m[a][k]);
    } else {
        assert(m2[a] == m[a]);
    }
}

/// Processing order of `(group, from position, to position)` triples.
pub open spec fn triple_before(g2: int, p2: int, q2: int, g: int, p: int, q: int) -> bool {
    g2 < g || (g2 == g && (p2 < p || (p2 == p && q2 < q)))
}

/// Stop `a` is a member met before position `p` of group `g`.
pub open spec fn seen_before(gs: Seq<(StreetNodeId, Vec<RaptorStopId>)>, a: RaptorStopId, g: int, p: int) -> bool {
    exists|g2: int, p2: int|
        0 <= g2 < gs.len() && 0 <= p2 < gs[g2].1@.len() && (g2 < g || (g2 == g && p2 < p)) && #[trigger] gs[g2].1@[p2] == a
}

/// Zero-cost transfers between every two distinct stops that share a street
/// node, so that stops not chosen as a node's canonical stop stay reachable.
#[verifier::spinoff_prover]
pub fn create_colocated_stop_transfers(stops_by_node: &StopsByNode) -> (r: StopTransfers)
    ensures
        forall|i: int, j: int| 0 <= i < r@.len() && 0 <= j < r@.len() && i != j ==> r@[i].0 != r@[j].0,
        forall|i: int, k: int|
            0 <= i < r@.len() && 0 <= k < r@[i].1@.len() ==> (#[trigger] r@[i].1@[k]).duration == 0 && r@[i].1@[k].target_stop
                != r@[i].0 && colocated(stops_by_node@, r@[i].0, r@[i].1@[k].target_stop),
        forall|a: RaptorStopId, b: RaptorStopId|
            a != b && #[trigger] colocated(stops_by_node@, a, b) ==> exists|i: int, k: int|
                0 <= i < r@.len() && 0 <= k < r@[i].1@.len() && r@[i].0 == a && (#[trigger] r@[i].1@[k]).target_stop == b,
        members_distinct(stops_by_node@) ==> forall|i: int| 0 <= i < r@.len() ==> (#[trigger] r@[i]).1@.len() > 0,
        members_distinct(stops_by_node@) ==> forall|i: int, k: int, l: int|
            0 <= i < r@.len() && 0 <= k < l < r@[i].1@.len() ==> (#[trigger] r@[i].1@[k]).target_stop != (#[trigger] r@[i].1@[l]).target_stop,
{
    let groups = stops_by_node.entries();
    let ghost gs = groups@;
    let ghost d = members_distinct(stops_by_node@);
    let mut by_stop = TransfersByStop::new();
    let ghost mut m = crate::collections::transfers_by_stop_entries(by_stop);
    let mut g: usize = 0;
    while g < groups.len()
        invariant
            gs == groups@,
            g <= gs.len(),
            m == crate::collections::transfers_by_stop_entries(by_stop),
            forall|i: int| 0 <= i < gs.len() ==> #[trigger] stops_by_node@.contains_key(gs[i].0) && stops_by_node@[gs[i].0] == gs[i].1@,
            forall|a: RaptorStopId, k: int|
                m.contains_key(a) && 0 <= k < m[a].len() ==> (#[trigger] m[a][k]).duration == 0 && m[a][k].target_stop != a
                    && colocated(stops_by_node@, a, m[a][k].target_stop),
            forall|g2: int, p2: int, q2: int|
                0 <= g2 < g && gs[g2].1@.len() >= 2 && 0 <= p2 < gs[g2].1@.len() && 0 <= q2 < gs[g2].1@.len()
                    && #[trigger] gs[g2].1@[p2] != #[trigger] gs[g2].1@[q2] ==> produced(m, gs[g2].1@[p2], gs[g2].1@[q2]),
            d == members_distinct(stops_by_node@),
            forall|i: int, j: int| 0 <= i < gs.len() && 0 <= j < gs.len() && i != j ==> gs[i].0 != gs[j].0,
            d ==> forall|a: RaptorStopId| #[trigger] m.contains_key(a) ==> seen_before(gs, a, g as int, 0) && m[a].len() > 0,
            d ==> forall|a: RaptorStopId, k: int, l: int|
                m.contains_key(a) && 0 <= k < l < m[a].len() ==> (#[trigger] m[a][k]).target_stop != (#[trigger] m[a][l]).target_stop,
        decreases gs.len() - g,
    {
        let stops = &groups[g].1;
        if stops.len() >= 2 {
            let mut p: usize = 0;
            while p < stops.len()
                invariant
                    gs == groups@,
                    g < gs.len(),
                    stops == gs[g as int].1,
                    stops@.len() >= 2,
                    p <= stops@.len(),
                    m == crate::collections::transfers_by_stop_entries(by_stop),
                    forall|i: int| 0 <= i < gs.len() ==> #[trigger] stops_by_node@.contains_key(gs[i].0) && stops_by_node@[gs[i].0] == gs[i].1@,
                    forall|a: RaptorStopId, k: int|
                        m.contains_key(a) && 0 <= k < m[a].len() ==> (#[trigger] m[a][k]).duration == 0 && m[a][k].target_stop != a
                            && colocated(stops_by_node@, a, m[a][k].target_stop),
                    forall|g2: int, p2: int, q2: int|
                        triple_before(g2, p2, q2, g as int, p as int, 0) && 0 <= g2 && gs[g2].1@.len() >= 2 && 0 <= p2
                            < gs[g2].1@.len() && 0 <= q2 < gs[g2].1@.len() && #[trigger] gs[g2].1@[p2] != #[trigger] gs[g2].1@[q2]
                            ==> produced(m, gs[g2].1@[p2], gs[g2].1@[q2]),
                    d == members_distinct(stops_by_node@),
                    forall|i: int, j: int| 0 <= i < gs.len() && 0 <= j < gs.len() && i != j ==> gs[i].0 != gs[j].0,
                    d ==> forall|a: RaptorStopId| #[trigger] m.contains_key(a) ==> seen_before(gs, a, g as int, p as int) && m[a].len() > 0,
                    d ==> forall|a: RaptorStopId, k: int, l: int|
                        m.contains_key(a) && 0 <= k < l < m[a].len() ==> (#[trigger] m[a][k]).target_stop != (#[trigger] m[a][l]).target_stop,
                decreases stops@.len() - p,
            {
                let from_stop = stops[p];
                let ghost first_other: int = if p == 0 { 1 } else { 0 };
                proof {
                    if d && m.contains_key(from_stop) {
                        let (g2, p2) = choose|g2: int, p2: int|
                            0 <= g2 < gs.len() && 0 <= p2 < gs[g2].1@.len() && (g2 < g || (g2 == g && p2 < p)) && #[trigger] gs[g2].1@[p2]
                                == from_stop;
                        let n1 = gs[g2].0;
                        let n2 = gs[g as int].0;
                        assert(stops_by_node@.contains_key(gs[g2].0));
                        assert(stops_by_node@.contains_key(gs[g as int].0));
                        assert(stops_by_node@[n1][p2] == from_stop);
                        assert(stops_by_node@[n2][p as int] == from_stop);
                        assert(stops_by_node@[n1][p2] != stops_by_node@[n2][p as int]);
                    }
                }
                by_stop.ensure_entry(from_stop);
                proof {
                    let m0 = m;
                    m = crate::collections::transfers_by_stop_entries(by_stop);
                    assert(gs[g as int].1@[p as int] == from_stop);
                    if d {
                        assert(m[from_stop].len() == 0);
                        assert forall|a: RaptorStopId| #[trigger] m.contains_key(a) implies seen_before(gs, a, g as int, p + 1) by {
                            if a != from_stop {
                                assert(m0.contains_key(a));
                                assert(seen_before(gs, a, g as int, p as int));
                                let (g2, p2) = choose|g2: int, p2: int|
                                    0 <= g2 < gs.len() && 0 <= p2 < gs[g2].1@.len() && (g2 < g || (g2 == g && p2 < p))
                                        && #[trigger] gs[g2].1@[p2] == a;
                                assert(gs[g2].1@[p2] == a);
                            }
                        }
                        assert forall|a: RaptorStopId, k: int, l: int|
                            m.contains_key(a) && 0 <= k < l < m[a].len() implies (#[trigger] m[a][k]).target_stop != (
                            #[trigger] m[a][l]).target_stop by {
                            assert(m[a] == m0[a]);
                        }
                    }
                    assert forall|g2: int, p2: int, q2: int|
                        triple_before(g2, p2, q2, g as int, p as int, 0) && 0 <= g2 && gs[g2].1@.len() >= 2 && 0 <= p2
                            < gs[g2].1@.len() && 0 <= q2 < gs[g2].1@.len() && #[trigger] gs[g2].1@[p2] != #[trigger] gs[g2].1@[q2]
                            implies produced(m, gs[g2].1@[p2], gs[g2].1@[q2]) by {
                        let a = gs[g2].1@[p2];
                        let b = gs[g2].1@[q2];
                        assert(produced(m0, a, b));
                        let k = choose|k: int| 0 <= k < m0[a].len() && (#[trigger] m0[a][k]).target_stop == b;
                        assert(m[a][k] == m0[a][k]);
                    }
                }
                let mut q: usize = 0;
                while q < stops.len()
                    invariant
                        gs == groups@,
                        g < gs.len(),
                        stops == gs[g as int].1,
                        stops@.len() >= 2,
                        p < stops@.len(),
                        q <= stops@.len(),
                        from_stop == stops@[p as int],
                        m == crate::collections::transfers_by_stop_entries(by_stop),
                        forall|i: int| 0 <= i < gs.len() ==> #[trigger] stops_by_node@.contains_key(gs[i].0) && stops_by_node@[gs[i].0] == gs[i].1@,
                        forall|a: RaptorStopId, k: int|
                            m.contains_key(a) && 0 <= k < m[a].len() ==> (#[trigger] m[a][k]).duration == 0 && m[a][k].target_stop != a
                                && colocated(stops_by_node@, a, m[a][k].target_stop),
                        forall|g2: int, p2: int, q2: int|
                            triple_before(g2, p2, q2, g as int, p as int, q as int) && 0 <= g2 && gs[g2].1@.len() >= 2 && 0 <= p2
                                < gs[g2].1@.len() && 0 <= q2 < gs[g2].1@.len() && #[trigger] gs[g2].1@[p2] != #[trigger] gs[g2].1@[q2]
                                ==> produced(m, gs[g2].1@[p2], gs[g2].1@[q2]),
                        d == members_distinct(stops_by_node@),
                        forall|i: int, j: int| 0 <= i < gs.len() && 0 <= j < gs.len() && i != j ==> gs[i].0 != gs[j].0,
                        m.contains_key(from_stop),
                        d ==> forall|a: RaptorStopId| #[trigger] m.contains_key(a) ==> seen_before(gs, a, g as int, p + 1),
                        d ==> forall|a: RaptorStopId| #[trigger] m.contains_key(a) && a != from_stop ==> m[a].len() > 0,
                        first_other == (if p == 0 { 1int } else { 0int }),
                        d && q > first_other ==> m[from_stop].len() > 0,
                        d ==> forall|k: int|
                            0 <= k < m[from_stop].len() ==> exists|q2: int| 0 <= q2 < q && #[trigger] stops@[q2] == (#[trigger] m[from_stop][k]).target_stop,
                        d ==> forall|a: RaptorStopId, k: int, l: int|
                            m.contains_key(a) && 0 <= k < l < m[a].len() ==> (#[trigger] m[a][k]).target_stop != (#[trigger] m[a][l]).target_stop,
                    decreases stops@.len() - q,
                {
                    let to_stop = stops[q];
                    if to_stop != from_stop {
                        let t = Transfer { target_stop: to_stop, duration: 0 };
                        by_stop.append(from_stop, t);
                        proof {
                            let m0 = m;
                            m = crate::collections::transfers_by_stop_entries(by_stop);
                            assert(m[from_stop] == m0[from_stop].push(t));
                            if d {
                                assert forall|k: int|
                                    0 <= k < m[from_stop].len() implies exists|q2: int| 0 <= q2 < q + 1 && #[trigger] stops@[q2] == (
                                    #[trigger] m[from_stop][k]).target_stop by {
                                    if k < m0[from_stop].len() {
                                        assert(m[from_stop][k] == m0[from_stop][k]);
                                        let q2 = choose|q2: int| 0 <= q2 < q && #[trigger] stops@[q2] == m0[from_stop][k].target_stop;
                                        assert(stops@[q2] == m[from_stop][k].target_stop);
                                    } else {
                                        assert(stops@[q as int] == m[from_stop][k].target_stop);
                                    }
                                }
                                assert forall|a: RaptorStopId, k: int, l: int|
                                    m.contains_key(a) && 0 <= k < l < m[a].len() implies (#[trigger] m[a][k]).target_stop != (
                                    #[trigger] m[a][l]).target_stop by {
                                    if a == from_stop {
                                        if l == m0[from_stop].len() {
                                            assert(m[a][k] == m0[a][k]);
                                            let q2 = choose|q2: int| 0 <= q2 < q && #[trigger] stops@[q2] == m0[from_stop][k].target_stop;
                                            let n = gs[g as int].0;
                                            assert(stops_by_node@.contains_key(gs[g as int].0));
                                            assert(stops_by_node@[n][q2] != stops_by_node@[n][q as int]);
                                        } else {
                                            assert(m[a][k] == m0[a][k]);
                                            assert(m[a][l] == m0[a][l]);
                                        }
                                    } else {
                                        assert(m[a] == m0[a]);
                                    }
                                }
                                assert forall|a: RaptorStopId| #[trigger] m.contains_key(a) && a != from_stop implies m[a].len() > 0 by {
                                    assert(m0.contains_key(a));
                                }
                            }
                            assert(colocated(stops_by_node@, from_stop, to_stop)) by {
                                let n = gs[g as int].0;
                                assert(stops_by_node@.contains_key(n));
                                assert(stops_by_node@[n][p as int] == from_stop);
                                assert(stops_by_node@[n][q as int] == to_stop);
                            }
                            assert forall|a: RaptorStopId, k: int|
                                m.contains_key(a) && 0 <= k < m[a].len() implies (#[trigger] m[a][k]).duration == 0
                                    && m[a][k].target_stop != a && colocated(stops_by_node@, a, m[a][k].target_stop) by {
                                if a == from_stop && k == m[a].len() - 1 {
                                    assert(m[a][k] == t);
                                } else if a == from_stop {
                                    assert(m[a][k] == m0[a][k]);
                                }
                            }
                            assert forall|g2: int, p2: int, q2: int|
                                triple_before(g2, p2, q2, g as int, p as int, q + 1) && 0 <= g2 && gs[g2].1@.len() >= 2 && 0 <= p2
                                    < gs[g2].1@.len() && 0 <= q2 < gs[g2].1@.len() && #[trigger] gs[g2].1@[p2] != #[trigger] gs[g2].1@[q2]
                                    implies produced(m, gs[g2].1@[p2], gs[g2].1@[q2]) by {
                                if triple_before(g2, p2, q2, g as int, p as int, q as int) {
                                    lemma_append_keeps(m0, from_stop, t, gs[g2].1@[p2], gs[g2].1@[q2]);
                                } else {
                                    assert(m[from_stop][m[from_stop].len() - 1] == t);
                                }
                            }
                        }
                    } else {
                        proof {
                            if d && q as int == first_other {
                                let n = gs[g as int].0;
                                assert(stops_by_node@.contains_key(gs[g as int].0));
                                assert(stops_by_node@[n][q as int] != stops_by_node@[n][p as int]);
                            }
                        }
                    }
                    q += 1;
                }
                p += 1;
            }
        }
        g += 1;
    }
    let r = by_stop.into_entries();
    proof {
        assert forall|i: int, k: int|
            0 <= i < r@.len() && 0 <= k < r@[i].1@.len() implies (#[trigger] r@[i].1@[k]).duration == 0 && r@[i].1@[k].target_stop
                != r@[i].0 && colocated(stops_by_node@, r@[i].0, r@[i].1@[k].target_stop) by {
            assert(m[r@[i].0][k] == r@[i].1@[k]);
        }
        assert forall|a: RaptorStopId, b: RaptorStopId|
            a != b && #[trigger] colocated(stops_by_node@, a, b) implies exists|i: int, k: int|
                0 <= i < r@.len() && 0 <= k < r@[i].1@.len() && r@[i].0 == a && (#[trigger] r@[i].1@[k]).target_stop == b by {
            let n = choose|n: StreetNodeId|
                #[trigger] stops_by_node@.contains_key(n) && stops_by_node@[n].len() >= 2 && stops_by_node@[n].contains(a)
                    && stops_by_node@[n].contains(b);
            let gi = choose|gi: int| 0 <= gi < groups@.len() && #[trigger] groups@[gi].0 == n;
            let p2 = choose|p2: int| 0 <= p2 < stops_by_node@[n].len() && stops_by_node@[n][p2] == a;
            let q2 = choose|q2: int| 0 <= q2 < stops_by_node@[n].len() && stops_by_node@[n][q2] == b;
            assert(gs[gi].1@[p2] == a);
            assert(gs[gi].1@[q2] == b);
            assert(produced(m, a, b));
            let i = choose|i: int| 0 <= i < r@.len() && #[trigger] r@[i].0 == a;
            let k = choose|k: int| 0 <= k < m[a].len() && (#[trigger] m[a][k]).target_stop == b;
            assert(r@[i].1@[k] == m[a][k]);
        }
        if d {
            assert forall|i: int| 0 <= i < r@.len() implies (#[trigger] r@[i]).1@.len() > 0 by {
                assert(m.contains_key(r@[i].0));
            }
            assert forall|i: int, k: int, l: int|
                0 <= i < r@.len() && 0 <= k < l < r@[i].1@.len() implies (#[trigger] r@[i].1@[k]).target_stop != (
                #[trigger] r@[i].1@[l]).target_stop by {
                assert(m.contains_key(r@[i].0));
                assert(r@[i].1@[k] == m[r@[i].0][k]);
                assert(r@[i].1@[l] == m[r@[i].0][l]);
            }
        }
    }
    r
}

/// A transfer that the reachable street nodes give to a stop other than the
/// source: the stop is snapped to a node reached within `max_transfer_time`,
/// and the transfer takes the walking time to that node.
pub open spec fn reachable_transfer(
    reachable: Map<StreetNodeId, Time>,
    groups: Map<StreetNodeId, Seq<RaptorStopId>>,
    source: RaptorStopId,
    max_transfer_time: Time,
    t: Transfer,
) -> bool {
    exists|n: StreetNodeId|
        #[trigger] reachable.contains_key(n) && reachable[n] == t.duration && t.duration <= max_transfer_time
            && groups.contains_key(n) && groups[n].contains(t.target_stop) && t.target_stop != source
}

/// No stop appears twice across the node groups: neither in two groups nor
/// twice in one.
pub open spec fn members_distinct(groups: Map<StreetNodeId, Seq<RaptorStopId>>) -> bool {
    forall|n1: StreetNodeId, n2: StreetNodeId, i: int, j: int|
        groups.contains_key(n1) && groups.contains_key(n2) && 0 <= i < groups[n1].len() && 0 <= j < groups[n2].len() && (n1 != n2 || i
            != j) ==> #[trigger] groups[n1][i] != #[trigger] groups[n2][j]
}

/// Position `p` (entry, member) of the reached entries names stop `t`.
pub open spec fn came_from(
    es: Seq<(StreetNodeId, Time)>,
    groups: Map<StreetNodeId, Seq<RaptorStopId>>,
    p: (int, int),
    t: RaptorStopId,
) -> bool {
    &&& 0 <= p.0 < es.len()
    &&& groups.contains_key(es[p.0].0)
    &&& 0 <= p.1 < groups[es[p.0].0].len()
    &&& groups[es[p.0].0][p.1] == t
}

/// Position `a` comes before position `b` in scan order.
pub open spec fn pos_before(a: (int, int), b: (int, int)) -> bool {
    a.0 < b.0 || (a.0 == b.0 && a.1 < b.1)
}

/// Transfers from `source_idx` to every other stop snapped to a street node
/// reached within `max_transfer_time`, timed by the walk to that node.
pub fn transfers_from_reachable(
    reachable: &WalkingTimes,
    stops_by_node: &StopsByNode,
    source_idx: RaptorStopId,
    max_transfer_time: Time,
) -> (r: Vec<Transfer>)
    ensures
        forall|k: int| 0 <= k < r@.len() ==> reachable_transfer(reachable@, stops_by_node@, source_idx, max_transfer_time, #[trigger] r@[k]),
        forall|n: StreetNodeId, s: RaptorStopId|
            #[trigger] reachable@.contains_key(n) && reachable@[n] <= max_transfer_time && stops_by_node@.contains_key(n)
                && #[trigger] stops_by_node@[n].contains(s) && s != source_idx ==> r@.contains(
                Transfer { target_stop: s, duration: reachable@[n] },
            ),
        members_distinct(stops_by_node@) ==> forall|k: int, l: int|
            0 <= k < l < r@.len() ==> (#[trigger] r@[k]).target_stop != (#[trigger] r@[l]).target_stop,
        members_distinct(stops_by_node@) ==> r@.no_duplicates(),
{
    let entries = reachable.entries();
    let ghost es = entries@;
    let ghost mut pos: Seq<(int, int)> = Seq::empty();
    let mut out: Vec<Transfer> = Vec::new();
    let mut e: usize = 0;
    while e < entries.len()
        invariant
            es == entries@,
            e <= es.len(),
            forall|i: int| 0 <= i < es.len() ==> #[trigger] reachable@.contains_key(es[i].0) && reachable@[es[i].0] == es[i].1,
            forall|k: int| 0 <= k < out@.len() ==> reachable_transfer(reachable@, stops_by_node@, source_idx, max_transfer_time, #[trigger] out@[k]),
            forall|e2: int, s: RaptorStopId|
                0 <= e2 < e && es[e2].1 <= max_transfer_time && #[trigger] stops_by_node@.contains_key(es[e2].0)
                    && #[trigger] stops_by_node@[es[e2].0].contains(s) && s != source_idx ==> out@.contains(
                    Transfer { target_stop: s, duration: es[e2].1 },
                ),
            pos.len() == out@.len(),
            forall|k: int| 0 <= k < pos.len() ==> came_from(es, stops_by_node@, #[trigger] pos[k], out@[k].target_stop),
            forall|k: int, l: int| 0 <= k < l < pos.len() ==> pos_before(#[trigger] pos[k], #[trigger] pos[l]),
            forall|k: int| 0 <= k < pos.len() ==> (#[trigger] pos[k]).0 < e,
        decreases es.len() - e,
    {
        let (node, time) = entries[e];
        proof {
            assert(reachable@.contains_key(es[e as int].0));
        }
        if time <= max_transfer_time {
            if let Some(stops) = stops_by_node.get(node) {
                let mut q: usize = 0;
                while q < stops.len()
                    invariant
                        es == entries@,
                        e < es.len(),
                        node == es[e as int].0,
                        time == es[e as int].1,
                        time <= max_transfer_time,
                        reachable@.contains_key(node) && reachable@[node] == time,
                        stops_by_node@.contains_key(node),
                        stops@ == stops_by_node@[node],
                        q <= stops@.len(),
                        forall|i: int| 0 <= i < es.len() ==> #[trigger] reachable@.contains_key(es[i].0) && reachable@[es[i].0] == es[i].1,
                        forall|k: int| 0 <= k < out@.len() ==> reachable_transfer(reachable@, stops_by_node@, source_idx, max_transfer_time, #[trigger] out@[k]),
                        forall|e2: int, s: RaptorStopId|
                            0 <= e2 < e && es[e2].1 <= max_transfer_time && #[trigger] stops_by_node@.contains_key(es[e2].0)
                                && #[trigger] stops_by_node@[es[e2].0].contains(s) && s != source_idx ==> out@.contains(
                                Transfer { target_stop: s, duration: es[e2].1 },
                            ),
                        forall|q2: int| 0 <= q2 < q && stops@[q2] != source_idx ==> out@.contains(
                            Transfer { target_stop: #[trigger] stops@[q2], duration: time },
                        ),
                        pos.len() == out@.len(),
                        forall|k: int| 0 <= k < pos.len() ==> came_from(es, stops_by_node@, #[trigger] pos[k], out@[k].target_stop),
                        forall|k: int, l: int| 0 <= k < l < pos.len() ==> pos_before(#[trigger] pos[k], #[trigger] pos[l]),
                        forall|k: int| 0 <= k < pos.len() ==> pos_before(#[trigger] pos[k], (e as int, q as int)),
                    decreases stops@.len() - q,
                {
                    let target_stop = stops[q];
                    if target_stop != source_idx {
                        let t = Transfer { target_stop, duration: time };
                        let ghost before = out@;
                        let ghost before_pos = pos;
                        out.push(t);
                        proof {
                            pos = pos.push((e as int, q as int));
                            assert forall|k: int| 0 <= k < pos.len() implies came_from(es, stops_by_node@, #[trigger] pos[k], out@[k].target_stop) by {
                                if k < before_pos.len() {
                                    assert(pos[k] == before_pos[k]);
                                    assert(out@[k] == before[k]);
                                }
                            }
                            assert forall|k: int, l: int| 0 <= k < l < pos.len() implies pos_before(#[trigger] pos[k], #[trigger] pos[l]) by {
                                assert(pos[k] == before_pos[k]);
                                if l < before_pos.len() {
                                    assert(pos[l] == before_pos[l]);
                                }
                            }
                            assert forall|k: int| 0 <= k < pos.len() implies pos_before(#[trigger] pos[k], (e as int, q + 1)) by {
                                if k < before_pos.len() {
                                    assert(pos[k] == before_pos[k]);
                                }
                            }
                            assert(stops_by_node@[node][q as int] == target_stop);
                            assert(reachable_transfer(reachable@, stops_by_node@, source_idx, max_transfer_time, t));
                            assert(out@[before.len() as int] == t);
                            assert forall|x: Transfer| before.contains(x) implies out@.contains(x) by {
                                let k = choose|k: int| 0 <= k < before.len() && before[k] == x;
                                assert(out@[k] == x);
                            }
                        }
                    }
                    q += 1;
                }
                proof {
                    assert forall|s: RaptorStopId| #[trigger] stops@.contains(s) && s != source_idx implies out@.contains(
                        Transfer { target_stop: s, duration: time },
                    ) by {
                        let q2 = choose|q2: int| 0 <= q2 < stops@.len() && stops@[q2] == s;
                    }
                }
            }
        }
        e += 1;
    }
    proof {
        assert forall|n: StreetNodeId, s: RaptorStopId|
            #[trigger] reachable@.contains_key(n) && reachable@[n] <= max_transfer_time && stops_by_node@.contains_key(n)
                && #[trigger] stops_by_node@[n].contains(s) && s != source_idx implies out@.contains(
                Transfer { target_stop: s, duration: reachable@[n] },
            ) by {
            let e2 = choose|e2: int| 0 <= e2 < es.len() && #[trigger] es[e2].0 == n;
        }
        if members_distinct(stops_by_node@) {
            assert forall|k: int, l: int| 0 <= k < l < out@.len() implies (#[trigger] out@[k]).target_stop != (
            #[trigger] out@[l]).target_stop by {
                assert(came_from(es, stops_by_node@, pos[k], out@[k].target_stop));
                assert(came_from(es, stops_by_node@, pos[l], out@[l].target_stop));
                assert(pos_before(pos[k], pos[l]));
                let n1 = es[pos[k].0].0;
                let n2 = es[pos[l].0].0;
                assert(stops_by_node@[n1][pos[k].1] != stops_by_node@[n2][pos[l].1]);
            }
            assert forall|k: int, l: int| 0 <= k < out@.len() && 0 <= l < out@.len() && k != l implies out@[k] != out@[l] by {
                if k < l {
                    assert(out@[k].target_stop != out@[l].target_stop);
                } else {
                    assert(out@[l].target_stop != out@[k].target_stop);
                }
            }
        }
    }
    out
}

} // verus!

verus! {

/// The transfer that scanning every stop finds for target `t.target_stop`:
/// another stop, snapped to a node reached within the limit.
pub open spec fn scanned_transfer(
    reachable: Map<StreetNodeId, Time>,
    stop_nodes: Seq<Option<StreetNodeId>>,
    source: RaptorStopId,
    max_transfer_time: Time,
    t: Transfer,
) -> bool {
    &&& t.target_stop < stop_nodes.len()
    &&& t.target_stop != source
    &&& stop_nodes[t.target_stop as int] is Some
    &&& reachable.contains_key(stop_nodes[t.target_stop as int]->0)
    &&& reachable[stop_nodes[t.target_stop as int]->0] == t.duration
    &&& t.duration <= max_transfer_time
}

/// Searching from the reached nodes through the node-to-stops index finds
/// exactly the transfers that scanning every stop's node would find.
pub proof fn law_inverted_search_matches_scan(
    reachable: Map<StreetNodeId, Time>,
    stop_nodes: Seq<Option<StreetNodeId>>,
    groups: Map<StreetNodeId, Seq<RaptorStopId>>,
    source: RaptorStopId,
    max_transfer_time: Time,
    found: Seq<Transfer>,
)
    requires
        stop_nodes.len() <= usize::MAX,
        forall|n: StreetNodeId| #[trigger] groups.contains_key(n) <==> node_members(stop_nodes, n).len() > 0,
        forall|n: StreetNodeId| #[trigger] groups.contains_key(n) ==> groups[n] == node_members(stop_nodes, n),
        forall|k: int| 0 <= k < found.len() ==> reachable_transfer(reachable, groups, source, max_transfer_time, #[trigger] found[k]),
        forall|n: StreetNodeId, s: RaptorStopId|
            #[trigger] reachable.contains_key(n) && reachable[n] <= max_transfer_time && groups.contains_key(n)
                && #[trigger] groups[n].contains(s) && s != source ==> found.contains(Transfer { target_stop: s, duration: reachable[n] }),
    ensures
        forall|t: Transfer| found.contains(t) <==> #[trigger] scanned_transfer(reachable, stop_nodes, source, max_transfer_time, t),
{
    assert forall|t: Transfer| found.contains(t) <==> #[trigger] scanned_transfer(reachable, stop_nodes, source, max_transfer_time, t) by {
        if found.contains(t) {
            let k = choose|k: int| 0 <= k < found.len() && found[k] == t;
            assert(reachable_transfer(reachable, groups, source, max_transfer_time, found[k]));
            let n = choose|n: StreetNodeId|
                #[trigger] reachable.contains_key(n) && reachable[n] == t.duration && t.duration <= max_transfer_time
                    && groups.contains_key(n) && groups[n].contains(t.target_stop) && t.target_stop != source;
            lemma_node_members(stop_nodes, n, t.target_stop);
        }
        if scanned_transfer(reachable, stop_nodes, source, max_transfer_time, t) {
            let n = stop_nodes[t.target_stop as int]->0;
            lemma_node_members(stop_nodes, n, t.target_stop);
            assert(groups.contains_key(n));
            assert(groups[n].contains(t.target_stop));
        }
    }
}

/// Whether a GTFS transfer is kept, and as what: transfers that are not
/// forbidden (`transfer_type` 3), carry a minimum time within the limit,
/// name two known stops and join two different stops.
pub open spec fn gtfs_accepted(t: FeedTransfer, ids: Map<Seq<char>, RaptorStopId>, max_transfer_time: Time) -> Option<(RaptorStopId, Transfer)> {
    if t.transfer_type == 3 {
        None
    } else if t.min_transfer_time is None {
        None
    } else if t.min_transfer_time->0 > max_transfer_time {
        None
    } else if !ids.contains_key(t.from_stop_id@) || !ids.contains_key(t.to_stop_id@) {
        None
    } else if ids[t.from_stop_id@] == ids[t.to_stop_id@] {
        None
    } else {
        Some((ids[t.from_stop_id@], Transfer { target_stop: ids[t.to_stop_id@], duration: t.min_transfer_time->0 }))
    }
}

/// The accepted GTFS transfers from stop `from`, in file order.
pub open spec fn gtfs_accepted_from(
    gtfs: Seq<FeedTransfer>,
    ids: Map<Seq<char>, RaptorStopId>,
    max_transfer_time: Time,
    from: RaptorStopId,
) -> Seq<Transfer>
    decreases gtfs.len(),
{
    if gtfs.len() == 0 {
        Seq::empty()
    } else {
        let prev = gtfs_accepted_from(gtfs.drop_last(), ids, max_transfer_time, from);
        match gtfs_accepted(gtfs.last(), ids, max_transfer_time) {
            Some((f, t)) => if f == from {
                prev.push(t)
            } else {
                prev
            },
            None => prev,
        }
    }
}

/// A GTFS transfer is kept only as what its row says: a row without a
/// minimum transfer time yields nothing; a kept transfer lasts exactly the
/// row's minimum transfer time, within the limit, between the two distinct
/// stops the row names, and the row does not forbid the transfer.
pub proof fn law_gtfs_transfer_is_its_row(t: FeedTransfer, ids: Map<Seq<char>, RaptorStopId>, max_transfer_time: Time)
    ensures
        t.min_transfer_time is None ==> gtfs_accepted(t, ids, max_transfer_time) is None,
        t.transfer_type == 3 ==> gtfs_accepted(t, ids, max_transfer_time) is None,
        gtfs_accepted(t, ids, max_transfer_time) matches Some((from, tr)) ==> {
            &&& t.min_transfer_time == Some(tr.duration)
            &&& tr.duration <= max_transfer_time
            &&& ids.contains_key(t.from_stop_id@) && ids[t.from_stop_id@] == from
            &&& ids.contains_key(t.to_stop_id@) && ids[t.to_stop_id@] == tr.target_stop
            &&& from != tr.target_stop
        },
{
}

/// Every GTFS transfer kept from a stop comes from a row of the feed that
/// names that stop and the target and carries exactly its duration as the
/// minimum transfer time.
pub proof fn law_gtfs_transfers_come_from_rows(
    gtfs: Seq<FeedTransfer>,
    ids: Map<Seq<char>, RaptorStopId>,
    max_transfer_time: Time,
    from: RaptorStopId,
)
    ensures
        forall|j: int|
            0 <= j < gtfs_accepted_from(gtfs, ids, max_transfer_time, from).len() ==> exists|i: int|
                0 <= i < gtfs.len() && (#[trigger] gtfs[i]).min_transfer_time == Some(
                    (#[trigger] gtfs_accepted_from(gtfs, ids, max_transfer_time, from)[j]).duration,
                ) && ids.contains_key(gtfs[i].from_stop_id@) && ids[gtfs[i].from_stop_id@] == from && ids.contains_key(
                    gtfs[i].to_stop_id@,
                ) && ids[gtfs[i].to_stop_id@] == gtfs_accepted_from(gtfs, ids, max_transfer_time, from)[j].target_stop,
    decreases gtfs.len(),
{
    if gtfs.len() > 0 {
        let prev = gtfs.drop_last();
        law_gtfs_transfers_come_from_rows(prev, ids, max_transfer_time, from);
        let list = gtfs_accepted_from(gtfs, ids, max_transfer_time, from);
        let plist = gtfs_accepted_from(prev, ids, max_transfer_time, from);
        assert forall|j: int| 0 <= j < list.len() implies exists|i: int|
            0 <= i < gtfs.len() && (#[trigger] gtfs[i]).min_transfer_time == Some((#[trigger] list[j]).duration) && ids.contains_key(
                gtfs[i].from_stop_id@,
            ) && ids[gtfs[i].from_stop_id@] == from && ids.contains_key(gtfs[i].to_stop_id@) && ids[gtfs[i].to_stop_id@] == list[j].target_stop by {
            if j < plist.len() {
                assert(list[j] == plist[j]);
                let i = choose|i: int|
                    0 <= i < prev.len() && (#[trigger] prev[i]).min_transfer_time == Some((#[trigger] plist[j]).duration) && ids.contains_key(
                        prev[i].from_stop_id@,
                    ) && ids[prev[i].from_stop_id@] == from && ids.contains_key(prev[i].to_stop_id@) && ids[prev[i].to_stop_id@]
                        == plist[j].target_stop;
                assert(gtfs[i] == prev[i]);
            } else {
                let n = gtfs.len() - 1;
                assert(gtfs[n] == gtfs.last());
                law_gtfs_transfer_is_its_row(gtfs.last(), ids, max_transfer_time);
            }
        }
    }
}

/// Converts GTFS transfers to stop indices, grouped by origin stop. Each
/// origin with at least one accepted transfer appears once, with its
/// accepted transfers in file order.
pub fn convert_gtfs_transfers_to_internal(
    gtfs_transfers: &Vec<FeedTransfer>,
    stop_id_map: &StopIdMap,
    max_transfer_time: Time,
) -> (r: StopTransfers)
    ensures
        forall|i: int, j: int| 0 <= i < r@.len() && 0 <= j < r@.len() && i != j ==> r@[i].0 != r@[j].0,
        forall|i: int|
            0 <= i < r@.len() ==> (#[trigger] r@[i]).1@ == gtfs_accepted_from(
                gtfs_transfers@,
                crate::collections::stop_id_entries(*stop_id_map),
                max_transfer_time,
                r@[i].0,
            ) && r@[i].1@.len() > 0,
        forall|from: RaptorStopId|
            #[trigger] gtfs_accepted_from(gtfs_transfers@, crate::collections::stop_id_entries(*stop_id_map), max_transfer_time, from).len()
                > 0 ==> exists|i: int| 0 <= i < r@.len() && #[trigger] r@[i].0 == from,
{
    let ghost ids = crate::collections::stop_id_entries(*stop_id_map);
    let mut by_stop = TransfersByStop::new();
    let mut i: usize = 0;
    while i < gtfs_transfers.len()
        invariant
            i <= gtfs_transfers@.len(),
            ids == crate::collections::stop_id_entries(*stop_id_map),
            forall|f: RaptorStopId| #[trigger] crate::collections::transfers_by_stop_entries(by_stop).contains_key(f)
                <==> gtfs_accepted_from(gtfs_transfers@.take(i as int), ids, max_transfer_time, f).len() > 0,
            forall|f: RaptorStopId| #[trigger] crate::collections::transfers_by_stop_entries(by_stop).contains_key(f)
                ==> crate::collections::transfers_by_stop_entries(by_stop)[f] == gtfs_accepted_from(
                gtfs_transfers@.take(i as int),
                ids,
                max_transfer_time,
                f,
            ),
        decreases gtfs_transfers@.len() - i,
    {
        let ghost before = crate::collections::transfers_by_stop_entries(by_stop);
        let transfer = &gtfs_transfers[i];
        assert(gtfs_transfers@.take(i + 1).drop_last() =~= gtfs_transfers@.take(i as int));
        assert(gtfs_transfers@.take(i + 1).last() == *transfer);
        let mut kept: Option<(RaptorStopId, Transfer)> = None;
        if transfer.transfer_type != 3 {
            if let Some(duration) = transfer.min_transfer_time {
                if duration <= max_transfer_time {
                    if let Some(from_idx) = stop_id_map.get(transfer.from_stop_id.as_str()) {
                        if let Some(to_idx) = stop_id_map.get(transfer.to_stop_id.as_str()) {
                            if from_idx != to_idx {
                                kept = Some((from_idx, Transfer { target_stop: to_idx, duration }));
                            }
                        }
                    }
                }
            }
        }
        assert(kept == gtfs_accepted(*transfer, ids, max_transfer_time));
        if let Some((from_idx, t)) = kept {
            by_stop.append(from_idx, t);
        }
        i += 1;
        proof {
            let after = crate::collections::transfers_by_stop_entries(by_stop);
            assert forall|f: RaptorStopId| #[trigger] after.contains_key(f) <==> gtfs_accepted_from(
                gtfs_transfers@.take(i as int),
                ids,
                max_transfer_time,
                f,
            ).len() > 0 by {
                assert(gtfs_accepted_from(gtfs_transfers@.take(i as int), ids, max_transfer_time, f) == match kept {
                    Some((g, t)) => if g == f {
                        gtfs_accepted_from(gtfs_transfers@.take(i - 1), ids, max_transfer_time, f).push(t)
                    } else {
                        gtfs_accepted_from(gtfs_transfers@.take(i - 1), ids, max_transfer_time, f)
                    },
                    None => gtfs_accepted_from(gtfs_transfers@.take(i - 1), ids, max_transfer_time, f),
                });
            }
            assert forall|f: RaptorStopId| #[trigger] after.contains_key(f) implies after[f] == gtfs_accepted_from(
                gtfs_transfers@.take(i as int),
                ids,
                max_transfer_time,
                f,
            ) by {
                assert(gtfs_accepted_from(gtfs_transfers@.take(i as int), ids, max_transfer_time, f) == match kept {
                    Some((g, t)) => if g == f {
                        gtfs_accepted_from(gtfs_transfers@.take(i - 1), ids, max_transfer_time, f).push(t)
                    } else {
                        gtfs_accepted_from(gtfs_transfers@.take(i - 1), ids, max_transfer_time, f)
                    },
                    None => gtfs_accepted_from(gtfs_transfers@.take(i - 1), ids, max_transfer_time, f),
                });
                if kept is Some {
                    let (g, _t) = kept->0;
                    if g == f && !before.contains_key(f) {
                        assert(gtfs_accepted_from(gtfs_transfers@.take(i - 1), ids, max_transfer_time, f).len() == 0);
                        assert(gtfs_accepted_from(gtfs_transfers@.take(i - 1), ids, max_transfer_time, f) =~= Seq::<Transfer>::empty());
                    }
                }
            }
        }
    }
    assert(gtfs_transfers@.take(i as int) =~= gtfs_transfers@);
    let ghost m = crate::collections::transfers_by_stop_entries(by_stop);
    let r = by_stop.into_entries();
    proof {
        assert forall|i: int| 0 <= i < r@.len() implies (#[trigger] r@[i]).1@ == gtfs_accepted_from(
            gtfs_transfers@,
            ids,
            max_transfer_time,
            r@[i].0,
        ) && r@[i].1@.len() > 0 by {
            assert(m.contains_key(r@[i].0));
        }
        assert forall|from: RaptorStopId|
            #[trigger] gtfs_accepted_from(gtfs_transfers@, ids, max_transfer_time, from).len() > 0 implies exists|i: int|
                0 <= i < r@.len() && #[trigger] r@[i].0 == from by {
            assert(m.contains_key(from));
        }
    }
    r
}

} // verus!

verus! {

/// A transfer relation: `(from, to)` to walking seconds.
pub type TransferRelation = Map<(RaptorStopId, RaptorStopId), Time>;

/// Applies one origin's transfers in order; a later transfer to the same
/// target replaces an earlier one.
pub open spec fn apply_list(m: TransferRelation, from: RaptorStopId, ts: Seq<Transfer>) -> TransferRelation
    decreases ts.len(),
{
    if ts.len() == 0 {
        m
    } else {
        apply_list(m, from, ts.drop_last()).insert((from, ts.last().target_stop), ts.last().duration)
    }
}

/// Applies groups of transfers in order on top of `m`.
pub open spec fn apply_groups(m: TransferRelation, gs: Seq<(RaptorStopId, Seq<Transfer>)>) -> TransferRelation
    decreases gs.len(),
{
    if gs.len() == 0 {
        m
    } else {
        apply_list(apply_groups(m, gs.drop_last()), gs.last().0, gs.last().1)
    }
}

/// `gs` lists the relation exactly: every origin once with a non-empty list,
/// every target at most once per origin, and every listed transfer carries
/// the relation's time.
pub open spec fn lists_relation(gs: Seq<(RaptorStopId, Seq<Transfer>)>, rel: TransferRelation) -> bool {
    &&& forall|i: int, j: int| 0 <= i < gs.len() && 0 <= j < gs.len() && i != j ==> gs[i].0 != gs[j].0
    &&& forall|i: int| 0 <= i < gs.len() ==> (#[trigger] gs[i]).1.len() > 0
    &&& forall|i: int, k: int, l: int|
        0 <= i < gs.len() && 0 <= k < gs[i].1.len() && 0 <= l < gs[i].1.len() && k != l ==> (#[trigger] gs[i].1[k]).target_stop
            != (#[trigger] gs[i].1[l]).target_stop
    &&& forall|i: int, k: int|
        0 <= i < gs.len() && 0 <= k < gs[i].1.len() ==> rel.contains_key((gs[i].0, (#[trigger] gs[i].1[k]).target_stop))
            && rel[(gs[i].0, gs[i].1[k].target_stop)] == gs[i].1[k].duration
    &&& forall|f: RaptorStopId, tg: RaptorStopId|
        #[trigger] rel.contains_key((f, tg)) ==> exists|i: int, k: int|
            0 <= i < gs.len() && 0 <= k < gs[i].1.len() && gs[i].0 == f && (#[trigger] gs[i].1[k]).target_stop == tg
}

/// The table holds exactly the relation.
pub open spec fn table_matches(t: Map<RaptorStopId, Map<RaptorStopId, Transfer>>, rel: TransferRelation) -> bool {
    &&& forall|f: RaptorStopId, tg: RaptorStopId|
        #![trigger t[f].contains_key(tg)]
        #![trigger rel.contains_key((f, tg))]
        (t.contains_key(f) && t[f].contains_key(tg)) <==> rel.contains_key((f, tg))
    &&& forall|f: RaptorStopId, tg: RaptorStopId|
        t.contains_key(f) && #[trigger] t[f].contains_key(tg) ==> t[f][tg] == Transfer { target_stop: tg, duration: rel[(f, tg)] }
}

/// Applies groups of transfers to the table.
fn absorb(table: &mut TransferTable, groups: &StopTransfers, Ghost(base): Ghost<TransferRelation>)
    requires
        table_matches(crate::collections::transfer_table_entries(*old(table)), base),
    ensures
        table_matches(crate::collections::transfer_table_entries(*final(table)), apply_groups(base, groups_view(groups@))),
{
    let ghost gv = groups_view(groups@);
    let mut i: usize = 0;
    while i < groups.len()
        invariant
            i <= groups@.len(),
            gv == groups_view(groups@),
            table_matches(crate::collections::transfer_table_entries(*table), apply_groups(base, gv.take(i as int))),
        decreases groups@.len() - i,
    {
        let from_stop = groups[i].0;
        let transfers = &groups[i].1;
        let ghost rel0 = apply_groups(base, gv.take(i as int));
        assert(gv.take(i + 1).drop_last() =~= gv.take(i as int));
        assert(gv.take(i + 1).last() == (from_stop, transfers@));
        let ghost t0 = crate::collections::transfer_table_entries(*table);
        table.ensure_entry(from_stop);
        proof {
            let t1 = crate::collections::transfer_table_entries(*table);
            assert(transfers@.take(0) =~= Seq::<Transfer>::empty());
            assert forall|f: RaptorStopId, tg: RaptorStopId|
                #![trigger t1[f].contains_key(tg)]
                #![trigger rel0.contains_key((f, tg))]
                (t1.contains_key(f) && t1[f].contains_key(tg)) <==> rel0.contains_key((f, tg)) by {
                if t0.contains_key(f) {
                    assert(t1[f] == t0[f]);
                    assert((t0.contains_key(f) && t0[f].contains_key(tg)) <==> rel0.contains_key((f, tg)));
                } else {
                    assert((t0.contains_key(f) && t0[f].contains_key(tg)) <==> rel0.contains_key((f, tg)));
                    if f == from_stop {
                        assert(t1[f] == Map::<RaptorStopId, Transfer>::empty());
                    }
                }
            }
            assert forall|f: RaptorStopId, tg: RaptorStopId|
                t1.contains_key(f) && #[trigger] t1[f].contains_key(tg) implies t1[f][tg] == Transfer {
                target_stop: tg,
                duration: rel0[(f, tg)],
            } by {
                if t0.contains_key(f) {
                    assert(t1[f] == t0[f]);
                    assert(t0[f].contains_key(tg));
                } else if f == from_stop {
                    assert(t1[f] == Map::<RaptorStopId, Transfer>::empty());
                }
            }
        }
        let mut k: usize = 0;
        while k < transfers.len()
            invariant
                k <= transfers@.len(),
                transfers == &groups@[i as int].1,
                table_matches(crate::collections::transfer_table_entries(*table), apply_list(rel0, from_stop, transfers@.take(k as int))),
            decreases transfers@.len() - k,
        {
            let t = transfers[k];
            let ghost before = crate::collections::transfer_table_entries(*table);
            let ghost rel = apply_list(rel0, from_stop, transfers@.take(k as int));
            table.set(from_stop, t);
            assert(transfers@.take(k + 1).drop_last() =~= transfers@.take(k as int));
            assert(transfers@.take(k + 1).last() == t);
            let ghost after = crate::collections::transfer_table_entries(*table);
            let ghost rel2 = rel.insert((from_stop, t.target_stop), t.duration);
            assert(apply_list(rel0, from_stop, transfers@.take(k + 1)) == rel2);
            assert forall|f: RaptorStopId, tg: RaptorStopId|
                #![trigger after[f].contains_key(tg)]
                #![trigger rel2.contains_key((f, tg))]
                (after.contains_key(f) && after[f].contains_key(tg)) <==> rel2.contains_key((f, tg)) by {
                assert((before.contains_key(f) && before[f].contains_key(tg)) <==> rel.contains_key((f, tg)));
                if f == from_stop {
                    if tg != t.target_stop {
                        if before.contains_key(f) {
                            assert(after[f] == before[f].insert(t.target_stop, t));
                        }
                    }
                } else {
                    assert(after.contains_key(f) == before.contains_key(f));
                    if after.contains_key(f) {
                        assert(after[f] == before[f]);
                    }
                }
            }
            assert forall|f: RaptorStopId, tg: RaptorStopId|
                after.contains_key(f) && #[trigger] after[f].contains_key(tg) implies after[f][tg] == Transfer {
                target_stop: tg,
                duration: rel2[(f, tg)],
            } by {
                if f == from_stop {
                    if tg != t.target_stop {
                        assert(before.contains_key(f));
                        assert(after[f] == before[f].insert(t.target_stop, t));
                        assert(before[f].contains_key(tg));
                    }
                } else {
                    assert(after[f] == before[f]);
                    assert(before[f].contains_key(tg));
                }
            }
            k += 1;
        }
        assert(transfers@.take(k as int) =~= transfers@);
        assert(apply_groups(base, gv.take(i + 1)) == apply_list(apply_groups(base, gv.take(i as int)), from_stop, transfers@));
        i += 1;
    }
    assert(gv.take(i as int) =~= gv);
}

/// The transfers of a table entry, without their keys.
fn entry_values(pairs: &Vec<(RaptorStopId, Transfer)>) -> (r: Vec<Transfer>)
    ensures
        r@.len() == pairs@.len(),
        forall|k: int| 0 <= k < r@.len() ==> #[trigger] r@[k] == pairs@[k].1,
{
    let mut r: Vec<Transfer> = Vec::new();
    let mut k: usize = 0;
    while k < pairs.len()
        invariant
            k <= pairs@.len(),
            r@.len() == k,
            forall|j: int| 0 <= j < k ==> #[trigger] r@[j] == pairs@[j].1,
        decreases pairs@.len() - k,
    {
        r.push(pairs[k].1);
        k += 1;
    }
    r
}

/// `r` holds entry `e`'s transfers, in the same order.
pub open spec fn copied_from(r: (RaptorStopId, Vec<Transfer>), e: (RaptorStopId, Vec<(RaptorStopId, Transfer)>)) -> bool {
    &&& r.0 == e.0
    &&& r.1@.len() == e.1@.len()
    &&& e.1@.len() > 0
    &&& forall|k: int| 0 <= k < r.1@.len() ==> #[trigger] r.1@[k] == e.1@[k].1
}

/// Merges two groupings of transfers; for the same pair of stops, `gtfs`
/// replaces `computed`, and later entries replace earlier ones.
pub fn merge_transfers(computed: StopTransfers, gtfs: StopTransfers) -> (r: StopTransfers)
    ensures
        lists_relation(
            groups_view(r@),
            apply_groups(apply_groups(Map::empty(), groups_view(computed@)), groups_view(gtfs@)),
        ),
{
    let ghost rel = apply_groups(apply_groups(Map::empty(), groups_view(computed@)), groups_view(gtfs@));
    let mut table = TransferTable::new();
    absorb(&mut table, &computed, Ghost(Map::empty()));
    absorb(&mut table, &gtfs, Ghost(apply_groups(Map::empty(), groups_view(computed@))));
    let ghost t = crate::collections::transfer_table_entries(table);
    let entries = table.into_entries();
    let ghost es = entries@;
    let mut result: StopTransfers = Vec::new();
    let ghost mut src: Seq<int> = Seq::empty();
    let mut i: usize = 0;
    while i < entries.len()
        invariant
            es == entries@,
            i <= es.len(),
            table_matches(t, rel),
            forall|a: int| 0 <= a < es.len() ==> #[trigger] t.contains_key(es[a].0),
            forall|a: int, b: int| 0 <= a < es.len() && 0 <= b < es.len() && a != b ==> es[a].0 != es[b].0,
            forall|a: int, j: int| 0 <= a < es.len() && 0 <= j < es[a].1@.len() ==> #[trigger] t[es[a].0].contains_key(es[a].1@[j].0)
                && t[es[a].0][es[a].1@[j].0] == es[a].1@[j].1,
            forall|a: int, j: int, k: int| 0 <= a < es.len() && 0 <= j < es[a].1@.len() && 0 <= k < es[a].1@.len() && j != k
                ==> #[trigger] es[a].1@[j].0 != #[trigger] es[a].1@[k].0,
            src.len() == result@.len(),
            forall|a: int| 0 <= a < src.len() ==> 0 <= #[trigger] src[a] < i,
            forall|a: int, b: int| 0 <= a < b < src.len() ==> #[trigger] src[a] < #[trigger] src[b],
            forall|a: int| 0 <= a < src.len() ==> copied_from(#[trigger] result@[a], es[src[a]]),
            forall|b: int| 0 <= b < i && es[b].1@.len() > 0 ==> exists|a: int| 0 <= a < src.len() && #[trigger] src[a] == b,
        decreases es.len() - i,
    {
        if entries[i].1.len() > 0 {
            let values = entry_values(&entries[i].1);
            let ghost old_result = result@;
            let ghost old_src = src;
            result.push((entries[i].0, values));
            proof {
                src = src.push(i as int);
                assert(src[src.len() - 1] == i);
                assert forall|a: int| 0 <= a < src.len() implies copied_from(#[trigger] result@[a], es[src[a]]) by {
                    if a < old_src.len() {
                        assert(result@[a] == old_result[a]);
                        assert(src[a] == old_src[a]);
                    }
                }
                assert forall|b: int| 0 <= b < i + 1 && es[b].1@.len() > 0 implies exists|a: int| 0 <= a < src.len() && #[trigger] src[a] == b by {
                    if b < i {
                        let a = choose|a: int| 0 <= a < old_src.len() && #[trigger] old_src[a] == b;
                        assert(src[a] == b);
                    } else {
                        assert(src[src.len() - 1] == b);
                    }
                }
            }
        }
        i += 1;
    }
    proof {
        let gv = groups_view(result@);
        assert forall|a: int| 0 <= a < gv.len() implies gv[a] == (result@[a].0, result@[a].1@) by {}
        assert forall|a: int, b: int| 0 <= a < gv.len() && 0 <= b < gv.len() && a != b implies gv[a].0 != gv[b].0 by {
            assert(copied_from(result@[a], es[src[a]]));
            assert(copied_from(result@[b], es[src[b]]));
            if a < b {
                assert(src[a] < src[b]);
            } else {
                assert(src[b] < src[a]);
            }
        }
        assert forall|a: int| 0 <= a < gv.len() implies (#[trigger] gv[a]).1.len() > 0 by {
            assert(copied_from(result@[a], es[src[a]]));
        }
        assert forall|a: int, k: int, l: int|
            0 <= a < gv.len() && 0 <= k < gv[a].1.len() && 0 <= l < gv[a].1.len() && k != l implies (#[trigger] gv[a].1[k]).target_stop
                != (#[trigger] gv[a].1[l]).target_stop by {
            let e = src[a];
            let f = es[e].0;
            assert(copied_from(result@[a], es[e]));
            assert(gv[a].1[k] == es[e].1@[k].1);
            assert(gv[a].1[l] == es[e].1@[l].1);
            assert(t[f].contains_key(es[e].1@[k].0));
            assert(t[f].contains_key(es[e].1@[l].0));
            assert(es[e].1@[k].0 != es[e].1@[l].0);
        }
        assert forall|a: int, k: int|
            0 <= a < gv.len() && 0 <= k < gv[a].1.len() implies rel.contains_key((gv[a].0, (#[trigger] gv[a].1[k]).target_stop))
                && rel[(gv[a].0, gv[a].1[k].target_stop)] == gv[a].1[k].duration by {
            let e = src[a];
            let f = es[e].0;
            assert(copied_from(result@[a], es[e]));
            assert(gv[a].1[k] == es[e].1@[k].1);
            assert(t[f].contains_key(es[e].1@[k].0));
        }
        assert forall|f: RaptorStopId, tg: RaptorStopId| #[trigger] rel.contains_key((f, tg)) implies exists|a: int, k: int|
            0 <= a < gv.len() && 0 <= k < gv[a].1.len() && gv[a].0 == f && (#[trigger] gv[a].1[k]).target_stop == tg by {
            assert(t.contains_key(f) && t[f].contains_key(tg));
            let e = choose|e: int| 0 <= e < es.len() && #[trigger] es[e].0 == f;
            let j = choose|j: int| 0 <= j < es[e].1@.len() && #[trigger] es[e].1@[j].0 == tg;
            let a = choose|a: int| 0 <= a < src.len() && #[trigger] src[a] == e;
            assert(copied_from(result@[a], es[e]));
            assert(gv[a].1[j] == es[e].1@[j].1);
        }
    }
    result
}

} // verus!

verus! {

/// Applying one origin's transfers on top of `m` overlays them on `m`.
pub proof fn lemma_apply_list_overlays(m: TransferRelation, from: RaptorStopId, ts: Seq<Transfer>)
    ensures
        apply_list(m, from, ts) == m.union_prefer_right(apply_list(Map::empty(), from, ts)),
    decreases ts.len(),
{
    if ts.len() == 0 {
        assert(m.union_prefer_right(Map::empty()) =~= m);
    } else {
        lemma_apply_list_overlays(m, from, ts.drop_last());
        let k = (from, ts.last().target_stop);
        assert(m.union_prefer_right(apply_list(Map::empty(), from, ts.drop_last())).insert(k, ts.last().duration)
            =~= m.union_prefer_right(apply_list(Map::empty(), from, ts.drop_last()).insert(k, ts.last().duration)));
    }
}

/// Merging overlays: applying groups on top of `m` is the same as laying the
/// relation of those groups alone over `m`, so the groups applied last win
/// for every pair of stops they mention, and `m` survives everywhere else.
pub proof fn law_later_transfers_take_precedence(m: TransferRelation, gs: Seq<(RaptorStopId, Seq<Transfer>)>)
    ensures
        apply_groups(m, gs) == m.union_prefer_right(apply_groups(Map::empty(), gs)),
    decreases gs.len(),
{
    if gs.len() > 0 {
        law_later_transfers_take_precedence(m, gs.drop_last());
        let prev = apply_groups(Map::empty(), gs.drop_last());
        lemma_apply_list_overlays(m.union_prefer_right(prev), gs.last().0, gs.last().1);
        lemma_apply_list_overlays(prev, gs.last().0, gs.last().1);
        assert(m.union_prefer_right(prev).union_prefer_right(apply_list(Map::empty(), gs.last().0, gs.last().1))
            =~= m.union_prefer_right(prev.union_prefer_right(apply_list(Map::empty(), gs.last().0, gs.last().1))));
    } else {
        assert(m.union_prefer_right(Map::empty()) =~= m);
    }
}

} // verus!

verus! {

/// The transfer lists of `gs`, concatenated in order.
pub open spec fn concat_lists(gs: Seq<(RaptorStopId, Seq<Transfer>)>) -> Seq<Transfer>
    decreases gs.len(),
{
    if gs.len() == 0 {
        Seq::empty()
    } else {
        concat_lists(gs.drop_last()) + gs.last().1
    }
}

/// `node_to_stop` after recording, in stop order, each snapped stop as the
/// stop of its node.
pub open spec fn record_snaps(m: Map<StreetNodeId, RaptorStopId>, stop_nodes: Seq<Option<StreetNodeId>>) -> Map<StreetNodeId, RaptorStopId>
    decreases stop_nodes.len(),
{
    if stop_nodes.len() == 0 {
        m
    } else {
        let prev = record_snaps(m, stop_nodes.drop_last());
        match stop_nodes.last() {
            Some(n) => prev.insert(n, (stop_nodes.len() - 1) as RaptorStopId),
            None => prev,
        }
    }
}

/// `i` is the last position of stop `s` among the first `n` groups.
pub open spec fn last_listing(gs: Seq<(RaptorStopId, Seq<Transfer>)>, s: RaptorStopId, i: int, n: int) -> bool {
    &&& 0 <= i < n
    &&& gs[i].0 == s
    &&& forall|j: int| i < j < n ==> #[trigger] gs[j].0 != s
}

/// The stop's transfer slice is unchanged, or points at its last listing.
pub open spec fn slice_recorded(
    gs: Seq<(RaptorStopId, Seq<Transfer>)>,
    n: int,
    old_stop: crate::types::Stop,
    new_stop: crate::types::Stop,
    s: RaptorStopId,
) -> bool {
    &&& new_stop.stop_id == old_stop.stop_id
    &&& new_stop.geometry == old_stop.geometry
    &&& new_stop.routes_start == old_stop.routes_start
    &&& new_stop.routes_len == old_stop.routes_len
    &&& (forall|j: int| 0 <= j < n ==> #[trigger] gs[j].0 != s) ==> (new_stop.transfers_start == old_stop.transfers_start
        && new_stop.transfers_len == old_stop.transfers_len)
    &&& (exists|j: int| 0 <= j < n && #[trigger] gs[j].0 == s) ==> exists|i: int|
        #[trigger] last_listing(gs, s, i, n) && new_stop.transfers_start == concat_lists(gs.take(i)).len()
            && new_stop.transfers_len == gs[i].1.len()
}

/// The concatenation of a prefix extended by one group.
pub proof fn lemma_concat_step(gs: Seq<(RaptorStopId, Seq<Transfer>)>, i: int)
    requires
        0 <= i < gs.len(),
    ensures
        concat_lists(gs.take(i + 1)) == concat_lists(gs.take(i)) + gs[i].1,
{
    assert(gs.take(i + 1).drop_last() =~= gs.take(i));
}

/// Every pair in a relation built from groups is in the base relation or is
/// listed by one of the groups.
pub proof fn lemma_apply_groups_keys(m: TransferRelation, gs: Seq<(RaptorStopId, Seq<Transfer>)>, k: (RaptorStopId, RaptorStopId))
    requires
        apply_groups(m, gs).contains_key(k),
    ensures
        m.contains_key(k) || exists|i: int, j: int|
            0 <= i < gs.len() && 0 <= j < gs[i].1.len() && gs[i].0 == k.0 && (#[trigger] gs[i].1[j]).target_stop == k.1,
    decreases gs.len(),
{
    if gs.len() > 0 {
        let last = gs.last();
        let prev = apply_groups(m, gs.drop_last());
        lemma_apply_list_keys(prev, last.0, last.1, k);
        if prev.contains_key(k) {
            lemma_apply_groups_keys(m, gs.drop_last(), k);
            if !m.contains_key(k) {
                let (i, j) = choose|i: int, j: int|
                    0 <= i < gs.drop_last().len() && 0 <= j < gs.drop_last()[i].1.len() && gs.drop_last()[i].0 == k.0
                        && (#[trigger] gs.drop_last()[i].1[j]).target_stop == k.1;
                assert(gs[i] == gs.drop_last()[i]);
                assert(gs[i].1[j].target_stop == k.1);
            }
        } else {
            let j = choose|j: int| 0 <= j < last.1.len() && (#[trigger] last.1[j]).target_stop == k.1;
            assert(gs[gs.len() - 1].1[j].target_stop == k.1);
        }
    }
}

/// Every pair in a relation built from one origin's list is in the base
/// relation or is listed.
pub proof fn lemma_apply_list_keys(m: TransferRelation, from: RaptorStopId, ts: Seq<Transfer>, k: (RaptorStopId, RaptorStopId))
    requires
        apply_list(m, from, ts).contains_key(k),
    ensures
        m.contains_key(k) || (k.0 == from && exists|j: int| 0 <= j < ts.len() && (#[trigger] ts[j]).target_stop == k.1),
    decreases ts.len(),
{
    if ts.len() > 0 {
        if k != (from, ts.last().target_stop) {
            lemma_apply_list_keys(m, from, ts.drop_last(), k);
            if !m.contains_key(k) {
                let j = choose|j: int| 0 <= j < ts.drop_last().len() && (#[trigger] ts.drop_last()[j]).target_stop == k.1;
                assert(ts[j] == ts.drop_last()[j]);
            }
        } else {
            assert(ts[ts.len() - 1].target_stop == k.1);
        }
    }
}

/// A stop with accepted GTFS transfers is the index of a known identifier.
pub proof fn lemma_accepted_origin_known(
    gtfs: Seq<FeedTransfer>,
    ids: Map<Seq<char>, RaptorStopId>,
    max_transfer_time: Time,
    from: RaptorStopId,
)
    requires
        gtfs_accepted_from(gtfs, ids, max_transfer_time, from).len() > 0,
    ensures
        exists|key: Seq<char>| #[trigger] ids.contains_key(key) && ids[key] == from,
    decreases gtfs.len(),
{
    if gtfs.len() > 0 {
        match gtfs_accepted(gtfs.last(), ids, max_transfer_time) {
            Some((f, t)) => {
                if f == from {
                    let key = gtfs.last().from_stop_id@;
                    assert(ids.contains_key(key) && ids[key] == from);
                } else {
                    lemma_accepted_origin_known(gtfs.drop_last(), ids, max_transfer_time, from);
                }
            },
            None => lemma_accepted_origin_known(gtfs.drop_last(), ids, max_transfer_time, from),
        }
    }
}

/// Stores the transfers in the model: lists are concatenated in order, each
/// listed stop's transfer slice points at its (last) list, and every snapped
/// stop is recorded as the stop of its street node, later stops replacing
/// earlier ones on a shared node.
pub fn update_transit_model_with_transfers(
    transit: &mut crate::transit::PublicTransitData,
    stop_transfers: StopTransfers,
    stop_nodes: &Vec<Option<StreetNodeId>>,
)
    requires
        forall|i: int| 0 <= i < stop_transfers@.len() ==> (#[trigger] stop_transfers@[i]).0 < old(transit).stops@.len(),
    ensures
        final(transit).transfers@ == concat_lists(groups_view(stop_transfers@)),
        final(transit).stops@.len() == old(transit).stops@.len(),
        forall|s: int|
            0 <= s < final(transit).stops@.len() ==> slice_recorded(
                groups_view(stop_transfers@),
                stop_transfers@.len() as int,
                old(transit).stops@[s],
                #[trigger] final(transit).stops@[s],
                s as RaptorStopId,
            ),
        final(transit).node_to_stop@ == record_snaps(old(transit).node_to_stop@, stop_nodes@),
        final(transit).routes@ == old(transit).routes@,
        final(transit).route_stops@ == old(transit).route_stops@,
        final(transit).stop_times@ == old(transit).stop_times@,
        final(transit).stop_routes@ == old(transit).stop_routes@,
        final(transit).trips@ == old(transit).trips@,
        final(transit).feeds_meta@ == old(transit).feeds_meta@,
        final(transit).gtfs_transfers@ == old(transit).gtfs_transfers@,
{
    let ghost gv = groups_view(stop_transfers@);
    let ghost old_stops = transit.stops@;
    assert(transit.stops.len() == old_stops.len());
    let mut all_transfers: Vec<Transfer> = Vec::new();
    let mut i: usize = 0;
    while i < stop_transfers.len()
        invariant
            i <= stop_transfers@.len(),
            gv == groups_view(stop_transfers@),
            forall|k: int| 0 <= k < stop_transfers@.len() ==> (#[trigger] stop_transfers@[k]).0 < old_stops.len(),
            all_transfers@ == concat_lists(gv.take(i as int)),
            old_stops.len() <= usize::MAX,
            transit.stops@.len() == old_stops.len(),
            forall|s: int|
                0 <= s < old_stops.len() ==> slice_recorded(gv, i as int, old_stops[s], #[trigger] transit.stops@[s], s as RaptorStopId),
            transit.routes@ == old(transit).routes@,
            transit.route_stops@ == old(transit).route_stops@,
            transit.stop_times@ == old(transit).stop_times@,
            transit.stop_routes@ == old(transit).stop_routes@,
            transit.trips@ == old(transit).trips@,
            transit.feeds_meta@ == old(transit).feeds_meta@,
            transit.gtfs_transfers@ == old(transit).gtfs_transfers@,
            transit.node_to_stop@ == old(transit).node_to_stop@,
        decreases stop_transfers@.len() - i,
    {
        let stop_id = stop_transfers[i].0;
        let start_idx = all_transfers.len();
        let count = stop_transfers[i].1.len();
        let ghost before_stops = transit.stops@;
        let ghost before_all = all_transfers@;
        let mut k: usize = 0;
        while k < count
            invariant
                i < stop_transfers@.len(),
                k <= count,
                count == stop_transfers@[i as int].1@.len(),
                all_transfers@ == before_all + stop_transfers@[i as int].1@.take(k as int),
            decreases count - k,
        {
            all_transfers.push(stop_transfers[i].1[k]);
            k += 1;
            assert(all_transfers@ =~= before_all + stop_transfers@[i as int].1@.take(k as int));
        }
        proof {
            assert(stop_transfers@[i as int].1@.take(k as int) =~= stop_transfers@[i as int].1@);
            assert(gv[i as int] == (stop_id, stop_transfers@[i as int].1@));
            lemma_concat_step(gv, i as int);
        }
        transit.stops[stop_id].transfers_start = start_idx;
        transit.stops[stop_id].transfers_len = count;
        proof {
            assert forall|s: int|
                0 <= s < old_stops.len() implies slice_recorded(gv, i + 1, old_stops[s], #[trigger] transit.stops@[s], s as RaptorStopId) by {
                assert(slice_recorded(gv, i as int, old_stops[s], before_stops[s], s as RaptorStopId));
                if s == stop_id as int {
                    assert(last_listing(gv, s as RaptorStopId, i as int, i + 1));
                } else {
                    assert(transit.stops@[s] == before_stops[s]);
                    if exists|j: int| 0 <= j < i + 1 && #[trigger] gv[j].0 == s as RaptorStopId {
                        let j = choose|j: int| 0 <= j < i + 1 && #[trigger] gv[j].0 == s as RaptorStopId;
                        assert(gv[i as int].0 == stop_id);
                        assert(s as RaptorStopId != stop_id);
                        assert(j < i);
                        assert(exists|j: int| 0 <= j < i && #[trigger] gv[j].0 == s as RaptorStopId);
                        let l = choose|l: int|
                            #[trigger] last_listing(gv, s as RaptorStopId, l, i as int) && before_stops[s].transfers_start
                                == concat_lists(gv.take(l)).len() && before_stops[s].transfers_len == gv[l].1.len();
                        assert forall|j2: int| l < j2 < i + 1 implies #[trigger] gv[j2].0 != s as RaptorStopId by {
                            if j2 < i {
                                assert(last_listing(gv, s as RaptorStopId, l, i as int));
                            }
                        }
                        assert(last_listing(gv, s as RaptorStopId, l, i + 1));
                    }
                }
            }
        }
        i += 1;
    }
    assert(gv.take(i as int) =~= gv);

    let mut n: usize = 0;
    while n < stop_nodes.len()
        invariant
            n <= stop_nodes@.len(),
            transit.node_to_stop@ == record_snaps(old(transit).node_to_stop@, stop_nodes@.take(n as int)),
            transit.stops@.len() == old_stops.len(),
            forall|s: int|
                0 <= s < old_stops.len() ==> slice_recorded(gv, stop_transfers@.len() as int, old_stops[s], #[trigger] transit.stops@[s], s as RaptorStopId),
            transit.routes@ == old(transit).routes@,
            transit.route_stops@ == old(transit).route_stops@,
            transit.stop_times@ == old(transit).stop_times@,
            transit.stop_routes@ == old(transit).stop_routes@,
            transit.trips@ == old(transit).trips@,
            transit.feeds_meta@ == old(transit).feeds_meta@,
            transit.gtfs_transfers@ == old(transit).gtfs_transfers@,
        decreases stop_nodes@.len() - n,
    {
        assert(stop_nodes@.take(n + 1).drop_last() =~= stop_nodes@.take(n as int));
        if let Some(node) = stop_nodes[n] {
            transit.node_to_stop.insert(node, n);
        }
        n += 1;
    }
    assert(stop_nodes@.take(n as int) =~= stop_nodes@);
    transit.transfers = all_transfers;
}

} // verus!

verus! {

/// Transfers from each snapped stop to the other stops snapped to street
/// nodes it reaches; `reachable[s]` holds stop `s`'s walking times.
pub fn street_transfers(
    stop_nodes: &Vec<Option<StreetNodeId>>,
    reachable: &Vec<WalkingTimes>,
    stops_by_node: &StopsByNode,
    max_transfer_time: Time,
) -> (r: StopTransfers)
    requires
        reachable@.len() == stop_nodes@.len(),
        crate::relations::indexes_nodes(stop_nodes@, stops_by_node@),
    ensures
        crate::relations::covers(
            groups_view(r@),
            crate::relations::street_relation(stop_nodes@, crate::relations::walking_views(reachable@), max_transfer_time),
        ),
        forall|i: int, j: int| 0 <= i < j < r@.len() ==> r@[i].0 < r@[j].0,
        forall|i: int| 0 <= i < r@.len() ==> (#[trigger] r@[i]).0 < stop_nodes@.len() && stop_nodes@[r@[i].0 as int] is Some
            && r@[i].1@.len() > 0,
        forall|i: int, k: int|
            0 <= i < r@.len() && 0 <= k < r@[i].1@.len() ==> reachable_transfer(
                reachable@[r@[i].0 as int]@,
                stops_by_node@,
                r@[i].0,
                max_transfer_time,
                #[trigger] r@[i].1@[k],
            ),
        forall|s: int, n: StreetNodeId, tg: RaptorStopId|
            0 <= s < stop_nodes@.len() && stop_nodes@[s] is Some && #[trigger] reachable@[s]@.contains_key(n) && reachable@[s]@[n]
                <= max_transfer_time && stops_by_node@.contains_key(n) && #[trigger] stops_by_node@[n].contains(tg) && tg != s
                ==> exists|i: int| 0 <= i < r@.len() && r@[i].0 == s && (#[trigger] r@[i]).1@.contains(
                Transfer { target_stop: tg, duration: reachable@[s]@[n] },
            ),
{
    let mut out: StopTransfers = Vec::new();
    let mut s: usize = 0;
    while s < stop_nodes.len()
        invariant
            s <= stop_nodes@.len(),
            reachable@.len() == stop_nodes@.len(),
            forall|i: int, j: int| 0 <= i < j < out@.len() ==> out@[i].0 < out@[j].0,
            forall|i: int| 0 <= i < out@.len() ==> (#[trigger] out@[i]).0 < s && stop_nodes@[out@[i].0 as int] is Some
                && out@[i].1@.len() > 0,
            forall|i: int, k: int|
                0 <= i < out@.len() && 0 <= k < out@[i].1@.len() ==> reachable_transfer(
                    reachable@[out@[i].0 as int]@,
                    stops_by_node@,
                    out@[i].0,
                    max_transfer_time,
                    #[trigger] out@[i].1@[k],
                ),
            forall|s2: int, n: StreetNodeId, tg: RaptorStopId|
                0 <= s2 < s && stop_nodes@[s2] is Some && #[trigger] reachable@[s2]@.contains_key(n) && reachable@[s2]@[n]
                    <= max_transfer_time && stops_by_node@.contains_key(n) && #[trigger] stops_by_node@[n].contains(tg) && tg != s2
                    ==> exists|i: int| 0 <= i < out@.len() && out@[i].0 == s2 && (#[trigger] out@[i]).1@.contains(
                    Transfer { target_stop: tg, duration: reachable@[s2]@[n] },
                ),
        decreases stop_nodes@.len() - s,
    {
        if stop_nodes[s].is_some() {
            let transfers = transfers_from_reachable(&reachable[s], stops_by_node, s, max_transfer_time);
            if transfers.len() > 0 {
                let ghost before = out@;
                out.push((s, transfers));
                proof {
                    assert forall|s2: int, n: StreetNodeId, tg: RaptorStopId|
                        0 <= s2 < s + 1 && stop_nodes@[s2] is Some && #[trigger] reachable@[s2]@.contains_key(n) && reachable@[s2]@[n]
                            <= max_transfer_time && stops_by_node@.contains_key(n) && #[trigger] stops_by_node@[n].contains(tg) && tg != s2
                            implies exists|i: int| 0 <= i < out@.len() && out@[i].0 == s2 && (#[trigger] out@[i]).1@.contains(
                            Transfer { target_stop: tg, duration: reachable@[s2]@[n] },
                        ) by {
                        if s2 < s {
                            let i = choose|i: int| 0 <= i < before.len() && before[i].0 == s2 && (#[trigger] before[i]).1@.contains(
                                Transfer { target_stop: tg, duration: reachable@[s2]@[n] },
                            );
                            assert(out@[i] == before[i]);
                        } else {
                            assert(out@[before.len() as int].0 == s2);
                        }
                    }
                    assert forall|i: int, k: int|
                        0 <= i < out@.len() && 0 <= k < out@[i].1@.len() implies reachable_transfer(
                            reachable@[out@[i].0 as int]@,
                            stops_by_node@,
                            out@[i].0,
                            max_transfer_time,
                            #[trigger] out@[i].1@[k],
                        ) by {
                        if i < before.len() {
                            assert(out@[i] == before[i]);
                        }
                    }
                }
            } else {
                proof {
                    assert forall|s2: int, n: StreetNodeId, tg: RaptorStopId|
                        0 <= s2 < s + 1 && stop_nodes@[s2] is Some && #[trigger] reachable@[s2]@.contains_key(n) && reachable@[s2]@[n]
                            <= max_transfer_time && stops_by_node@.contains_key(n) && #[trigger] stops_by_node@[n].contains(tg) && tg != s2
                            implies exists|i: int| 0 <= i < out@.len() && out@[i].0 == s2 && (#[trigger] out@[i]).1@.contains(
                            Transfer { target_stop: tg, duration: reachable@[s2]@[n] },
                        ) by {
                        if s2 == s {
                            assert(transfers@.contains(Transfer { target_stop: tg, duration: reachable@[s2]@[n] }));
                        }
                    }
                }
            }
        }
        s += 1;
    }
    proof {
        let gv = groups_view(out@);
        let rv = crate::relations::walking_views(reachable@);
        let rel = crate::relations::street_relation(stop_nodes@, rv, max_transfer_time);
        assert(stop_nodes.len() == stop_nodes@.len());
        assert forall|i: int, k: int|
            0 <= i < gv.len() && 0 <= k < gv[i].1.len() implies rel.contains_key((gv[i].0, (#[trigger] gv[i].1[k]).target_stop))
                && rel[(gv[i].0, gv[i].1[k].target_stop)] == gv[i].1[k].duration by {
            assert(gv[i] == (out@[i].0, out@[i].1@));
            let src = out@[i].0;
            let t = out@[i].1@[k];
            assert(reachable_transfer(reachable@[src as int]@, stops_by_node@, src, max_transfer_time, t));
            let n = choose|n: StreetNodeId|
                #[trigger] reachable@[src as int]@.contains_key(n) && reachable@[src as int]@[n] == t.duration && t.duration <= max_transfer_time
                    && stops_by_node@.contains_key(n) && stops_by_node@[n].contains(t.target_stop) && t.target_stop != src;
            crate::relations::lemma_node_index(stop_nodes@, stops_by_node@, n, t.target_stop);
            assert(rv[src as int] == reachable@[src as int]@);
            assert(crate::relations::street_pair(stop_nodes@, rv, max_transfer_time, src, t.target_stop));
        }
        assert forall|key: (RaptorStopId, RaptorStopId)| #[trigger] rel.contains_key(key) implies crate::relations::listed(gv, key) by {
            let (a, b) = key;
            let n = stop_nodes@[b as int]->0;
            assert(rv[a as int] == reachable@[a as int]@);
            crate::relations::lemma_node_index(stop_nodes@, stops_by_node@, n, b);
            let t = Transfer { target_stop: b, duration: reachable@[a as int]@[n] };
            assert(reachable@[a as int]@.contains_key(n));
            assert(stops_by_node@[n].contains(b));
            let i = choose|i: int| 0 <= i < out@.len() && out@[i].0 == a && (#[trigger] out@[i]).1@.contains(t);
            let j = choose|j: int| 0 <= j < out@[i].1@.len() && out@[i].1@[j] == t;
            assert(gv[i] == (out@[i].0, out@[i].1@));
            assert(gv[i].1[j].target_stop == b);
        }
    }
    out
}

/// The stop-identifier index of a stop list: identifier to position, a later
/// stop replacing an earlier one with the same identifier.
pub fn stop_id_index(stops: &Vec<crate::types::Stop>) -> (r: StopIdMap)
    ensures
        crate::collections::stop_id_entries(r) == crate::relations::stop_ids_of(stops@),
        forall|k: Seq<char>| #[trigger] crate::collections::stop_id_entries(r).contains_key(k) ==> crate::collections::stop_id_entries(r)[k]
            < stops@.len() && stops@[crate::collections::stop_id_entries(r)[k] as int].stop_id@ == k,
        forall|i: int| 0 <= i < stops@.len() ==> crate::collections::stop_id_entries(r).contains_key(#[trigger] stops@[i].stop_id@),
{
    let mut map = StopIdMap::new();
    let mut i: usize = 0;
    while i < stops.len()
        invariant
            i <= stops@.len(),
            forall|k: Seq<char>| #[trigger] crate::collections::stop_id_entries(map).contains_key(k) ==> crate::collections::stop_id_entries(map)[k]
                < i && stops@[crate::collections::stop_id_entries(map)[k] as int].stop_id@ == k,
            forall|j: int| 0 <= j < i ==> crate::collections::stop_id_entries(map).contains_key(#[trigger] stops@[j].stop_id@),
            crate::collections::stop_id_entries(map) == crate::relations::stop_ids_of(stops@.take(i as int)),
        decreases stops@.len() - i,
    {
        assert(stops@.take(i + 1).drop_last() =~= stops@.take(i as int));
        map.insert(stops[i].stop_id.clone(), i);
        i += 1;
    }
    assert(stops@.take(i as int) =~= stops@);
    map
}

/// Calculates the model's transfers: walking transfers between stops over
/// the street network, zero-cost transfers between stops sharing a street
/// node, and GTFS-defined transfers, merged in that order of increasing
/// precedence; then stores them and records each snapped stop as the stop of
/// its node. `stop_nodes[s]` is stop `s`'s street node (see
/// [`snap_stops_to_network`]) and `reachable[s]` its walking times to
/// street nodes within `max_transfer_time`.
pub fn calculate_transfers(
    transit: &mut crate::transit::PublicTransitData,
    max_transfer_time: Time,
    stop_nodes: &Vec<Option<StreetNodeId>>,
    reachable: &Vec<WalkingTimes>,
)
    requires
        stop_nodes@.len() == old(transit).stops@.len(),
        reachable@.len() == old(transit).stops@.len(),
    ensures
        crate::relations::stores_transfers(
            old(transit).stops@,
            final(transit).stops@,
            final(transit).transfers@,
            crate::relations::model_transfers(
                stop_nodes@,
                crate::relations::walking_views(reachable@),
                old(transit).gtfs_transfers@,
                crate::relations::stop_ids_of(old(transit).stops@),
                max_transfer_time,
            ),
        ),
        final(transit).gtfs_transfers@.len() == 0,
        final(transit).stops@.len() == old(transit).stops@.len(),
        final(transit).node_to_stop@ == record_snaps(old(transit).node_to_stop@, stop_nodes@),
        final(transit).routes@ == old(transit).routes@,
        final(transit).route_stops@ == old(transit).route_stops@,
        final(transit).stop_times@ == old(transit).stop_times@,
        final(transit).stop_routes@ == old(transit).stop_routes@,
        final(transit).trips@ == old(transit).trips@,
{
    let stops_by_node = group_stops_by_node(stop_nodes);
    let computed = street_transfers(stop_nodes, reachable, &stops_by_node, max_transfer_time);
    let colocated_links = create_colocated_stop_transfers(&stops_by_node);
    let mut gtfs_raw: Vec<FeedTransfer> = Vec::new();
    std::mem::swap(&mut gtfs_raw, &mut transit.gtfs_transfers);
    let stop_id_map = stop_id_index(&transit.stops);
    let gtfs = convert_gtfs_transfers_to_internal(&gtfs_raw, &stop_id_map, max_transfer_time);
    let computed_with_colocated = merge_transfers(computed, colocated_links);
    let merged = merge_transfers(computed_with_colocated, gtfs);
    assert(stop_nodes.len() == stop_nodes@.len());
    proof {
        let n = stop_nodes@.len();
        let ids = crate::collections::stop_id_entries(stop_id_map);
        let cv = groups_view(computed@);
        let lv = groups_view(colocated_links@);
        let wv = groups_view(computed_with_colocated@);
        let gv = groups_view(gtfs@);
        let r1 = apply_groups(apply_groups(Map::empty(), cv), lv);
        let r2 = apply_groups(apply_groups(Map::empty(), wv), gv);
        assert forall|k: (RaptorStopId, RaptorStopId)| #[trigger] r1.contains_key(k) implies k.0 < n by {
            lemma_apply_groups_keys(apply_groups(Map::empty(), cv), lv, k);
            if apply_groups(Map::empty(), cv).contains_key(k) {
                lemma_apply_groups_keys(Map::empty(), cv, k);
                let (i, j) = choose|i: int, j: int|
                    0 <= i < cv.len() && 0 <= j < cv[i].1.len() && cv[i].0 == k.0 && (#[trigger] cv[i].1[j]).target_stop == k.1;
                assert(cv[i] == (computed@[i].0, computed@[i].1@));
            } else {
                let (i, j) = choose|i: int, j: int|
                    0 <= i < lv.len() && 0 <= j < lv[i].1.len() && lv[i].0 == k.0 && (#[trigger] lv[i].1[j]).target_stop == k.1;
                assert(lv[i] == (colocated_links@[i].0, colocated_links@[i].1@));
                assert(colocated_links@[i].1@[j].target_stop == k.1);
                assert(colocated(stops_by_node@, k.0, k.1));
                let node = choose|node: StreetNodeId|
                    #[trigger] stops_by_node@.contains_key(node) && stops_by_node@[node].len() >= 2 && stops_by_node@[node].contains(k.0)
                        && stops_by_node@[node].contains(k.1);
                lemma_node_members(stop_nodes@, node, k.0);
            }
        }
        assert forall|k: (RaptorStopId, RaptorStopId)| #[trigger] r2.contains_key(k) implies k.0 < n by {
            lemma_apply_groups_keys(apply_groups(Map::empty(), wv), gv, k);
            if apply_groups(Map::empty(), wv).contains_key(k) {
                lemma_apply_groups_keys(Map::empty(), wv, k);
                let (i, j) = choose|i: int, j: int|
                    0 <= i < wv.len() && 0 <= j < wv[i].1.len() && wv[i].0 == k.0 && (#[trigger] wv[i].1[j]).target_stop == k.1;
                assert(r1.contains_key((wv[i].0, wv[i].1[j].target_stop)));
            } else {
                let (i, j) = choose|i: int, j: int|
                    0 <= i < gv.len() && 0 <= j < gv[i].1.len() && gv[i].0 == k.0 && (#[trigger] gv[i].1[j]).target_stop == k.1;
                assert(gv[i] == (gtfs@[i].0, gtfs@[i].1@));
                assert(gtfs@[i].1@ == gtfs_accepted_from(gtfs_raw@, ids, max_transfer_time, gtfs@[i].0));
                lemma_accepted_origin_known(gtfs_raw@, ids, max_transfer_time, k.0);
                let key = choose|key: Seq<char>| #[trigger] ids.contains_key(key) && ids[key] == k.0;
            }
        }
        let mv = groups_view(merged@);
        assert forall|i: int| 0 <= i < merged@.len() implies (#[trigger] merged@[i]).0 < transit.stops@.len() by {
            assert(mv[i] == (merged@[i].0, merged@[i].1@));
            assert(mv[i].1.len() > 0);
            assert(r2.contains_key((mv[i].0, mv[i].1[0].target_stop)));
        }
    }
    let ghost old_stops = transit.stops@;
    proof {
        let e = Map::<(RaptorStopId, RaptorStopId), Time>::empty();
        let ids = crate::collections::stop_id_entries(stop_id_map);
        let cv = groups_view(computed@);
        let lv = groups_view(colocated_links@);
        let wv = groups_view(computed_with_colocated@);
        let gv = groups_view(gtfs@);
        let street = crate::relations::street_relation(stop_nodes@, crate::relations::walking_views(reachable@), max_transfer_time);
        let colo = crate::relations::colocated_relation(stop_nodes@);
        let grel = crate::relations::gtfs_relation(gtfs_raw@, ids, max_transfer_time);
        crate::relations::lemma_covered_groups(cv, street);
        assert(crate::relations::covers(lv, colo)) by {
            assert forall|i: int, k: int|
                0 <= i < lv.len() && 0 <= k < lv[i].1.len() implies colo.contains_key((lv[i].0, (#[trigger] lv[i].1[k]).target_stop))
                    && colo[(lv[i].0, lv[i].1[k].target_stop)] == lv[i].1[k].duration by {
                assert(lv[i] == (colocated_links@[i].0, colocated_links@[i].1@));
                assert(colocated_links@[i].1@[k] == lv[i].1[k]);
                crate::relations::lemma_colocated_pair(stop_nodes@, stops_by_node@, lv[i].0, lv[i].1[k].target_stop);
            }
            assert forall|key: (RaptorStopId, RaptorStopId)| #[trigger] colo.contains_key(key) implies crate::relations::listed(lv, key) by {
                crate::relations::lemma_colocated_pair(stop_nodes@, stops_by_node@, key.0, key.1);
                let (i, k) = choose|i: int, k: int|
                    0 <= i < colocated_links@.len() && 0 <= k < colocated_links@[i].1@.len() && colocated_links@[i].0 == key.0
                        && (#[trigger] colocated_links@[i].1@[k]).target_stop == key.1;
                assert(lv[i] == (colocated_links@[i].0, colocated_links@[i].1@));
                assert(lv[i].1[k].target_stop == key.1);
            }
        }
        crate::relations::lemma_covered_groups(lv, colo);
        assert(crate::relations::groups_map(gv) == grel) by {
            assert forall|a: int| 0 <= a < gv.len() implies (#[trigger] gv[a]) == (gtfs@[a].0, gtfs@[a].1@) by {}
            assert forall|from: RaptorStopId| #[trigger] gtfs_accepted_from(gtfs_raw@, ids, max_transfer_time, from).len() > 0 implies exists|a: int|
                0 <= a < gv.len() && #[trigger] gv[a].0 == from by {
                assert(exists|a: int| 0 <= a < gtfs@.len() && #[trigger] gtfs@[a].0 == from);
                let a = choose|a: int| 0 <= a < gtfs@.len() && #[trigger] gtfs@[a].0 == from;
                assert(gv[a] == (gtfs@[a].0, gtfs@[a].1@));
                assert(gv[a].0 == from);
            }
            crate::relations::lemma_gtfs_groups(gv, gtfs_raw@, ids, max_transfer_time);
        }
        let rw = apply_groups(apply_groups(e, cv), lv);
        crate::relations::lemma_apply_groups_map(apply_groups(e, cv), lv);
        assert(rw == street.union_prefer_right(colo));
        crate::relations::lemma_lists_cover(wv, rw);
        crate::relations::lemma_covered_groups(wv, rw);
        crate::relations::lemma_apply_groups_map(apply_groups(e, wv), gv);
        let model = crate::relations::model_transfers(
            stop_nodes@,
            crate::relations::walking_views(reachable@),
            gtfs_raw@,
            crate::relations::stop_ids_of(old_stops),
            max_transfer_time,
        );
        assert(apply_groups(apply_groups(e, wv), gv) == model);
    }
    update_transit_model_with_transfers(transit, merged, stop_nodes);
    proof {
        let gs = groups_view(merged@);
        assert(crate::relations::stores_transfers(
            old_stops,
            transit.stops@,
            transit.transfers@,
            crate::relations::model_transfers(
                stop_nodes@,
                crate::relations::walking_views(reachable@),
                gtfs_raw@,
                crate::relations::stop_ids_of(old_stops),
                max_transfer_time,
            ),
        ));
    }
}

} // verus!
