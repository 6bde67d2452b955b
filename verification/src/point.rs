//! Points connected to the transit network.
use vstd::prelude::*;

use crate::collections::WalkingTimes;
use crate::error::Error;
use crate::transit::PublicTransitData;
use crate::types::{Coordinate, RaptorStopId, StreetNodeId, Time};

verus! {

/// A point connected to the transit network, with its nearest stops and
/// walking times to the street nodes around it.
pub struct TransitPoint {
    /// Point position.
    pub geometry: Coordinate,
    /// Nearest street network node.
    pub node_id: StreetNodeId,
    /// Nearest stops as `(stop, walking seconds)`, nearest first.
    pub nearest_stops: Vec<(RaptorStopId, Time)>,
    /// Walking times to street nodes within the walking limit.
    pub walking_paths: WalkingTimes,
}

impl TransitPoint {
    /// Walking time from this point to another point's street node, if it
    /// lies within this point's walking range.
    pub open spec fn walking_time_to_spec(&self, other: &TransitPoint) -> Option<Time> {
        if self.walking_paths@.contains_key(other.node_id) {
            Some(self.walking_paths@[other.node_id])
        } else {
            None
        }
    }

    /// Returns walking time to another point, if available.
    pub fn walking_time_to(&self, other: &TransitPoint) -> (r: Option<Time>)
        ensures
            r == self.walking_time_to_spec(other),
    {
        self.walking_paths.get(other.node_id)
    }

    /// Identifiers of the nearest stops, nearest first.
    pub fn nearest_stops(&self) -> (r: Vec<RaptorStopId>)
        ensures
            r@.len() == self.nearest_stops@.len(),
            forall|i: int| 0 <= i < r@.len() ==> #[trigger] r@[i] == self.nearest_stops@[i].0,
    {
        let mut r: Vec<RaptorStopId> = Vec::new();
        let mut i: usize = 0;
        while i < self.nearest_stops.len()
            invariant
                i <= self.nearest_stops@.len(),
                r@.len() == i,
                forall|k: int| 0 <= k < i ==> #[trigger] r@[k] == self.nearest_stops@[k].0,
            decreases self.nearest_stops@.len() - i,
        {
            r.push(self.nearest_stops[i].0);
            i += 1;
        }
        r
    }

    /// Position of a transit stop (see [`PublicTransitData::transit_stop_location`]).
    pub fn transit_stop_location(&self, transit_data: &PublicTransitData, stop_id: RaptorStopId) -> (c: Coordinate)
        requires
            stop_id < transit_data.stops@.len(),
        ensures
            c == transit_data.stops@[stop_id as int].geometry,
    {
        transit_data.transit_stop_location(stop_id)
    }

    /// GTFS identifier of a transit stop (see [`PublicTransitData::transit_stop_name`]).
    pub fn transit_stop_name(&self, transit_data: &PublicTransitData, stop_id: RaptorStopId) -> (r: Option<String>)
        ensures
            stop_id < transit_data.stops@.len() <==> r is Some,
            r matches Some(name) ==> name@ == transit_data.stops@[stop_id as int].stop_id@,
    {
        transit_data.transit_stop_name(stop_id)
    }
}


/// Street node `n` is reached within `budget` seconds and holds a stop.
pub open spec fn candidate_node(walk: Map<StreetNodeId, Time>, n2s: Map<StreetNodeId, RaptorStopId>, budget: int, n: StreetNodeId) -> bool {
    walk.contains_key(n) && walk[n] <= budget && n2s.contains_key(n)
}

/// The stop candidate that node `n` gives: its stop, and the walk to it
/// plus the access distance.
pub open spec fn candidate_of(
    walk: Map<StreetNodeId, Time>,
    n2s: Map<StreetNodeId, RaptorStopId>,
    distance: Time,
    n: StreetNodeId,
) -> StopCandidate {
    (n2s[n], (walk[n] + distance) as Time, n)
}

/// `stops` lists the stops of candidate nodes `nodes` (distinct), nearest
/// first, at most `max_stops` of them, and any candidate node left out is
/// no nearer than every listed one, and is left out only when the list is full.
pub open spec fn nearest_selection(
    stops: Seq<(RaptorStopId, Time)>,
    nodes: Seq<StreetNodeId>,
    walk: Map<StreetNodeId, Time>,
    n2s: Map<StreetNodeId, RaptorStopId>,
    distance: Time,
    budget: int,
    max_stops: usize,
) -> bool {
    &&& stops.len() == nodes.len()
    &&& stops.len() <= max_stops
    &&& forall|a: int, b: int| 0 <= a < nodes.len() && 0 <= b < nodes.len() && a != b ==> nodes[a] != nodes[b]
    &&& forall|i: int| 0 <= i < nodes.len() ==> candidate_node(walk, n2s, budget, #[trigger] nodes[i])
    &&& forall|i: int| 0 <= i < nodes.len() ==> #[trigger] stops[i] == (n2s[nodes[i]], (walk[nodes[i]] + distance) as Time)
    &&& forall|a: int, b: int| 0 <= a < b < stops.len() ==> (#[trigger] stops[a]).1 <= (#[trigger] stops[b]).1
    &&& forall|n: StreetNodeId|
        #[trigger] candidate_node(walk, n2s, budget, n) && (forall|i: int| 0 <= i < nodes.len() ==> nodes[i] != n) ==> stops.len()
            == max_stops && forall|i: int| 0 <= i < stops.len() ==> stops[i].1 <= walk[n] + distance
}

impl TransitPoint {
    /// Connects a point to the transit network. `nearest` is the nearest
    /// street node and the walking time to it (`None` without street
    /// network); `walking_paths` holds walking times from that node within
    /// the rest of the walking budget. Fails when the street network is out
    /// of walking range; otherwise keeps the `max_stops` nearest stops.
    pub fn new(
        geometry: Coordinate,
        nearest: Option<(StreetNodeId, Time)>,
        walking_paths: WalkingTimes,
        transit: &PublicTransitData,
        max_walking_time: Time,
        max_stops: usize,
    ) -> (r: Result<TransitPoint, Error>)
        ensures
            nearest is None ==> r matches Err(Error::NoPointsFound),
            nearest matches Some((node, distance)) ==> (distance > max_walking_time ==> r matches Err(Error::NoPointsFound)) && (
            distance <= max_walking_time ==> (r matches Ok(p) && p.geometry == geometry && p.node_id == node && p.walking_paths@
                == walking_paths@ && exists|nodes: Seq<StreetNodeId>|
                #[trigger] nearest_selection(
                    p.nearest_stops@,
                    nodes,
                    walking_paths@,
                    transit.node_to_stop@,
                    distance,
                    max_walking_time - distance,
                    max_stops,
                ))),
    {
        let (node_id, distance) = match nearest {
            Some(found) => found,
            None => {
                return Err(Error::NoPointsFound);
            },
        };
        if distance > max_walking_time {
            return Err(Error::NoPointsFound);
        }
        let budget = max_walking_time - distance;
        let ghost walk = walking_paths@;
        let ghost n2s = transit.node_to_stop@;
        let entries = walking_paths.entries();
        let ghost es = entries@;
        let mut cands: Vec<StopCandidate> = Vec::new();
        let mut e: usize = 0;
        while e < entries.len()
            invariant
                es == entries@,
                e <= es.len(),
                walk == walking_paths@,
                n2s == transit.node_to_stop@,
                budget == max_walking_time - distance,
                forall|i: int| 0 <= i < es.len() ==> #[trigger] walk.contains_key(es[i].0) && walk[es[i].0] == es[i].1,
                forall|i: int, j: int| 0 <= i < es.len() && 0 <= j < es.len() && i != j ==> es[i].0 != es[j].0,
                forall|c: int| 0 <= c < cands@.len() ==> candidate_node(walk, n2s, budget as int, (#[trigger] cands@[c]).2)
                    && cands@[c] == candidate_of(walk, n2s, distance, cands@[c].2),
                forall|c: int| 0 <= c < cands@.len() ==> exists|i: int| 0 <= i < e && #[trigger] es[i].0 == (#[trigger] cands@[c]).2,
                cands@.no_duplicates(),
                forall|i: int| 0 <= i < e && #[trigger] candidate_node(walk, n2s, budget as int, es[i].0) ==> cands@.contains(
                    candidate_of(walk, n2s, distance, es[i].0),
                ),
            decreases es.len() - e,
        {
            let (node, time) = entries[e];
            proof {
                assert(walk.contains_key(es[e as int].0));
            }
            if time <= budget {
                if let Some(stop) = transit.node_to_stop.get(node) {
                    let c = (stop, time + distance, node);
                    let ghost before = cands@;
                    proof {
                        assert(!before.contains(c)) by {
                            if before.contains(c) {
                                let q = choose|q: int| 0 <= q < before.len() && before[q] == c;
                                let i = choose|i: int| 0 <= i < e && #[trigger] es[i].0 == (#[trigger] before[q]).2;
                            }
                        }
                    }
                    cands.push(c);
                    proof {
                        assert(cands@[before.len() as int] == c);
                        assert forall|x: StopCandidate| before.contains(x) implies cands@.contains(x) by {
                            let q = choose|q: int| 0 <= q < before.len() && before[q] == x;
                            assert(cands@[q] == x);
                        }
                        assert forall|c2: int| 0 <= c2 < cands@.len() implies exists|i: int| 0 <= i < e + 1 && #[trigger] es[i].0
                            == (#[trigger] cands@[c2]).2 by {
                            if c2 < before.len() {
                                assert(cands@[c2] == before[c2]);
                                let i = choose|i: int| 0 <= i < e && #[trigger] es[i].0 == (#[trigger] before[c2]).2;
                            } else {
                                assert(es[e as int].0 == cands@[c2].2);
                            }
                        }
                        assert forall|p: int, q: int| 0 <= p < cands@.len() && 0 <= q < cands@.len() && p != q implies cands@[p]
                            != cands@[q] by {
                            if p < before.len() && q < before.len() {
                                assert(cands@[p] == before[p]);
                                assert(cands@[q] == before[q]);
                            } else if p < before.len() {
                                assert(cands@[p] == before[p]);
                                assert(before.contains(cands@[p]));
                            } else if q < before.len() {
                                assert(cands@[q] == before[q]);
                                assert(before.contains(cands@[q]));
                            }
                        }
                    }
                }
            }
            e += 1;
        }
        let k = if max_stops < cands.len() {
            max_stops
        } else {
            cands.len()
        };
        let ghost cv = cands@;
        let w = select_nearest(cands, k);
        let mut nearest_stops: Vec<(RaptorStopId, Time)> = Vec::new();
        let mut i: usize = 0;
        while i < k
            invariant
                i <= k,
                k <= w@.len(),
                nearest_stops@.len() == i,
                forall|a: int| 0 <= a < i ==> #[trigger] nearest_stops@[a] == (w@[a].0, w@[a].1),
            decreases k - i,
        {
            nearest_stops.push((w[i].0, w[i].1));
            i += 1;
        }
        let ghost nodes = w@.take(k as int).map_values(|c: StopCandidate| c.2);
        proof {
            assert forall|a: int| 0 <= a < k implies #[trigger] candidate_node(walk, n2s, budget as int, w@[a].2)
                && w@[a] == candidate_of(walk, n2s, distance, w@[a].2) by {
                assert(w@.contains(w@[a]));
                assert(cv.contains(w@[a]));
                let q = choose|q: int| 0 <= q < cv.len() && cv[q] == w@[a];
                assert(candidate_node(walk, n2s, budget as int, cv[q].2));
            }
            assert forall|a: int, b: int| 0 <= a < nodes.len() && 0 <= b < nodes.len() && a != b implies nodes[a] != nodes[b] by {
                assert(candidate_node(walk, n2s, budget as int, w@[a].2));
                assert(candidate_node(walk, n2s, budget as int, w@[b].2));
                assert(w@[a] != w@[b]);
            }
            assert forall|i2: int| 0 <= i2 < nodes.len() implies #[trigger] nearest_stops@[i2] == (n2s[nodes[i2]], (walk[nodes[i2]]
                + distance) as Time) by {
                assert(candidate_node(walk, n2s, budget as int, w@[i2].2));
            }
            assert forall|i2: int| 0 <= i2 < nodes.len() implies candidate_node(walk, n2s, budget as int, #[trigger] nodes[i2]) by {
                assert(candidate_node(walk, n2s, budget as int, w@[i2].2));
            }
            assert forall|a: int, b: int| 0 <= a < b < nearest_stops@.len() implies (#[trigger] nearest_stops@[a]).1
                <= (#[trigger] nearest_stops@[b]).1 by {
                assert(w@[a].1 <= w@[b].1);
            }
            assert forall|n: StreetNodeId|
                #[trigger] candidate_node(walk, n2s, budget as int, n) && (forall|i2: int| 0 <= i2 < nodes.len() ==> nodes[i2] != n)
                    implies nearest_stops@.len() == max_stops && forall|i2: int|
                    0 <= i2 < nearest_stops@.len() ==> nearest_stops@[i2].1 <= walk[n] + distance by {
                let ei = choose|ei: int| 0 <= ei < es.len() && #[trigger] es[ei].0 == n;
                assert(candidate_node(walk, n2s, budget as int, es[ei].0));
                let cn = candidate_of(walk, n2s, distance, n);
                assert(cv.contains(cn));
                assert(w@.contains(cn));
                let p = choose|p: int| 0 <= p < w@.len() && w@[p] == cn;
                if p < k {
                    assert(nodes[p] == n);
                }
                assert(p >= k);
                assert forall|i2: int| 0 <= i2 < nearest_stops@.len() implies nearest_stops@[i2].1 <= walk[n] + distance by {
                    assert(w@[i2].1 <= w@[p].1);
                }
            }
            assert(nearest_selection(nearest_stops@, nodes, walk, n2s, distance, max_walking_time - distance, max_stops));
        }
        let point = TransitPoint { geometry, node_id, nearest_stops, walking_paths };
        assert(point.walking_paths@ == walk);
        assert(nearest_selection(point.nearest_stops@, nodes, walk, n2s, distance, max_walking_time - distance, max_stops));
        Ok(point)
    }
}

/// A stop candidate `(stop, walking seconds, street node)`.
pub type StopCandidate = (RaptorStopId, Time, StreetNodeId);

/// Moves the `k` nearest candidates, ordered by walking time, to the front.
/// The candidates are only permuted.
pub fn select_nearest(v: Vec<StopCandidate>, k: usize) -> (w: Vec<StopCandidate>)
    requires
        k <= v@.len(),
        v@.no_duplicates(),
    ensures
        w@.len() == v@.len(),
        w@.no_duplicates(),
        forall|x: StopCandidate| w@.contains(x) <==> v@.contains(x),
        forall|a: int, b: int| 0 <= a < b < k ==> (#[trigger] w@[a]).1 <= (#[trigger] w@[b]).1,
        forall|a: int, b: int| 0 <= a < k <= b < w@.len() ==> (#[trigger] w@[a]).1 <= (#[trigger] w@[b]).1,
{
    let mut w = v;
    let n = w.len();
    let mut i: usize = 0;
    while i < k
        invariant
            k <= n,
            n == w@.len(),
            n == v@.len(),
            i <= k,
            w@.no_duplicates(),
            forall|x: StopCandidate| w@.contains(x) <==> v@.contains(x),
            forall|a: int, b: int| 0 <= a < b < i ==> (#[trigger] w@[a]).1 <= (#[trigger] w@[b]).1,
            forall|a: int, b: int| 0 <= a < i <= b < n ==> (#[trigger] w@[a]).1 <= (#[trigger] w@[b]).1,
        decreases k - i,
    {
        let mut m: usize = i;
        let mut j: usize = i + 1;
        while j < n
            invariant
                n == w@.len(),
                i < n,
                i <= m < n,
                i < j <= n,
                forall|b: int| i <= b < j ==> w@[m as int].1 <= (#[trigger] w@[b]).1,
            decreases n - j,
        {
            if w[j].1 < w[m].1 {
                m = j;
            }
            j += 1;
        }
        let ghost before = w@;
        let a = w[i];
        let b = w[m];
        w.set(i, b);
        w.set(m, a);
        proof {
            assert forall|x: StopCandidate| w@.contains(x) <==> before.contains(x) by {
                if w@.contains(x) {
                    let p = choose|p: int| 0 <= p < w@.len() && w@[p] == x;
                    if p == i as int {
                        assert(before[m as int] == x);
                    } else if p == m as int {
                        assert(before[i as int] == x);
                    } else {
                        assert(before[p] == x);
                    }
                }
                if before.contains(x) {
                    let p = choose|p: int| 0 <= p < before.len() && before[p] == x;
                    if p == i as int {
                        assert(w@[m as int] == x);
                    } else if p == m as int {
                        assert(w@[i as int] == x);
                    } else {
                        assert(w@[p] == x);
                    }
                }
            }
            assert forall|p: int, q: int| 0 <= p < w@.len() && 0 <= q < w@.len() && p != q implies w@[p] != w@[q] by {
                let pp = if p == i as int { m as int } else if p == m as int { i as int } else { p };
                let qq = if q == i as int { m as int } else if q == m as int { i as int } else { q };
                assert(w@[p] == before[pp]);
                assert(w@[q] == before[qq]);
            }
            assert forall|a2: int, b2: int| 0 <= a2 < i + 1 <= b2 < n implies (#[trigger] w@[a2]).1 <= (#[trigger] w@[b2]).1 by {
                if a2 < i {
                    let bb = if b2 == m as int { i as int } else { b2 };
                    assert(w@[b2] == before[bb]);
                } else {
                    let bb = if b2 == m as int { i as int } else { b2 };
                    assert(w@[b2] == before[bb]);
                }
            }
            assert forall|a2: int, b2: int| 0 <= a2 < b2 < i + 1 implies (#[trigger] w@[a2]).1 <= (#[trigger] w@[b2]).1 by {
                if b2 < i {
                    assert(w@[a2] == before[a2]);
                    assert(w@[b2] == before[b2]);
                } else {
                    assert(w@[a2] == before[a2]);
                }
            }
        }
        i += 1;
    }
    w
}

} // verus!
