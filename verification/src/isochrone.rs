//! Grid-based isochrones: an index of H3 cells connected to the transit
//! network, and which cells a departure reaches within a cutoff.
use vstd::prelude::*;

use crate::error::{DataIssue, Error, RaptorError};
use crate::point::TransitPoint;
use crate::routing::{multimodal_routing_one_to_many, MultiModalResult, RoutingTarget, TargetArrival};
use crate::types::{RaptorStopId, StreetNodeId, Time};

verus! {

/// An H3 cell (`h3o::CellIndex`), carried through unchanged.
#[verifier::external_type_specification]
#[verifier::external_body]
pub struct ExCellIndex(h3o::CellIndex);

/// `h3o::Resolution::try_from(u8)`: resolutions 0 to 15 exist.
#[verifier::external_body]
fn is_h3_resolution(resolution: u8) -> (r: bool)
    ensures
        r == (resolution <= 15),
{
    h3o::Resolution::try_from(resolution).is_ok()
}

/// Egress stops kept per grid cell.
pub const GRID_EGRESS_STOPS: usize = 3;

/// One grid cell's connection to the transit network.
#[derive(Debug, Clone, Copy)]
pub struct GridPoint {
    /// Street network node the cell centroid snapped to.
    pub node: u32,
    /// How many entries of `stops` are populated.
    pub stop_count: u8,
    /// `(stop, walking seconds)` pairs, nearest first.
    pub stops: [(u32, u32); 3],
}

impl GridPoint {
    /// Whether the point is consistent: at most three stops are populated.
    pub open spec fn well_formed(&self) -> bool {
        self.stop_count <= GRID_EGRESS_STOPS
    }

    /// Packs a snapped cell centroid: its street node and its nearest stops,
    /// of which the first three are kept. `None` when a kept stop index does
    /// not fit in `u32`.
    pub fn from_snap(node: StreetNodeId, nearest_stops: &Vec<(RaptorStopId, Time)>) -> (r: Option<GridPoint>)
        ensures
            (forall|i: int| 0 <= i < nearest_stops@.len() && i < GRID_EGRESS_STOPS ==> (#[trigger] nearest_stops@[i]).0 <= u32::MAX)
                <==> r is Some,
            r matches Some(g) ==> {
                &&& g.node == node
                &&& g.well_formed()
                &&& g.stop_count == if nearest_stops@.len() < GRID_EGRESS_STOPS { nearest_stops@.len() } else { GRID_EGRESS_STOPS as nat }
                &&& forall|i: int| 0 <= i < g.stop_count ==> g.stops@[i] == ((#[trigger] nearest_stops@[i]).0 as u32, nearest_stops@[i].1)
            },
    {
        let mut stops: [(u32, u32); 3] = [(0, 0), (0, 0), (0, 0)];
        let mut stop_count: u8 = 0;
        let mut i: usize = 0;
        while i < GRID_EGRESS_STOPS && i < nearest_stops.len()
            invariant
                i <= GRID_EGRESS_STOPS,
                i <= nearest_stops@.len(),
                stop_count == i,
                stops@.len() == 3,
                forall|k: int| 0 <= k < i ==> (#[trigger] nearest_stops@[k]).0 <= u32::MAX && stops@[k] == (nearest_stops@[k].0 as u32, nearest_stops@[k].1),
            decreases GRID_EGRESS_STOPS - i,
        {
            let (stop, time) = nearest_stops[i];
            if stop > u32::MAX as usize {
                return None;
            }
            stops.set(i, (stop as u32, time));
            stop_count += 1;
            i += 1;
        }
        Some(GridPoint { node, stop_count, stops })
    }

    /// The populated egress stops.
    pub open spec fn egress(&self) -> Seq<(RaptorStopId, Time)> {
        Seq::new(
            if self.stop_count <= 3 { self.stop_count as nat } else { 3 },
            |i: int| (self.stops@[i].0 as RaptorStopId, self.stops@[i].1),
        )
    }
}

impl RoutingTarget for GridPoint {
    open spec fn target_node_spec(&self) -> StreetNodeId {
        self.node
    }

    open spec fn direct_walking_spec(&self, origin: &TransitPoint) -> Option<Time> {
        if origin.walking_paths@.contains_key(self.node) {
            Some(origin.walking_paths@[self.node])
        } else {
            None
        }
    }

    open spec fn egress_spec(&self) -> Seq<(RaptorStopId, Time)> {
        self.egress()
    }

    fn target_node(&self) -> (r: StreetNodeId) {
        self.node
    }

    fn direct_walking_from(&self, origin: &TransitPoint) -> (r: Option<Time>) {
        origin.walking_paths.get(self.node)
    }

    fn egress_stops(&self) -> (r: Vec<(RaptorStopId, Time)>) {
        let n: usize = if self.stop_count <= 3 { self.stop_count as usize } else { 3 };
        let mut r: Vec<(RaptorStopId, Time)> = Vec::new();
        let mut i: usize = 0;
        while i < n
            invariant
                n <= 3,
                n == self.egress().len(),
                self.stops@.len() == 3,
                i <= n,
                r@ == self.egress().take(i as int),
            decreases n - i,
        {
            r.push((self.stops[i].0 as RaptorStopId, self.stops[i].1));
            i += 1;
            assert(r@ =~= self.egress().take(i as int));
        }
        assert(self.egress().take(i as int) =~= self.egress());
        r
    }
}

/// Index for isochrone calculation covering an area: a grid of H3 cells and
/// each cell's connection to the transit network.
pub struct IsochroneIndex {
    /// The cells, in grid order.
    pub grid: Vec<h3o::CellIndex>,
    /// The connection of each cell.
    pub points: Vec<GridPoint>,
    /// H3 resolution of the cells.
    pub resolution: u8,
}

impl IsochroneIndex {
    /// One connection per cell.
    pub open spec fn well_formed(&self) -> bool {
        self.grid@.len() == self.points@.len()
    }

    /// Number of cells.
    pub fn len(&self) -> (r: usize)
        ensures
            r == self.grid@.len(),
    {
        self.grid.len()
    }

    /// Whether the index holds neither cells nor connections.
    pub fn is_empty(&self) -> (r: bool)
        ensures
            r == (self.grid@.len() == 0 && self.points@.len() == 0),
    {
        self.grid.len() == 0 && self.points.len() == 0
    }

    /// H3 resolution of the cells.
    pub fn resolution(&self) -> (r: u8)
        ensures
            r == self.resolution,
    {
        self.resolution
    }

    /// An index without cells.
    pub fn empty(resolution: u8) -> (r: IsochroneIndex)
        ensures
            r.grid@.len() == 0,
            r.points@.len() == 0,
            r.resolution == resolution,
    {
        IsochroneIndex { grid: Vec::new(), points: Vec::new(), resolution }
    }

    /// Builds the index from the candidate cells covering the area, in
    /// coverage order, and the snapping result of each (`None` where the
    /// centroid is out of walking range): snapped cells are kept, in order.
    /// Fails on a resolution that H3 does not have.
    pub fn new(candidates: Vec<h3o::CellIndex>, snapped: Vec<Option<GridPoint>>, cell_resolution: u8) -> (r: Result<IsochroneIndex, Error>)
        requires
            candidates@.len() == snapped@.len(),
        ensures
            cell_resolution > 15 ==> (r matches Err(Error::InvalidData(DataIssue::InvalidResolution { resolution }))
                && resolution == cell_resolution),
            cell_resolution <= 15 ==> (r matches Ok(index) && index_from(index, candidates@, snapped@, cell_resolution)),
    {
        if !is_h3_resolution(cell_resolution) {
            return Err(Error::InvalidData(DataIssue::InvalidResolution { resolution: cell_resolution }));
        }
        let mut grid: Vec<h3o::CellIndex> = Vec::new();
        let mut points: Vec<GridPoint> = Vec::new();
        let ghost mut kept: Seq<int> = Seq::empty();
        let mut i: usize = 0;
        while i < candidates.len()
            invariant
                candidates@.len() == snapped@.len(),
                i <= candidates@.len(),
                grid@.len() == points@.len(),
                kept.len() == grid@.len(),
                forall|j: int| 0 <= j < kept.len() ==> 0 <= #[trigger] kept[j] < i && snapped@[kept[j]] is Some,
                forall|a: int, b: int| 0 <= a < b < kept.len() ==> #[trigger] kept[a] < #[trigger] kept[b],
                forall|x: int| 0 <= x < i && #[trigger] snapped@[x] is Some ==> exists|j: int| 0 <= j < kept.len() && #[trigger] kept[j] == x,
                forall|j: int| #![trigger grid@[j]] #![trigger points@[j]] 0 <= j < kept.len() ==> grid@[j] == candidates@[kept[j]] && snapped@[kept[j]] == Some(points@[j]),
            decreases candidates@.len() - i,
        {
            if let Some(point) = snapped[i] {
                let ghost old_kept = kept;
                let ghost old_grid = grid@;
                let ghost old_points = points@;
                let cell = candidates[i];
                assert(cell == candidates@[i as int]);
                assert(snapped@[i as int] == Some(point));
                grid.push(cell);
                points.push(point);
                proof {
                    kept = kept.push(i as int);
                    assert forall|j: int| 0 <= j < kept.len() implies 0 <= #[trigger] kept[j] < i + 1 && snapped@[kept[j]] is Some by {
                        if j < old_kept.len() {
                            assert(kept[j] == old_kept[j]);
                        }
                    }
                    assert forall|a: int, b: int| 0 <= a < b < kept.len() implies #[trigger] kept[a] < #[trigger] kept[b] by {
                        assert(kept[a] == old_kept[a]);
                        if b < old_kept.len() {
                            assert(kept[b] == old_kept[b]);
                        }
                    }
                    assert forall|x: int| 0 <= x < i + 1 && #[trigger] snapped@[x] is Some implies exists|j: int|
                        0 <= j < kept.len() && #[trigger] kept[j] == x by {
                        if x < i {
                            let j = choose|j: int| 0 <= j < old_kept.len() && #[trigger] old_kept[j] == x;
                            assert(kept[j] == x);
                        } else {
                            assert(kept[kept.len() - 1] == x);
                        }
                    }
                    assert forall|j: int| #![trigger grid@[j]] #![trigger points@[j]] 0 <= j < kept.len() implies grid@[j] == candidates@[kept[j]] && snapped@[kept[j]] == Some(
                        points@[j],
                    ) by {
                        if j < old_kept.len() {
                            assert(kept[j] == old_kept[j]);
                            assert(grid@[j] == old_grid[j]);
                            assert(points@[j] == old_points[j]);
                            assert(old_grid[j] == candidates@[old_kept[j]] && snapped@[old_kept[j]] == Some(old_points[j]));
                        } else {
                            assert(kept[j] == i);
                            assert(grid@[j] == cell);
                            assert(points@[j] == point);
                        }
                    }
                }
            }
            i += 1;
        }
        assert(snapped_positions(kept, snapped@));
        let index = IsochroneIndex { grid, points, resolution: cell_resolution };
        assert(index_from(index, candidates@, snapped@, cell_resolution));
        Ok(index)
    }
}

/// `kept` lists, in increasing order, exactly the positions below `n` that
/// satisfy `keep`.
pub open spec fn kept_cells(kept: Seq<int>, n: int, keep: spec_fn(int) -> bool) -> bool {
    &&& forall|j: int| 0 <= j < kept.len() ==> 0 <= #[trigger] kept[j] < n && keep(kept[j])
    &&& forall|a: int, b: int| 0 <= a < b < kept.len() ==> #[trigger] kept[a] < #[trigger] kept[b]
    &&& forall|i: int| 0 <= i < n && #[trigger] keep(i) ==> exists|j: int| 0 <= j < kept.len() && #[trigger] kept[j] == i
}

/// Two position lists that each list, in increasing order, exactly the
/// positions satisfying one predicate are the same list.
pub proof fn lemma_kept_unique(k1: Seq<int>, k2: Seq<int>, n: int, keep: spec_fn(int) -> bool)
    requires
        kept_cells(k1, n, keep),
        kept_cells(k2, n, keep),
    ensures
        k1 == k2,
{
    let m = if k1.len() < k2.len() { k1.len() as int } else { k2.len() as int };
    lemma_kept_agree(k1, k2, n, keep, m);
    if k1.len() > k2.len() {
        let x = k1[m];
        assert(keep(x));
        let j2 = choose|j: int| 0 <= j < k2.len() && #[trigger] k2[j] == x;
        assert(k1[j2] == k2[j2]);
        assert(k1[j2] < k1[m]);
    }
    if k2.len() > k1.len() {
        let x = k2[m];
        assert(keep(x));
        let j1 = choose|j: int| 0 <= j < k1.len() && #[trigger] k1[j] == x;
        assert(k1[j1] == k2[j1]);
        assert(k2[j1] < k2[m]);
    }
    assert(k1 =~= k2);
}

/// Two such position lists agree on their first `j` positions.
proof fn lemma_kept_agree(k1: Seq<int>, k2: Seq<int>, n: int, keep: spec_fn(int) -> bool, j: int)
    requires
        kept_cells(k1, n, keep),
        kept_cells(k2, n, keep),
        0 <= j <= k1.len(),
        j <= k2.len(),
    ensures
        forall|t: int| 0 <= t < j ==> #[trigger] k1[t] == k2[t],
    decreases j,
{
    if j > 0 {
        lemma_kept_agree(k1, k2, n, keep, j - 1);
        let t = j - 1;
        assert(keep(k1[t]));
        assert(keep(k2[t]));
        let j2 = choose|x: int| 0 <= x < k2.len() && #[trigger] k2[x] == k1[t];
        let j1 = choose|x: int| 0 <= x < k1.len() && #[trigger] k1[x] == k2[t];
        if j2 < t {
            assert(k1[j2] == k2[j2]);
            assert(k1[j2] < k1[t]);
        }
        if j1 < t {
            assert(k1[j1] == k2[j1]);
            assert(k2[j1] < k2[t]);
        }
        if j2 > t {
            assert(k2[t] < k2[j2]);
        }
        if j1 > t {
            assert(k1[t] < k1[j1]);
        }
    }
}

/// `kept` lists, in order, the positions of the snapped cells.
pub open spec fn snapped_positions(kept: Seq<int>, snapped: Seq<Option<GridPoint>>) -> bool {
    kept_cells(kept, snapped.len() as int, |i: int| snapped[i] is Some)
}

/// `kept` lists, in order, the positions of the cells reached within `cutoff`.
pub open spec fn reached_positions(kept: Seq<int>, results: Seq<Option<MultiModalResult>>, cutoff: Time) -> bool {
    kept_cells(kept, results.len() as int, |k: int| reached_within(results, cutoff, k))
}

/// The journey to cell `k` arrives within the cutoff.
pub open spec fn reached_within(results: Seq<Option<MultiModalResult>>, cutoff: Time, k: int) -> bool {
    results[k] matches Some(r) && r.travel_time <= cutoff
}

/// `index` is built from the candidate cells and their snapping results:
/// the snapped cells, in order, with their connections, at `resolution`.
pub open spec fn index_from(
    index: IsochroneIndex,
    candidates: Seq<h3o::CellIndex>,
    snapped: Seq<Option<GridPoint>>,
    resolution: u8,
) -> bool {
    &&& index.well_formed()
    &&& index.resolution == resolution
    &&& exists|kept: Seq<int>|
        #[trigger] snapped_positions(kept, snapped) && kept.len() == index.grid@.len() && forall|j: int|
            #![trigger index.grid@[j]]
            #![trigger index.points@[j]]
            0 <= j < kept.len() ==> index.grid@[j] == candidates[kept[j]] && snapped[kept[j]] == Some(index.points@[j])
}

/// Building an index is reproducible: from the same candidate cells,
/// snapping results and resolution, two builds hold the same cells, the
/// same connections and the same resolution.
pub proof fn law_index_build_reproducible(
    a: IsochroneIndex,
    b: IsochroneIndex,
    candidates: Seq<h3o::CellIndex>,
    snapped: Seq<Option<GridPoint>>,
    resolution: u8,
)
    requires
        index_from(a, candidates, snapped, resolution),
        index_from(b, candidates, snapped, resolution),
    ensures
        a.grid@ == b.grid@,
        a.points@ == b.points@,
        a.resolution == b.resolution,
{
    let ka = choose|kept: Seq<int>|
        #[trigger] snapped_positions(kept, snapped) && kept.len() == a.grid@.len() && forall|j: int|
            #![trigger a.grid@[j]]
            #![trigger a.points@[j]]
            0 <= j < kept.len() ==> a.grid@[j] == candidates[kept[j]] && snapped[kept[j]] == Some(a.points@[j]);
    let kb = choose|kept: Seq<int>|
        #[trigger] snapped_positions(kept, snapped) && kept.len() == b.grid@.len() && forall|j: int|
            #![trigger b.grid@[j]]
            #![trigger b.points@[j]]
            0 <= j < kept.len() ==> b.grid@[j] == candidates[kept[j]] && snapped[kept[j]] == Some(b.points@[j]);
    lemma_kept_unique(ka, kb, snapped.len() as int, |i: int| snapped[i] is Some);
    assert forall|j: int| 0 <= j < a.grid@.len() implies a.grid@[j] == b.grid@[j] && a.points@[j] == b.points@[j] by {
        assert(a.grid@[j] == candidates[ka[j]]);
        assert(b.grid@[j] == candidates[kb[j]]);
        assert(snapped[ka[j]] == Some(a.points@[j]));
        assert(snapped[kb[j]] == Some(b.points@[j]));
    }
    assert(a.grid@ =~= b.grid@);
    assert(a.points@ =~= b.points@);
}

/// More time reaches at least the same cells: with the same routing
/// results, every position reached within a cutoff is among those reached
/// within any larger cutoff, and each cutoff's positions are unique.
pub proof fn law_reached_positions_grow(
    results: Seq<Option<MultiModalResult>>,
    near: Time,
    far: Time,
    near_kept: Seq<int>,
    far_kept: Seq<int>,
)
    requires
        near <= far,
        reached_positions(near_kept, results, near),
        reached_positions(far_kept, results, far),
    ensures
        forall|j: int| 0 <= j < near_kept.len() ==> far_kept.contains(#[trigger] near_kept[j]),
        near_kept.len() <= far_kept.len(),
        forall|other: Seq<int>| #[trigger] reached_positions(other, results, near) ==> other == near_kept,
{
    assert forall|j: int| 0 <= j < near_kept.len() implies far_kept.contains(#[trigger] near_kept[j]) by {
        let x = near_kept[j];
        assert(reached_within(results, near, x));
        assert(reached_within(results, far, x));
        assert((|k: int| reached_within(results, far, k))(x));
        let j2 = choose|j2: int| 0 <= j2 < far_kept.len() && #[trigger] far_kept[j2] == x;
        assert(far_kept[j2] == x);
    }
    assert forall|other: Seq<int>| #[trigger] reached_positions(other, results, near) implies other == near_kept by {
        lemma_kept_unique(other, near_kept, results.len() as int, |k: int| reached_within(results, near, k));
    }
    lemma_increasing_subsequence_len(near_kept, far_kept);
}

/// A strictly increasing sequence whose elements all occur in another
/// strictly increasing sequence is no longer than it.
proof fn lemma_increasing_subsequence_len(a: Seq<int>, b: Seq<int>)
    requires
        forall|x: int, y: int| 0 <= x < y < a.len() ==> #[trigger] a[x] < #[trigger] a[y],
        forall|x: int, y: int| 0 <= x < y < b.len() ==> #[trigger] b[x] < #[trigger] b[y],
        forall|j: int| 0 <= j < a.len() ==> b.contains(#[trigger] a[j]),
    ensures
        a.len() <= b.len(),
    decreases a.len(),
{
    if a.len() > 0 {
        let last = a.last();
        assert(b.contains(a[a.len() - 1]));
        let p = choose|p: int| 0 <= p < b.len() && b[p] == last;
        let a2 = a.drop_last();
        let b2 = b.take(p);
        assert forall|j: int| 0 <= j < a2.len() implies b2.contains(#[trigger] a2[j]) by {
            assert(a2[j] == a[j]);
            assert(b.contains(a[j]));
            let q = choose|q: int| 0 <= q < b.len() && b[q] == a[j];
            assert(a[j] < last);
            if q >= p {
                if q > p {
                    assert(b[p] < b[q]);
                }
            }
            assert(b2[q] == a[j]);
        }
        assert forall|x: int, y: int| 0 <= x < y < b2.len() implies #[trigger] b2[x] < #[trigger] b2[y] by {
            assert(b2[x] == b[x] && b2[y] == b[y]);
        }
        assert forall|x: int, y: int| 0 <= x < y < a2.len() implies #[trigger] a2[x] < #[trigger] a2[y] by {
            assert(a2[x] == a[x] && a2[y] == a[y]);
        }
        lemma_increasing_subsequence_len(a2, b2);
    }
}

/// Cells of the grid whose routing result arrives within `cutoff`, in grid
/// order. `results[k]` is the routing result to cell `k`.
pub fn reached_cells(grid: &Vec<h3o::CellIndex>, results: &Vec<Option<MultiModalResult>>, cutoff: Time) -> (r: Vec<h3o::CellIndex>)
    requires
        results@.len() == grid@.len(),
    ensures
        exists|kept: Seq<int>| #[trigger] reached_positions(kept, results@, cutoff)
            && kept.len() == r@.len() && forall|j: int| 0 <= j < kept.len() ==> #[trigger] r@[j] == grid@[kept[j]],
{
    let mut r: Vec<h3o::CellIndex> = Vec::new();
    let ghost mut kept: Seq<int> = Seq::empty();
    let mut k: usize = 0;
    while k < grid.len()
        invariant
            results@.len() == grid@.len(),
            k <= grid@.len(),
            kept.len() == r@.len(),
            forall|j: int| 0 <= j < kept.len() ==> 0 <= #[trigger] kept[j] < k && reached_within(results@, cutoff, kept[j]),
            forall|a: int, b: int| 0 <= a < b < kept.len() ==> #[trigger] kept[a] < #[trigger] kept[b],
            forall|x: int| 0 <= x < k && #[trigger] reached_within(results@, cutoff, x) ==> exists|j: int| 0 <= j < kept.len() && #[trigger] kept[j] == x,
            forall|j: int| 0 <= j < kept.len() ==> #[trigger] r@[j] == grid@[kept[j]],
        decreases grid@.len() - k,
    {
        let reached = match results[k] {
            Some(result) => result.travel_time <= cutoff,
            None => false,
        };
        assert(reached == reached_within(results@, cutoff, k as int));
        if reached {
            let ghost old_kept = kept;
            r.push(grid[k]);
            proof {
                kept = kept.push(k as int);
                assert forall|j: int| 0 <= j < kept.len() implies 0 <= #[trigger] kept[j] < k + 1 && reached_within(results@, cutoff, kept[j]) by {
                    if j < old_kept.len() {
                        assert(kept[j] == old_kept[j]);
                    }
                }
                assert forall|a: int, b: int| 0 <= a < b < kept.len() implies #[trigger] kept[a] < #[trigger] kept[b] by {
                    assert(kept[a] == old_kept[a]);
                    if b < old_kept.len() {
                        assert(kept[b] == old_kept[b]);
                    }
                }
                assert forall|x: int| 0 <= x < k + 1 && #[trigger] reached_within(results@, cutoff, x) implies exists|j: int|
                    0 <= j < kept.len() && #[trigger] kept[j] == x by {
                    if x < k {
                        let j = choose|j: int| 0 <= j < old_kept.len() && #[trigger] old_kept[j] == x;
                        assert(kept[j] == x);
                    } else {
                        assert(kept[kept.len() - 1] == x);
                    }
                }
                assert forall|j: int| 0 <= j < kept.len() implies #[trigger] r@[j] == grid@[kept[j]] by {
                    if j < old_kept.len() {
                        assert(kept[j] == old_kept[j]);
                    }
                }
            }
        }
        k += 1;
    }
    assert(reached_positions(kept, results@, cutoff));
    r
}

/// Cells reachable from a start point within `cutoff`: one-to-many routing
/// to every cell of the index (see [`multimodal_routing_one_to_many`]),
/// keeping the cells whose journey arrives in time, in grid order.
pub fn compute_reachable_cells(
    start_point: &TransitPoint,
    departure_time: Time,
    cutoff: Time,
    index: &IsochroneIndex,
    searches: &Vec<Result<Vec<TargetArrival>, RaptorError>>,
) -> (r: Result<Vec<h3o::CellIndex>, Error>)
    requires
        index.well_formed(),
        searches@.len() == crate::routing::leading_candidates(start_point.nearest_stops@).len(),
        (forall|i: int| 0 <= i < searches@.len() ==> (#[trigger] searches@[i]) is Ok) ==> forall|k: int|
            0 <= k < index.points@.len() ==> crate::routing::arrivals_fit(
                departure_time,
                crate::routing::leading_candidates(start_point.nearest_stops@),
                #[trigger] index.points@[k],
                searches@.map_values(|s: Result<Vec<TargetArrival>, RaptorError>| s->Ok_0@),
            ),
    ensures
        (exists|i: int| 0 <= i < searches@.len() && (#[trigger] searches@[i]) is Err) ==> (r matches Err(Error::InvalidData(DataIssue::Raptor(e)))
            && exists|i: int| 0 <= i < searches@.len() && (#[trigger] searches@[i]) is Err && searches@[i]->Err_0 == e && (forall|i2: int|
                0 <= i2 < i ==> (#[trigger] searches@[i2]) is Ok)),
        (forall|i: int| 0 <= i < searches@.len() ==> (#[trigger] searches@[i]) is Ok) ==> (r matches Ok(cells) && reached_as(
            cells@,
            index.grid@,
            cell_results(*start_point, departure_time, *index, searches@),
            cutoff,
        )),
{
    let results = match multimodal_routing_one_to_many(start_point, index.points.as_slice(), departure_time, searches) {
        Ok(results) => results,
        Err(e) => {
            return Err(e);
        },
    };
    let cells = reached_cells(&index.grid, &results, cutoff);
    assert(results@ =~= cell_results(*start_point, departure_time, *index, searches@));
    Ok(cells)
}

/// The routing result of each cell of the index, from the one-to-many
/// searches (`searches[i]` from access candidate `i`).
pub open spec fn cell_results(
    start_point: TransitPoint,
    departure_time: Time,
    index: IsochroneIndex,
    searches: Seq<Result<Vec<TargetArrival>, RaptorError>>,
) -> Seq<Option<MultiModalResult>> {
    Seq::new(
        index.points@.len(),
        |k: int|
            crate::routing::journey_choice(
                index.points@[k].direct_walking_spec(&start_point),
                departure_time,
                crate::routing::leading_candidates(start_point.nearest_stops@),
                index.points@[k].egress_spec(),
                crate::routing::target_table(
                    searches.map_values(|s: Result<Vec<TargetArrival>, RaptorError>| s->Ok_0@),
                    index.points@[k].egress_spec(),
                ),
            ),
    )
}

/// `cells` are, in grid order, the grid cells whose result arrives within
/// `cutoff`.
pub open spec fn reached_as(
    cells: Seq<h3o::CellIndex>,
    grid: Seq<h3o::CellIndex>,
    results: Seq<Option<MultiModalResult>>,
    cutoff: Time,
) -> bool {
    exists|kept: Seq<int>|
        #[trigger] reached_positions(kept, results, cutoff) && kept.len() == cells.len() && forall|j: int|
            0 <= j < kept.len() ==> #[trigger] cells[j] == grid[kept[j]]
}

/// Reachable cells grow with the cutoff: from the same searches, the cells
/// reached within a cutoff are all reached within any larger cutoff, in
/// the same order, and are no more; all are cells of the grid.
pub proof fn law_reachable_cells_grow(
    grid: Seq<h3o::CellIndex>,
    results: Seq<Option<MultiModalResult>>,
    near: Time,
    far: Time,
    near_cells: Seq<h3o::CellIndex>,
    far_cells: Seq<h3o::CellIndex>,
)
    requires
        near <= far,
        results.len() == grid.len(),
        reached_as(near_cells, grid, results, near),
        reached_as(far_cells, grid, results, far),
    ensures
        forall|j: int| 0 <= j < near_cells.len() ==> far_cells.contains(#[trigger] near_cells[j]),
        forall|j: int| 0 <= j < near_cells.len() ==> grid.contains(#[trigger] near_cells[j]),
        near_cells.len() <= far_cells.len(),
{
    let kn = choose|kept: Seq<int>|
        #[trigger] reached_positions(kept, results, near) && kept.len() == near_cells.len() && forall|j: int|
            0 <= j < kept.len() ==> #[trigger] near_cells[j] == grid[kept[j]];
    let kf = choose|kept: Seq<int>|
        #[trigger] reached_positions(kept, results, far) && kept.len() == far_cells.len() && forall|j: int|
            0 <= j < kept.len() ==> #[trigger] far_cells[j] == grid[kept[j]];
    law_reached_positions_grow(results, near, far, kn, kf);
    assert forall|j: int| 0 <= j < near_cells.len() implies far_cells.contains(#[trigger] near_cells[j]) && grid.contains(near_cells[j]) by {
        assert(near_cells[j] == grid[kn[j]]);
        assert(kf.contains(kn[j]));
        let j2 = choose|j2: int| 0 <= j2 < kf.len() && kf[j2] == kn[j];
        assert(far_cells[j2] == grid[kf[j2]]);
        assert(0 <= kn[j] < results.len());
    }
}

/// More time cannot reach less ground: with the same routing results, every
/// cell reached within a cutoff is reached within any larger cutoff.
pub proof fn law_reach_grows_with_cutoff(results: Seq<Option<MultiModalResult>>, near: Time, far: Time, k: int)
    requires
        near <= far,
        reached_within(results, near, k),
    ensures
        reached_within(results, far, k),
{
}

/// Departure times sampled from `start` to `end` inclusive, every `interval`
/// seconds.
pub fn departure_samples(start: Time, end: Time, interval: Time) -> (r: Vec<Time>)
    requires
        start <= end ==> interval > 0 && end + interval <= Time::MAX,
    ensures
        forall|i: int| 0 <= i < r@.len() ==> #[trigger] r@[i] == start + i * interval && r@[i] <= end,
        start + r@.len() * interval > end,
{
    let mut r: Vec<Time> = Vec::new();
    let mut current = start;
    assert(start + r@.len() * interval == start) by (nonlinear_arith)
        requires
            r@.len() == 0,
    ;
    while current <= end
        invariant
            start <= end ==> interval > 0 && end + interval <= Time::MAX,
            r@.len() > 0 ==> current <= end + interval,
            current == start + r@.len() * interval,
            forall|i: int| 0 <= i < r@.len() ==> #[trigger] r@[i] == start + i * interval && r@[i] <= end,
        decreases end + interval - current,
    {
        r.push(current);
        proof {
            assert(start + r@.len() * interval == start + (r@.len() - 1) * interval + interval) by (nonlinear_arith)
                requires
                    r@.len() >= 1,
            ;
        }
        current += interval;
    }
    r
}

/// For each cell, the number of sampled departures whose journey reaches it
/// within `cutoff`. `samples[s][k]` is sample `s`'s routing result to cell `k`.
pub fn access_counts(samples: &Vec<Vec<Option<MultiModalResult>>>, cutoff: Time, cells: usize) -> (r: Vec<u32>)
    requires
        samples@.len() <= u32::MAX,
        forall|s: int| 0 <= s < samples@.len() ==> (#[trigger] samples@[s])@.len() == cells,
    ensures
        r@.len() == cells,
        forall|k: int| 0 <= k < cells ==> #[trigger] r@[k] == reach_count(samples@.map_values(|v: Vec<Option<MultiModalResult>>| v@), cutoff, k),
        forall|k: int| 0 <= k < cells ==> #[trigger] r@[k] <= samples@.len(),
{
    let ghost sv = samples@.map_values(|v: Vec<Option<MultiModalResult>>| v@);
    let mut counts: Vec<u32> = Vec::new();
    let mut k: usize = 0;
    while k < cells
        invariant
            k <= cells,
            counts@.len() == k,
            forall|j: int| 0 <= j < k ==> #[trigger] counts@[j] == 0,
        decreases cells - k,
    {
        counts.push(0);
        k += 1;
    }
    let mut s: usize = 0;
    while s < samples.len()
        invariant
            s <= samples@.len(),
            samples@.len() <= u32::MAX,
            sv == samples@.map_values(|v: Vec<Option<MultiModalResult>>| v@),
            forall|t: int| 0 <= t < samples@.len() ==> (#[trigger] samples@[t])@.len() == cells,
            counts@.len() == cells,
            forall|j: int| 0 <= j < cells ==> #[trigger] counts@[j] == reach_count(sv.take(s as int), cutoff, j),
            forall|j: int| 0 <= j < cells ==> #[trigger] counts@[j] <= s,
        decreases samples@.len() - s,
    {
        let row = &samples[s];
        let mut j: usize = 0;
        while j < cells
            invariant
                s < samples@.len(),
                samples@.len() <= u32::MAX,
                row@.len() == cells,
                row == samples@[s as int],
                sv == samples@.map_values(|v: Vec<Option<MultiModalResult>>| v@),
                j <= cells,
                counts@.len() == cells,
                forall|x: int| 0 <= x < j ==> #[trigger] counts@[x] == reach_count(sv.take(s + 1), cutoff, x),
                forall|x: int| j <= x < cells ==> #[trigger] counts@[x] == reach_count(sv.take(s as int), cutoff, x),
                forall|x: int| 0 <= x < j ==> #[trigger] counts@[x] <= s + 1,
                forall|x: int| j <= x < cells ==> #[trigger] counts@[x] <= s,
            decreases cells - j,
        {
            proof {
                assert(sv.take(s + 1).drop_last() =~= sv.take(s as int));
                assert(sv.take(s + 1).last() == row@);
            }
            let reached = match row[j] {
                Some(result) => result.travel_time <= cutoff,
                None => false,
            };
            proof {
                lemma_reach_count_bound(sv.take(s as int), cutoff, j as int);
            }
            if reached {
                let c = counts[j];
                counts.set(j, c + 1);
            }
            j += 1;
        }
        s += 1;
    }
    assert(sv.take(s as int) =~= sv);
    counts
}

/// A count never exceeds the number of rows.
pub proof fn lemma_reach_count_bound(rows: Seq<Seq<Option<MultiModalResult>>>, cutoff: Time, k: int)
    ensures
        reach_count(rows, cutoff, k) <= rows.len(),
    decreases rows.len(),
{
    if rows.len() > 0 {
        lemma_reach_count_bound(rows.drop_last(), cutoff, k);
    }
}

/// How many of the sampled result rows reach cell `k` within `cutoff`.
pub open spec fn reach_count(rows: Seq<Seq<Option<MultiModalResult>>>, cutoff: Time, k: int) -> nat
    decreases rows.len(),
{
    if rows.len() == 0 {
        0
    } else {
        reach_count(rows.drop_last(), cutoff, k) + if reached_within(rows.last(), cutoff, k) { 1nat } else { 0nat }
    }
}

/// A cell counts as reached exactly when its journey exists and its whole
/// travel time, door to door, is within the cutoff: every listed position
/// has such a journey, and every such position is listed.
pub proof fn law_reached_means_travel_time_within(kept: Seq<int>, results: Seq<Option<MultiModalResult>>, cutoff: Time)
    requires
        reached_positions(kept, results, cutoff),
    ensures
        forall|j: int|
            0 <= j < kept.len() ==> 0 <= #[trigger] kept[j] < results.len() && results[kept[j]] is Some
                && results[kept[j]]->Some_0.travel_time <= cutoff,
        forall|k: int|
            0 <= k < results.len() && #[trigger] results[k] is Some && results[k]->Some_0.travel_time <= cutoff ==> kept.contains(k),
{
    assert forall|j: int| 0 <= j < kept.len() implies 0 <= #[trigger] kept[j] < results.len() && results[kept[j]] is Some
        && results[kept[j]]->Some_0.travel_time <= cutoff by {
        assert((|k: int| reached_within(results, cutoff, k))(kept[j]));
    }
    assert forall|k: int| 0 <= k < results.len() && #[trigger] results[k] is Some && results[k]->Some_0.travel_time <= cutoff implies kept.contains(
        k,
    ) by {
        assert((|k: int| reached_within(results, cutoff, k))(k));
        let j = choose|j: int| 0 <= j < kept.len() && #[trigger] kept[j] == k;
        assert(kept[j] == k);
    }
}

/// A cell's access count is the number of sampled departures whose journey
/// to it exists and takes, door to door, no more than the cutoff.
pub proof fn law_access_count_is_arrivals_within(rows: Seq<Seq<Option<MultiModalResult>>>, cutoff: Time, k: int)
    ensures
        reach_count(rows, cutoff, k) == rows.filter(
            |row: Seq<Option<MultiModalResult>>| row[k] is Some && row[k]->Some_0.travel_time <= cutoff,
        ).len(),
    decreases rows.len(),
{
    reveal_with_fuel(Seq::filter, 1);
    if rows.len() > 0 {
        law_access_count_is_arrivals_within(rows.drop_last(), cutoff, k);
    }
}

} // verus!
