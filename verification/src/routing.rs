//! Choosing between direct walking and transit journeys.
use vstd::prelude::*;

use crate::error::{DataIssue, Error, RaptorError};
use crate::point::TransitPoint;
use crate::types::{RaptorStopId, StreetNodeId, Time};
use crate::MAX_CANDIDATE_STOPS;

verus! {

/// Combined multimodal route result.
#[derive(Debug, Clone, Copy, PartialEq, Eq, Structural)]
pub struct MultiModalResult {
    /// Total journey time.
    pub travel_time: Time,
    /// Time spent on transit (`None` if walking only).
    pub transit_time: Option<Time>,
    /// Time spent walking.
    pub walking_time: Time,
    /// Number of transfers used.
    pub transfers: usize,
}

/// A transit journey candidate.
#[derive(Debug, Clone, Copy, PartialEq, Eq, Structural)]
pub struct CandidateJourney {
    pub total_time: Time,
    pub transit_time: Time,
    pub transfers_used: usize,
}

/// What one transit search reports about one target stop.
#[derive(Debug, Clone, Copy, PartialEq, Eq, Structural)]
pub struct TargetArrival {
    /// Earliest arrival at the target.
    pub arrival_time: Time,
    /// Transfers used on the way.
    pub transfers_used: usize,
    /// Whether the target was reached at all.
    pub reachable: bool,
}

impl TargetArrival {
    /// Whether the target was reached.
    pub fn is_reachable(&self) -> (r: bool)
        ensures
            r == self.reachable,
    {
        self.reachable
    }
}

/// Checks if direct walking is better than the transit option.
pub fn is_walking_better(walking_time: Option<Time>, transit_candidate: Option<&CandidateJourney>) -> (r: bool)
    ensures
        r == match (walking_time, transit_candidate) {
            (Some(w), Some(c)) => w <= c.total_time,
            (Some(_), None) => true,
            _ => false,
        },
{
    match (walking_time, transit_candidate) {
        (Some(walking), Some(transit)) => walking <= transit.total_time,
        (Some(_), None) => true,
        _ => false,
    }
}

/// The result of a walking-only journey.
pub open spec fn walking_result(walking_time: Time) -> MultiModalResult {
    MultiModalResult { travel_time: walking_time, transit_time: None, walking_time, transfers: 0 }
}

/// The result of a transit journey.
pub open spec fn transit_result(c: CandidateJourney) -> MultiModalResult {
    MultiModalResult {
        travel_time: c.total_time,
        transit_time: Some(c.transit_time),
        walking_time: (c.total_time - c.transit_time) as Time,
        transfers: c.transfers_used,
    }
}

/// Creates a `MultiModalResult` for a walking-only journey.
pub fn create_walking_result(walking_time: Time) -> (r: MultiModalResult)
    ensures
        r == walking_result(walking_time),
{
    MultiModalResult { travel_time: walking_time, transit_time: None, walking_time, transfers: 0 }
}

/// Creates a `MultiModalResult` for a transit journey.
pub fn create_transit_result(candidate: &CandidateJourney) -> (r: MultiModalResult)
    requires
        candidate.transit_time <= candidate.total_time,
    ensures
        r == transit_result(*candidate),
        r.walking_time + candidate.transit_time == candidate.total_time,
{
    let walking_time = candidate.total_time - candidate.transit_time;
    MultiModalResult {
        travel_time: candidate.total_time,
        transit_time: Some(candidate.transit_time),
        walking_time,
        transfers: candidate.transfers_used,
    }
}

/// Wraps a transit search failure as an invalid-data error.
pub fn map_raptor_error(err: RaptorError) -> (r: Error)
    ensures
        r matches Error::InvalidData(DataIssue::Raptor(e)) && e == err,
{
    Error::InvalidData(DataIssue::Raptor(err))
}

/// Total journey time through the pair (access `a`, egress `e`) when the
/// search reached the egress stop.
pub open spec fn pair_total(departure: Time, a: (RaptorStopId, Time), e: (RaptorStopId, Time), o: Option<TargetArrival>) -> Option<int> {
    match o {
        Some(t) => if t.reachable {
            Some(t.arrival_time - departure + e.1)
        } else {
            None
        },
        None => None,
    }
}

/// Total time of candidate pair `(i, j)`.
pub open spec fn total_at(
    departure: Time,
    access: Seq<(RaptorStopId, Time)>,
    egress: Seq<(RaptorStopId, Time)>,
    outcomes: Seq<Seq<Option<TargetArrival>>>,
    i: int,
    j: int,
) -> Option<int> {
    pair_total(departure, access[i], egress[j], outcomes[i][j])
}

/// The journey candidate of pair `(i, j)`.
pub open spec fn candidate_at(
    departure: Time,
    access: Seq<(RaptorStopId, Time)>,
    egress: Seq<(RaptorStopId, Time)>,
    outcomes: Seq<Seq<Option<TargetArrival>>>,
    i: int,
    j: int,
) -> CandidateJourney {
    let t = outcomes[i][j]->Some_0;
    CandidateJourney {
        total_time: (t.arrival_time - departure + egress[j].1) as Time,
        transit_time: (t.arrival_time - (departure + access[i].1)) as Time,
        transfers_used: t.transfers_used,
    }
}

/// `(i2, j2)` comes before `(i, j)` in row-major order.
pub open spec fn lex_before(i2: int, j2: int, i: int, j: int) -> bool {
    i2 < i || (i2 == i && j2 < j)
}

/// `(i, j)` is the first pair, in row-major order, with the least total time.
pub open spec fn is_best_pair(
    departure: Time,
    access: Seq<(RaptorStopId, Time)>,
    egress: Seq<(RaptorStopId, Time)>,
    outcomes: Seq<Seq<Option<TargetArrival>>>,
    i: int,
    j: int,
) -> bool {
    &&& 0 <= i < access.len()
    &&& 0 <= j < egress.len()
    &&& total_at(departure, access, egress, outcomes, i, j) is Some
    &&& forall|i2: int, j2: int|
        0 <= i2 < access.len() && 0 <= j2 < egress.len() && (#[trigger] total_at(departure, access, egress, outcomes, i2, j2)) is Some
            ==> total_at(departure, access, egress, outcomes, i, j)->0 <= total_at(departure, access, egress, outcomes, i2, j2)->0
    &&& forall|i2: int, j2: int|
        0 <= i2 < access.len() && 0 <= j2 < egress.len() && lex_before(i2, j2, i, j) && (#[trigger] total_at(
            departure,
            access,
            egress,
            outcomes,
            i2,
            j2,
        )) is Some ==> total_at(departure, access, egress, outcomes, i, j)->0 < total_at(departure, access, egress, outcomes, i2, j2)->0
}

/// The journey chosen from direct walking and the transit search outcomes:
/// the best transit pair when it is strictly faster than walking, otherwise
/// walking when it is possible, otherwise no journey.
pub open spec fn journey_choice(
    direct_walking: Option<Time>,
    departure: Time,
    access: Seq<(RaptorStopId, Time)>,
    egress: Seq<(RaptorStopId, Time)>,
    outcomes: Seq<Seq<Option<TargetArrival>>>,
) -> Option<MultiModalResult> {
    if exists|i: int, j: int| is_best_pair(departure, access, egress, outcomes, i, j) {
        let (i, j) = choose|i: int, j: int| is_best_pair(departure, access, egress, outcomes, i, j);
        if direct_walking is None || total_at(departure, access, egress, outcomes, i, j)->0 < direct_walking->0 {
            Some(transit_result(candidate_at(departure, access, egress, outcomes, i, j)))
        } else {
            Some(walking_result(direct_walking->0))
        }
    } else {
        match direct_walking {
            Some(w) => Some(walking_result(w)),
            None => None,
        }
    }
}

/// The outcome table has one row per access candidate and one entry per
/// egress candidate, and every reached arrival lies after the departure from
/// its access stop, with its total journey time fitting in `Time`.
pub open spec fn outcomes_fit(
    departure: Time,
    access: Seq<(RaptorStopId, Time)>,
    egress: Seq<(RaptorStopId, Time)>,
    outcomes: Seq<Seq<Option<TargetArrival>>>,
) -> bool {
    &&& outcomes.len() == access.len()
    &&& forall|i: int| 0 <= i < access.len() ==> (#[trigger] outcomes[i]).len() == egress.len()
    &&& forall|i: int, j: int|
        0 <= i < access.len() && 0 <= j < egress.len() && (#[trigger] outcomes[i][j] matches Some(t) && t.reachable)
            ==> {
            let t = outcomes[i][j]->Some_0;
            &&& departure + access[i].1 <= t.arrival_time
            &&& t.arrival_time - departure + egress[j].1 <= Time::MAX
        }
}

/// Two pairs that are both best are the same pair.
pub proof fn lemma_best_pair_unique(
    departure: Time,
    access: Seq<(RaptorStopId, Time)>,
    egress: Seq<(RaptorStopId, Time)>,
    outcomes: Seq<Seq<Option<TargetArrival>>>,
    i: int,
    j: int,
    i2: int,
    j2: int,
)
    requires
        is_best_pair(departure, access, egress, outcomes, i, j),
        is_best_pair(departure, access, egress, outcomes, i2, j2),
    ensures
        i == i2 && j == j2,
{
    let a = total_at(departure, access, egress, outcomes, i, j);
    let b = total_at(departure, access, egress, outcomes, i2, j2);
    if lex_before(i2, j2, i, j) {
        assert(a->0 < b->0);
        assert(b->0 <= a->0);
    } else if lex_before(i, j, i2, j2) {
        assert(b->0 < a->0);
        assert(a->0 <= b->0);
    }
}

/// Multimodal routing never returns a journey slower than walking directly,
/// and returns one whenever walking is possible.
pub proof fn law_never_slower_than_walking(
    direct_walking: Option<Time>,
    departure: Time,
    access: Seq<(RaptorStopId, Time)>,
    egress: Seq<(RaptorStopId, Time)>,
    outcomes: Seq<Seq<Option<TargetArrival>>>,
)
    requires
        direct_walking is Some,
        outcomes_fit(departure, access, egress, outcomes),
    ensures
        journey_choice(direct_walking, departure, access, egress, outcomes) matches Some(r) && r.travel_time <= direct_walking->0,
{
    if exists|i: int, j: int| is_best_pair(departure, access, egress, outcomes, i, j) {
        let (i, j) = choose|i: int, j: int| is_best_pair(departure, access, egress, outcomes, i, j);
        assert(outcomes[i][j] matches Some(t) && t.reachable);
    }
}

/// A transit journey's travel time is its walking time plus its time on
/// transit, and its walking time is the access and egress walks.
pub proof fn law_travel_time_splits(
    direct_walking: Option<Time>,
    departure: Time,
    access: Seq<(RaptorStopId, Time)>,
    egress: Seq<(RaptorStopId, Time)>,
    outcomes: Seq<Seq<Option<TargetArrival>>>,
)
    requires
        outcomes_fit(departure, access, egress, outcomes),
    ensures
        journey_choice(direct_walking, departure, access, egress, outcomes) matches Some(r) ==> match r.transit_time {
            Some(t) => r.walking_time + t == r.travel_time && exists|i: int, j: int|
                is_best_pair(departure, access, egress, outcomes, i, j) && r.walking_time == access[i].1 + egress[j].1,
            None => r.walking_time == r.travel_time && direct_walking == Some(r.travel_time),
        },
{
    if exists|i: int, j: int| is_best_pair(departure, access, egress, outcomes, i, j) {
        let (i, j) = choose|i: int, j: int| is_best_pair(departure, access, egress, outcomes, i, j);
        assert(outcomes[i][j] matches Some(t) && t.reachable);
    }
}

/// The recorded best candidate `(bi, bj)` is at least as fast as a pair of
/// total `v`, and comes first on a tie.
pub open spec fn recorded_beats(best: Option<CandidateJourney>, bi: int, bj: int, v: int, i2: int, j2: int) -> bool {
    &&& best is Some
    &&& best->0.total_time <= v
    &&& best->0.total_time == v ==> !lex_before(i2, j2, bi, bj)
}

/// Chooses between direct walking and the transit pairs searched, given one
/// search outcome per (access, egress) candidate pair (`None` where the
/// search failed). Pairs are examined in row-major order, pruning those that
/// cannot beat walking or the best candidate so far.
pub fn select_journey(
    direct_walking: Option<Time>,
    access: &Vec<(RaptorStopId, Time)>,
    egress: &Vec<(RaptorStopId, Time)>,
    departure_time: Time,
    outcomes: &Vec<Vec<Option<TargetArrival>>>,
) -> (r: Option<MultiModalResult>)
    requires
        outcomes_fit(departure_time, access@, egress@, outcomes@.map_values(|row: Vec<Option<TargetArrival>>| row@)),
    ensures
        r == journey_choice(direct_walking, departure_time, access@, egress@, outcomes@.map_values(|row: Vec<Option<TargetArrival>>| row@)),
{
    let ghost table = outcomes@.map_values(|row: Vec<Option<TargetArrival>>| row@);
    let ghost acc = access@;
    let ghost egr = egress@;
    let mut best: Option<CandidateJourney> = None;
    let ghost mut bi: int = 0;
    let ghost mut bj: int = 0;
    let na = access.len();
    let ne = egress.len();
    let mut i: usize = 0;
    while i < na
        invariant
            na == acc.len(),
            ne == egr.len(),
            i <= na,
            acc == access@,
            egr == egress@,
            table == outcomes@.map_values(|row: Vec<Option<TargetArrival>>| row@),
            outcomes_fit(departure_time, acc, egr, table),
            best matches Some(c) ==> {
                &&& 0 <= bi < na && 0 <= bj < ne && lex_before(bi, bj, i as int, 0)
                &&& total_at(departure_time, acc, egr, table, bi, bj) == Some(c.total_time as int)
                &&& c == candidate_at(departure_time, acc, egr, table, bi, bj)
            },
            forall|i2: int, j2: int|
                0 <= i2 < na && 0 <= j2 < ne && lex_before(i2, j2, i as int, 0) && (#[trigger] total_at(
                    departure_time,
                    acc,
                    egr,
                    table,
                    i2,
                    j2,
                )) is Some && (direct_walking is None || total_at(departure_time, acc, egr, table, i2, j2)->0
                    < direct_walking->0) ==> recorded_beats(best, bi, bj, total_at(departure_time, acc, egr, table, i2, j2)->0, i2, j2),
        decreases na - i,
    {
        let mut j: usize = 0;
        while j < ne
            invariant
                na == acc.len(),
                ne == egr.len(),
                i < na,
                j <= ne,
                acc == access@,
                egr == egress@,
                table == outcomes@.map_values(|row: Vec<Option<TargetArrival>>| row@),
                outcomes_fit(departure_time, acc, egr, table),
                best matches Some(c) ==> {
                    &&& 0 <= bi < na && 0 <= bj < ne && lex_before(bi, bj, i as int, j as int)
                    &&& total_at(departure_time, acc, egr, table, bi, bj) == Some(c.total_time as int)
                    &&& c == candidate_at(departure_time, acc, egr, table, bi, bj)
                },
                forall|i2: int, j2: int|
                    0 <= i2 < na && 0 <= j2 < ne && lex_before(i2, j2, i as int, j as int) && (#[trigger] total_at(
                        departure_time,
                        acc,
                        egr,
                        table,
                        i2,
                        j2,
                    )) is Some && (direct_walking is None || total_at(departure_time, acc, egr, table, i2, j2)->0
                        < direct_walking->0) ==> recorded_beats(best, bi, bj, total_at(departure_time, acc, egr, table, i2, j2)->0, i2, j2),
            decreases ne - j,
        {
            let (_access_stop, access_time) = access[i];
            let (_egress_stop, egress_time) = egress[j];
            let lower_bound: u64 = access_time as u64 + egress_time as u64;
            let pruned_by_walking = match direct_walking {
                Some(walking_time) => lower_bound >= walking_time as u64,
                None => false,
            };
            let pruned_by_best = match best {
                Some(c) => lower_bound >= c.total_time as u64,
                None => false,
            };
            proof {
                assert(table[i as int] == outcomes@[i as int]@);
                if total_at(departure_time, acc, egr, table, i as int, j as int) is Some {
                    assert(table[i as int][j as int] matches Some(t) && t.reachable);
                }
            }
            if !pruned_by_walking && !pruned_by_best {
                if let Some(target) = outcomes[i][j] {
                    if target.is_reachable() {
                        let transit_time = target.arrival_time - (departure_time + access_time);
                        let total_time = access_time + transit_time + egress_time;
                        let candidate = CandidateJourney {
                            total_time,
                            transit_time,
                            transfers_used: target.transfers_used,
                        };
                        let better = match best {
                            Some(b) => candidate.total_time < b.total_time,
                            None => true,
                        };
                        if better {
                            best = Some(candidate);
                            proof {
                                bi = i as int;
                                bj = j as int;
                            }
                        }
                    }
                }
            }
            j += 1;
        }
        i += 1;
    }
    proof {
        let w = direct_walking;
        if exists|i2: int, j2: int| is_best_pair(departure_time, acc, egr, table, i2, j2) {
            let (ci, cj) = choose|i2: int, j2: int| is_best_pair(departure_time, acc, egr, table, i2, j2);
            let m = total_at(departure_time, acc, egr, table, ci, cj)->0;
            if w is None || m < w->0 {
                let c = best->0;
                assert(best is Some);
                assert(c.total_time <= m);
                assert(is_best_pair(departure_time, acc, egr, table, bi, bj)) by {
                    assert forall|i2: int, j2: int|
                        0 <= i2 < na && 0 <= j2 < ne && (#[trigger] total_at(departure_time, acc, egr, table, i2, j2)) is Some
                            implies c.total_time <= total_at(departure_time, acc, egr, table, i2, j2)->0 by {
                        assert(m <= total_at(departure_time, acc, egr, table, i2, j2)->0);
                    }
                    assert forall|i2: int, j2: int|
                        0 <= i2 < na && 0 <= j2 < ne && lex_before(i2, j2, bi, bj) && (#[trigger] total_at(
                            departure_time,
                            acc,
                            egr,
                            table,
                            i2,
                            j2,
                        )) is Some implies c.total_time < total_at(departure_time, acc, egr, table, i2, j2)->0 by {
                        assert(lex_before(i2, j2, na as int, 0));
                        assert(m <= total_at(departure_time, acc, egr, table, i2, j2)->0);
                    }
                }
                lemma_best_pair_unique(departure_time, acc, egr, table, bi, bj, ci, cj);
            } else {
                if best is Some {
                    assert(m <= best->0.total_time);
                }
            }
        } else {
            if best is Some {
                let c = best->0;
                if w is None || (c.total_time as int) < w->0 {
                    // The recorded candidate would be a best pair.
                    assert(false) by {
                        assert forall|i2: int, j2: int|
                            0 <= i2 < na && 0 <= j2 < ne && (#[trigger] total_at(departure_time, acc, egr, table, i2, j2)) is Some
                                implies c.total_time <= total_at(departure_time, acc, egr, table, i2, j2)->0 by {
                            assert(lex_before(i2, j2, na as int, 0));
                        }
                        assert forall|i2: int, j2: int|
                            0 <= i2 < na && 0 <= j2 < ne && lex_before(i2, j2, bi, bj) && (#[trigger] total_at(
                                departure_time,
                                acc,
                                egr,
                                table,
                                i2,
                                j2,
                            )) is Some implies c.total_time < total_at(departure_time, acc, egr, table, i2, j2)->0 by {
                            assert(lex_before(i2, j2, na as int, 0));
                        }
                        assert(is_best_pair(departure_time, acc, egr, table, bi, bj));
                    }
                }
            }
        }
    }
    if let Some(candidate) = best {
        if !is_walking_better(direct_walking, Some(&candidate)) {
            return Some(create_transit_result(&candidate));
        }
    }
    if let Some(walking_time) = direct_walking {
        return Some(create_walking_result(walking_time));
    }
    None
}

} // verus!

verus! {

/// The candidates actually searched: the first `MAX_CANDIDATE_STOPS` of a
/// nearest-stops list.
pub open spec fn leading_candidates(s: Seq<(RaptorStopId, Time)>) -> Seq<(RaptorStopId, Time)> {
    if s.len() <= MAX_CANDIDATE_STOPS {
        s
    } else {
        s.take(MAX_CANDIDATE_STOPS as int)
    }
}

/// The first `MAX_CANDIDATE_STOPS` entries of a nearest-stops list.
pub fn leading_candidates_of(s: &Vec<(RaptorStopId, Time)>) -> (r: Vec<(RaptorStopId, Time)>)
    ensures
        r@ == leading_candidates(s@),
{
    let n = if s.len() <= MAX_CANDIDATE_STOPS {
        s.len()
    } else {
        MAX_CANDIDATE_STOPS
    };
    let mut r: Vec<(RaptorStopId, Time)> = Vec::new();
    let mut i: usize = 0;
    while i < n
        invariant
            n <= s@.len(),
            n == leading_candidates(s@).len(),
            i <= n,
            r@ == s@.take(i as int),
        decreases n - i,
    {
        r.push(s[i]);
        i += 1;
        assert(r@ =~= s@.take(i as int));
    }
    assert(r@ =~= leading_candidates(s@));
    r
}

/// An element-wise copy of a list of `(stop, seconds)` pairs.
pub fn copy_pairs(v: &Vec<(RaptorStopId, Time)>) -> (r: Vec<(RaptorStopId, Time)>)
    ensures
        r@ == v@,
{
    let mut r: Vec<(RaptorStopId, Time)> = Vec::new();
    let mut i: usize = 0;
    while i < v.len()
        invariant
            i <= v@.len(),
            r@ == v@.take(i as int),
        decreases v@.len() - i,
    {
        r.push(v[i]);
        i += 1;
        assert(r@ =~= v@.take(i as int));
    }
    assert(v@.take(i as int) =~= v@);
    r
}

/// An element-wise copy of an arrival table.
fn copy_arrivals(v: &Vec<TargetArrival>) -> (r: Vec<TargetArrival>)
    ensures
        r@ == v@,
{
    let mut r: Vec<TargetArrival> = Vec::new();
    let mut i: usize = 0;
    while i < v.len()
        invariant
            i <= v@.len(),
            r@ == v@.take(i as int),
        decreases v@.len() - i,
    {
        r.push(v[i]);
        i += 1;
        assert(r@ =~= v@.take(i as int));
    }
    assert(v@.take(i as int) =~= v@);
    r
}

/// Latest accepted departure time: two days after midnight.
pub const MAX_DEPARTURE_TIME: Time = 172800;

/// Multimodal routing from one point to another. `pair_outcomes[i][j]` is
/// what the transit search from access candidate `i` of `start_point`,
/// leaving at `departure_time` plus its access time, reports about egress
/// candidate `j` of `end_point` (`None` where the search failed). Departures
/// more than two days after midnight are refused.
pub fn multimodal_routing(
    start_point: &TransitPoint,
    end_point: &TransitPoint,
    departure_time: Time,
    pair_outcomes: &Vec<Vec<Option<TargetArrival>>>,
) -> (r: Result<Option<MultiModalResult>, Error>)
    requires
        departure_time <= MAX_DEPARTURE_TIME ==> outcomes_fit(
            departure_time,
            leading_candidates(start_point.nearest_stops@),
            leading_candidates(end_point.nearest_stops@),
            pair_outcomes@.map_values(|row: Vec<Option<TargetArrival>>| row@),
        ),
    ensures
        departure_time > MAX_DEPARTURE_TIME ==> (r matches Err(Error::InvalidData(DataIssue::InvalidDepartureTime { departure }))
            && departure == departure_time),
        departure_time <= MAX_DEPARTURE_TIME ==> r == Ok::<Option<MultiModalResult>, Error>(
            journey_choice(
                start_point.walking_time_to_spec(end_point),
                departure_time,
                leading_candidates(start_point.nearest_stops@),
                leading_candidates(end_point.nearest_stops@),
                pair_outcomes@.map_values(|row: Vec<Option<TargetArrival>>| row@),
            ),
        ),
{
    if departure_time > MAX_DEPARTURE_TIME {
        return Err(Error::InvalidData(DataIssue::InvalidDepartureTime { departure: departure_time }));
    }
    let direct_walking = start_point.walking_time_to(end_point);
    let access = leading_candidates_of(&start_point.nearest_stops);
    let egress = leading_candidates_of(&end_point.nearest_stops);
    Ok(select_journey(direct_walking, &access, &egress, departure_time, pair_outcomes))
}

/// Everything one-to-many routing reads off a destination.
pub trait RoutingTarget {
    /// The street network node this destination snapped to.
    spec fn target_node_spec(&self) -> StreetNodeId;

    /// Direct walking cost from an origin.
    spec fn direct_walking_spec(&self, origin: &TransitPoint) -> Option<Time>;

    /// Nearby stops to alight at, as `(stop, walking seconds)`, nearest first.
    spec fn egress_spec(&self) -> Seq<(RaptorStopId, Time)>;

    /// The street network node this destination snapped to.
    fn target_node(&self) -> (r: StreetNodeId)
        ensures
            r == self.target_node_spec(),
    ;

    /// Direct walking cost from an origin.
    fn direct_walking_from(&self, origin: &TransitPoint) -> (r: Option<Time>)
        ensures
            r == self.direct_walking_spec(origin),
    ;

    /// Nearby stops to alight at, nearest first.
    fn egress_stops(&self) -> (r: Vec<(RaptorStopId, Time)>)
        ensures
            r@ == self.egress_spec(),
    ;
}

impl RoutingTarget for TransitPoint {
    open spec fn target_node_spec(&self) -> StreetNodeId {
        self.node_id
    }

    open spec fn direct_walking_spec(&self, origin: &TransitPoint) -> Option<Time> {
        origin.walking_time_to_spec(self)
    }

    open spec fn egress_spec(&self) -> Seq<(RaptorStopId, Time)> {
        self.nearest_stops@
    }

    fn target_node(&self) -> (r: StreetNodeId) {
        self.node_id
    }

    fn direct_walking_from(&self, origin: &TransitPoint) -> (r: Option<Time>) {
        origin.walking_time_to(self)
    }

    fn egress_stops(&self) -> (r: Vec<(RaptorStopId, Time)>) {
        copy_pairs(&self.nearest_stops)
    }
}

/// The outcome table of one destination: access candidate `i` against the
/// destination's egress stop `j`, read from search `i`'s arrival table.
pub open spec fn target_table(
    arrivals: Seq<Seq<TargetArrival>>,
    egress: Seq<(RaptorStopId, Time)>,
) -> Seq<Seq<Option<TargetArrival>>> {
    arrivals.map_values(|row: Seq<TargetArrival>| egress.map_values(|e: (RaptorStopId, Time)| Some(row[e.0 as int])))
}

/// Every egress stop indexes into every arrival table, and the resulting
/// outcome table fits (see [`outcomes_fit`]).
pub open spec fn arrivals_fit<T: RoutingTarget>(
    departure: Time,
    access: Seq<(RaptorStopId, Time)>,
    target: T,
    arrivals: Seq<Seq<TargetArrival>>,
) -> bool {
    &&& forall|i: int, j: int|
        0 <= i < arrivals.len() && 0 <= j < target.egress_spec().len() ==> (#[trigger] target.egress_spec()[j]).0
            < (#[trigger] arrivals[i]).len()
    &&& outcomes_fit(departure, access, target.egress_spec(), target_table(arrivals, target.egress_spec()))
}

/// Builds the outcome table of one destination.
fn build_target_table(arrivals: &Vec<Vec<TargetArrival>>, egress: &Vec<(RaptorStopId, Time)>) -> (r: Vec<Vec<Option<TargetArrival>>>)
    requires
        forall|i: int, j: int| 0 <= i < arrivals@.len() && 0 <= j < egress@.len() ==> (#[trigger] egress@[j]).0 < (#[trigger] arrivals@[i])@.len(),
    ensures
        r@.map_values(|row: Vec<Option<TargetArrival>>| row@) == target_table(
            arrivals@.map_values(|row: Vec<TargetArrival>| row@),
            egress@,
        ),
{
    let ghost arr = arrivals@.map_values(|row: Vec<TargetArrival>| row@);
    let mut table: Vec<Vec<Option<TargetArrival>>> = Vec::new();
    let mut i: usize = 0;
    while i < arrivals.len()
        invariant
            i <= arrivals@.len(),
            arr == arrivals@.map_values(|row: Vec<TargetArrival>| row@),
            forall|i: int, j: int| 0 <= i < arrivals@.len() && 0 <= j < egress@.len() ==> (#[trigger] egress@[j]).0 < (#[trigger] arrivals@[i])@.len(),
            table@.len() == i,
            forall|k: int| 0 <= k < i ==> (#[trigger] table@[k])@ == egress@.map_values(|e: (RaptorStopId, Time)| Some(arr[k][e.0 as int])),
        decreases arrivals@.len() - i,
    {
        let mut row: Vec<Option<TargetArrival>> = Vec::new();
        let mut j: usize = 0;
        while j < egress.len()
            invariant
                i < arrivals@.len(),
                j <= egress@.len(),
                arr == arrivals@.map_values(|row: Vec<TargetArrival>| row@),
                forall|i: int, j: int| 0 <= i < arrivals@.len() && 0 <= j < egress@.len() ==> (#[trigger] egress@[j]).0 < (#[trigger] arrivals@[i])@.len(),
                row@ == egress@.take(j as int).map_values(|e: (RaptorStopId, Time)| Some(arr[i as int][e.0 as int])),
            decreases egress@.len() - j,
        {
            let stop = egress[j].0;
            assert(stop < arrivals@[i as int]@.len());
            row.push(Some(arrivals[i][stop]));
            j += 1;
            assert(row@ =~= egress@.take(j as int).map_values(|e: (RaptorStopId, Time)| Some(arr[i as int][e.0 as int])));
        }
        assert(egress@.take(j as int) =~= egress@);
        table.push(row);
        i += 1;
    }
    assert(table@.map_values(|row: Vec<Option<TargetArrival>>| row@) =~= target_table(arr, egress@));
    table
}

/// Routing from one point to many. `searches[i]` is the all-stops transit
/// search from access candidate `i` of `start_point` (leaving at
/// `departure_time` plus its access time); the first failed search fails the
/// whole call. Each destination is then decided as in [`select_journey`],
/// over all of its egress stops.
pub fn multimodal_routing_one_to_many<T: RoutingTarget>(
    start_point: &TransitPoint,
    end_points: &[T],
    departure_time: Time,
    searches: &Vec<Result<Vec<TargetArrival>, RaptorError>>,
) -> (r: Result<Vec<Option<MultiModalResult>>, Error>)
    requires
        searches@.len() == leading_candidates(start_point.nearest_stops@).len(),
        (forall|i: int| 0 <= i < searches@.len() ==> (#[trigger] searches@[i]) is Ok) ==> forall|k: int|
            0 <= k < end_points@.len() ==> arrivals_fit(
                departure_time,
                leading_candidates(start_point.nearest_stops@),
                #[trigger] end_points@[k],
                searches@.map_values(|s: Result<Vec<TargetArrival>, RaptorError>| s->Ok_0@),
            ),
    ensures
        (exists|i: int| 0 <= i < searches@.len() && (#[trigger] searches@[i]) is Err) ==> (r matches Err(Error::InvalidData(DataIssue::Raptor(e)))
            && exists|i: int| 0 <= i < searches@.len() && (#[trigger] searches@[i]) is Err && searches@[i]->Err_0 == e && (forall|i2: int| 0 <= i2 < i ==> (#[trigger] searches@[i2]) is Ok)),
        (forall|i: int| 0 <= i < searches@.len() ==> (#[trigger] searches@[i]) is Ok) ==> (r matches Ok(results) && results@.len()
            == end_points@.len() && forall|k: int|
            0 <= k < end_points@.len() ==> #[trigger] results@[k] == journey_choice(
                end_points@[k].direct_walking_spec(start_point),
                departure_time,
                leading_candidates(start_point.nearest_stops@),
                end_points@[k].egress_spec(),
                target_table(
                    searches@.map_values(|s: Result<Vec<TargetArrival>, RaptorError>| s->Ok_0@),
                    end_points@[k].egress_spec(),
                ),
            )),
{
    let access = leading_candidates_of(&start_point.nearest_stops);
    let mut arrivals: Vec<Vec<TargetArrival>> = Vec::new();
    let mut i: usize = 0;
    while i < searches.len()
        invariant
            i <= searches@.len(),
            arrivals@.len() == i,
            forall|k: int| 0 <= k < i ==> (#[trigger] searches@[k]) is Ok && arrivals@[k]@ == searches@[k]->Ok_0@,
        decreases searches@.len() - i,
    {
        match &searches[i] {
            Ok(times) => {
                arrivals.push(copy_arrivals(times));
                proof {
                    assert(arrivals@[i as int]@ == times@);
                }
            },
            Err(e) => {
                let err = RaptorError { description: e.description.clone() };
                return Err(map_raptor_error(err));
            },
        }
        i += 1;
    }
    let ghost arr = arrivals@.map_values(|row: Vec<TargetArrival>| row@);
    assert(arr =~= searches@.map_values(|s: Result<Vec<TargetArrival>, RaptorError>| s->Ok_0@));
    let mut results: Vec<Option<MultiModalResult>> = Vec::new();
    let mut k: usize = 0;
    while k < end_points.len()
        invariant
            k <= end_points@.len(),
            results@.len() == k,
            access@ == leading_candidates(start_point.nearest_stops@),
            arr == arrivals@.map_values(|row: Vec<TargetArrival>| row@),
            arr == searches@.map_values(|s: Result<Vec<TargetArrival>, RaptorError>| s->Ok_0@),
            forall|i: int| 0 <= i < searches@.len() ==> (#[trigger] searches@[i]) is Ok,
            forall|k: int|
                0 <= k < end_points@.len() ==> arrivals_fit(
                    departure_time,
                    leading_candidates(start_point.nearest_stops@),
                    #[trigger] end_points@[k],
                    searches@.map_values(|s: Result<Vec<TargetArrival>, RaptorError>| s->Ok_0@),
                ),
            forall|m: int|
                0 <= m < k ==> #[trigger] results@[m] == journey_choice(
                    end_points@[m].direct_walking_spec(start_point),
                    departure_time,
                    leading_candidates(start_point.nearest_stops@),
                    end_points@[m].egress_spec(),
                    target_table(arr, end_points@[m].egress_spec()),
                ),
        decreases end_points@.len() - k,
    {
        let end_point = &end_points[k];
        let direct_walking = end_point.direct_walking_from(start_point);
        let egress = end_point.egress_stops();
        proof {
            assert(arrivals_fit(departure_time, access@, end_points@[k as int], arr));
            assert forall|i: int, j: int| 0 <= i < arrivals@.len() && 0 <= j < egress@.len() implies (#[trigger] egress@[j]).0
                < (#[trigger] arrivals@[i])@.len() by {
                assert(arr[i] == arrivals@[i]@);
                assert(egress@[j] == end_points@[k as int].egress_spec()[j]);
            }
        }
        let table = build_target_table(&arrivals, &egress);
        let choice = select_journey(direct_walking, &access, &egress, departure_time, &table);
        results.push(choice);
        k += 1;
    }
    Ok(results)
}

} // verus!
