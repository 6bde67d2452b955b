//! Traced routing: choosing the journey whose legs are then described in
//! detail, with candidate pairs pruned in order of walking time.
use vstd::prelude::*;

use crate::error::Error;
use crate::point::TransitPoint;
use crate::routing::{leading_candidates, leading_candidates_of, lex_before};
use crate::types::{RaptorStopId, Time};

verus! {

/// What a traced transit search found for one (access, egress) pair: the
/// journey's departure from the access stop and arrival at the egress stop.
#[derive(Debug, Clone, Copy, PartialEq, Eq, Structural)]
pub struct TracedLeg {
    pub departure_time: Time,
    pub arrival_time: Time,
}

/// The journey chosen by traced routing.
#[derive(Debug, Clone, Copy, PartialEq, Eq, Structural)]
pub enum TracedChoice {
    /// Walk the whole way.
    Walking { walking_time: Time },
    /// Walk to `access_stop`, ride the traced journey, walk from `egress_stop`.
    Transit {
        access_stop: RaptorStopId,
        egress_stop: RaptorStopId,
        access_time: Time,
        egress_time: Time,
        journey: TracedLeg,
        total_time: Time,
    },
}

impl TracedChoice {
    /// Door-to-door travel time of the chosen journey.
    pub open spec fn total_time_spec(self) -> Time {
        match self {
            TracedChoice::Walking { walking_time } => walking_time,
            TracedChoice::Transit { total_time, .. } => total_time,
        }
    }

    /// Door-to-door travel time of the chosen journey.
    pub fn total_time(&self) -> (r: Time)
        ensures
            r == self.total_time_spec(),
    {
        match self {
            TracedChoice::Walking { walking_time } => *walking_time,
            TracedChoice::Transit { total_time, .. } => *total_time,
        }
    }
}

/// Door-to-door time through a pair: access walk, ride, egress walk, each
/// sum saturating at `Time::MAX`, the ride never shorter than zero.
pub open spec fn traced_total(access_time: Time, egress_time: Time, leg: TracedLeg) -> Time {
    access_time.saturating_add(leg.arrival_time.saturating_sub(leg.departure_time)).saturating_add(egress_time)
}

/// Total time of pair `(i, j)`: `None` where the search found no journey,
/// or where the two walks alone already reach `Time::MAX` (such a pair can
/// never beat anything and is never searched).
pub open spec fn traced_total_at(
    access: Seq<(RaptorStopId, Time)>,
    egress: Seq<(RaptorStopId, Time)>,
    legs: Seq<Seq<Option<TracedLeg>>>,
    i: int,
    j: int,
) -> Option<Time> {
    if access[i].1 + egress[j].1 >= Time::MAX {
        None
    } else {
        match legs[i][j] {
            Some(leg) => Some(traced_total(access[i].1, egress[j].1, leg)),
            None => None,
        }
    }
}

/// `(i, j)` is the first pair, in row-major order, with the least total.
pub open spec fn traced_best(
    access: Seq<(RaptorStopId, Time)>,
    egress: Seq<(RaptorStopId, Time)>,
    legs: Seq<Seq<Option<TracedLeg>>>,
    i: int,
    j: int,
) -> bool {
    &&& 0 <= i < access.len()
    &&& 0 <= j < egress.len()
    &&& traced_total_at(access, egress, legs, i, j) is Some
    &&& forall|i2: int, j2: int|
        0 <= i2 < access.len() && 0 <= j2 < egress.len() && (#[trigger] traced_total_at(access, egress, legs, i2, j2)) is Some
            ==> traced_total_at(access, egress, legs, i, j)->0 <= traced_total_at(access, egress, legs, i2, j2)->0
    &&& forall|i2: int, j2: int|
        0 <= i2 < access.len() && 0 <= j2 < egress.len() && lex_before(i2, j2, i, j) && (#[trigger] traced_total_at(
            access,
            egress,
            legs,
            i2,
            j2,
        )) is Some ==> traced_total_at(access, egress, legs, i, j)->0 < traced_total_at(access, egress, legs, i2, j2)->0
}

/// The traced journey chosen: the best pair when it is strictly faster than
/// direct walking, otherwise walking when it is possible, otherwise none.
pub open spec fn traced_choice(
    direct_walking: Option<Time>,
    access: Seq<(RaptorStopId, Time)>,
    egress: Seq<(RaptorStopId, Time)>,
    legs: Seq<Seq<Option<TracedLeg>>>,
) -> Option<TracedChoice> {
    if exists|i: int, j: int| traced_best(access, egress, legs, i, j) {
        let (i, j) = choose|i: int, j: int| traced_best(access, egress, legs, i, j);
        let total = traced_total_at(access, egress, legs, i, j)->0;
        if direct_walking is None || total < direct_walking->0 {
            Some(
                TracedChoice::Transit {
                    access_stop: access[i].0,
                    egress_stop: egress[j].0,
                    access_time: access[i].1,
                    egress_time: egress[j].1,
                    journey: legs[i][j]->0,
                    total_time: total,
                },
            )
        } else {
            Some(TracedChoice::Walking { walking_time: direct_walking->0 })
        }
    } else {
        match direct_walking {
            Some(w) => Some(TracedChoice::Walking { walking_time: w }),
            None => None,
        }
    }
}

/// Candidates are listed in nondecreasing walking time.
pub open spec fn by_walking_time(s: Seq<(RaptorStopId, Time)>) -> bool {
    forall|a: int, b: int| 0 <= a <= b < s.len() ==> #[trigger] s[a].1 <= #[trigger] s[b].1
}

/// One traced search outcome per (access, egress) pair.
pub open spec fn legs_fit(
    access: Seq<(RaptorStopId, Time)>,
    egress: Seq<(RaptorStopId, Time)>,
    legs: Seq<Seq<Option<TracedLeg>>>,
) -> bool {
    &&& legs.len() == access.len()
    &&& forall|i: int| 0 <= i < access.len() ==> (#[trigger] legs[i]).len() == egress.len()
}

/// Each traced leg leaves its access stop no earlier than the departure
/// plus the walk to that stop, as a search started then would find it.
pub open spec fn legs_depart_after(
    departure: Time,
    access: Seq<(RaptorStopId, Time)>,
    egress: Seq<(RaptorStopId, Time)>,
    legs: Seq<Seq<Option<TracedLeg>>>,
) -> bool {
    forall|i: int, j: int|
        0 <= i < access.len() && 0 <= j < egress.len() && #[trigger] legs[i][j] is Some ==> departure + access[i].1
            <= legs[i][j]->Some_0.departure_time
}

/// Two best pairs are the same pair.
proof fn lemma_traced_best_unique(
    access: Seq<(RaptorStopId, Time)>,
    egress: Seq<(RaptorStopId, Time)>,
    legs: Seq<Seq<Option<TracedLeg>>>,
    i: int,
    j: int,
    i2: int,
    j2: int,
)
    requires
        traced_best(access, egress, legs, i, j),
        traced_best(access, egress, legs, i2, j2),
    ensures
        i == i2 && j == j2,
{
    let a = traced_total_at(access, egress, legs, i, j);
    let b = traced_total_at(access, egress, legs, i2, j2);
    if lex_before(i2, j2, i, j) {
        assert(a->0 < b->0);
        assert(b->0 <= a->0);
    } else if lex_before(i, j, i2, j2) {
        assert(b->0 < a->0);
        assert(a->0 <= b->0);
    }
}

/// The best pair found so far.
#[derive(Debug, Clone, Copy, PartialEq, Eq, Structural)]
pub struct BestPair {
    pub access_index: usize,
    pub egress_index: usize,
    pub total: Time,
}

/// The best pair recorded so far is at least as fast as a
/// pair `(i2, j2)` of total `v`, and comes first on a tie.
pub open spec fn best_covers(best: Option<BestPair>, v: Time, i2: int, j2: int) -> bool {
    &&& best is Some
    &&& best->Some_0.total <= v
    &&& best->Some_0.total == v ==> !lex_before(i2, j2, best->Some_0.access_index as int, best->Some_0.egress_index as int)
}

/// Pair `(i, j)` can no longer change the choice: it has no journey, or the
/// best pair so far or direct walking is at least as fast.
pub open spec fn pair_settled(
    direct_walking: Option<Time>,
    access: Seq<(RaptorStopId, Time)>,
    egress: Seq<(RaptorStopId, Time)>,
    legs: Seq<Seq<Option<TracedLeg>>>,
    best: Option<BestPair>,
    i: int,
    j: int,
) -> bool {
    traced_total_at(access, egress, legs, i, j) matches Some(v) ==> (best_covers(best, v, i, j) || (direct_walking
        matches Some(w) && w <= v))
}

/// The recorded best pair is a real pair with that total.
pub open spec fn best_recorded(
    access: Seq<(RaptorStopId, Time)>,
    egress: Seq<(RaptorStopId, Time)>,
    legs: Seq<Seq<Option<TracedLeg>>>,
    best: Option<BestPair>,
) -> bool {
    best matches Some(b) ==> {
        &&& b.access_index < access.len() && b.egress_index < egress.len()
        &&& traced_total_at(access, egress, legs, b.access_index as int, b.egress_index as int) == Some(b.total)
    }
}

/// The walks alone bound a pair's total from below.
proof fn lemma_walks_bound_total(a: Time, e: Time, leg: TracedLeg)
    ensures
        a.saturating_add(e) <= traced_total(a, e, leg),
{
}

/// The pruning bound: the best total so far and direct walking, each
/// `Time::MAX` when absent, whichever is smaller.
pub open spec fn prune_bound(direct_walking: Option<Time>, best: Option<BestPair>) -> Time {
    let b = match best {
        Some(b) => b.total,
        None => Time::MAX,
    };
    let w = match direct_walking {
        Some(w) => w,
        None => Time::MAX,
    };
    if b <= w {
        b
    } else {
        w
    }
}

/// A pair whose walks alone reach the pruning bound is settled, and stays
/// settled.
proof fn lemma_pruned_pair_settled(
    direct_walking: Option<Time>,
    access: Seq<(RaptorStopId, Time)>,
    egress: Seq<(RaptorStopId, Time)>,
    legs: Seq<Seq<Option<TracedLeg>>>,
    best: Option<BestPair>,
    i: int,
    j: int,
    i0: int,
    j0: int,
)
    requires
        0 <= i < access.len(),
        0 <= j < egress.len(),
        legs_fit(access, egress, legs),
        access[i].1.saturating_add(egress[j].1) >= prune_bound(direct_walking, best),
        best matches Some(b) ==> lex_before(b.access_index as int, b.egress_index as int, i0, j0) || (b.access_index == i0 && b.egress_index == j0),
        !lex_before(i, j, i0, j0),
    ensures
        pair_settled(direct_walking, access, egress, legs, best, i, j),
{
    if let Some(v) = traced_total_at(access, egress, legs, i, j) {
        lemma_walks_bound_total(access[i].1, egress[j].1, legs[i][j]->0);
    }
}

/// Chooses the traced journey from direct walking and one traced search
/// outcome per candidate pair (`None` where the search found no journey).
/// Both candidate lists are sorted by walking time; pairs are examined in
/// row-major order and the rest of a row, or all remaining rows, are skipped
/// as soon as the walks alone reach the best total so far or direct walking.
pub fn select_traced_journey(
    direct_walking: Option<Time>,
    access: &Vec<(RaptorStopId, Time)>,
    egress: &Vec<(RaptorStopId, Time)>,
    legs: &Vec<Vec<Option<TracedLeg>>>,
) -> (r: Option<TracedChoice>)
    requires
        by_walking_time(access@),
        by_walking_time(egress@),
        legs_fit(access@, egress@, legs@.map_values(|row: Vec<Option<TracedLeg>>| row@)),
    ensures
        r == traced_choice(direct_walking, access@, egress@, legs@.map_values(|row: Vec<Option<TracedLeg>>| row@)),
{
    let ghost table = legs@.map_values(|row: Vec<Option<TracedLeg>>| row@);
    let ghost acc = access@;
    let ghost egr = egress@;
    let na = access.len();
    let ne = egress.len();
    let min_egress_time: Time = if ne > 0 {
        egress[0].1
    } else {
        Time::MAX
    };
    let mut best: Option<BestPair> = None;
    let mut stopped = false;
    let mut i: usize = 0;
    while i < na && !stopped
        invariant
            na == acc.len(),
            ne == egr.len(),
            i <= na,
            acc == access@,
            egr == egress@,
            table == legs@.map_values(|row: Vec<Option<TracedLeg>>| row@),
            legs_fit(acc, egr, table),
            by_walking_time(acc),
            by_walking_time(egr),
            ne > 0 ==> min_egress_time == egr[0].1,
            best_recorded(acc, egr, table, best),
            best matches Some(b) ==> lex_before(b.access_index as int, b.egress_index as int, i as int, 0),
            forall|i2: int, j2: int|
                0 <= i2 < na && 0 <= j2 < ne && (i2 < i || stopped) ==> #[trigger] pair_settled(
                    direct_walking,
                    acc,
                    egr,
                    table,
                    best,
                    i2,
                    j2,
                ),
        decreases na - i + if stopped { 0int } else { 1int },
    {
        let access_time = access[i].1;
        let bound = prune_bound_of(direct_walking, best);
        if access_time.saturating_add(min_egress_time) >= bound {
            proof {
                assert forall|i2: int, j2: int| 0 <= i2 < na && 0 <= j2 < ne implies #[trigger] pair_settled(
                    direct_walking,
                    acc,
                    egr,
                    table,
                    best,
                    i2,
                    j2,
                ) by {
                    if i2 >= i {
                        assert(acc[i as int].1 <= acc[i2].1);
                        assert(egr[0].1 <= egr[j2].1);
                        lemma_pruned_pair_settled(direct_walking, acc, egr, table, best, i2, j2, i as int, 0);
                    }
                }
            }
            stopped = true;
        } else {
            let mut row_stopped = false;
            let mut j: usize = 0;
            while j < ne && !row_stopped
                invariant
                    na == acc.len(),
                    ne == egr.len(),
                    i < na,
                    j <= ne,
                    acc == access@,
                    egr == egress@,
                    access_time == acc[i as int].1,
                    table == legs@.map_values(|row: Vec<Option<TracedLeg>>| row@),
                    legs_fit(acc, egr, table),
                    by_walking_time(acc),
                    by_walking_time(egr),
                    best_recorded(acc, egr, table, best),
                    best matches Some(b) ==> lex_before(b.access_index as int, b.egress_index as int, i as int, j as int),
                    forall|i2: int, j2: int|
                        0 <= i2 < na && 0 <= j2 < ne && (lex_before(i2, j2, i as int, j as int) || (i2 == i
                            && row_stopped)) ==> #[trigger] pair_settled(direct_walking, acc, egr, table, best, i2, j2),
                decreases ne - j + if row_stopped { 0int } else { 1int },
            {
                let egress_time = egress[j].1;
                let bound = prune_bound_of(direct_walking, best);
                if access_time.saturating_add(egress_time) >= bound {
                    proof {
                        assert forall|j2: int| 0 <= j2 < ne && j2 >= j implies #[trigger] pair_settled(
                            direct_walking,
                            acc,
                            egr,
                            table,
                            best,
                            i as int,
                            j2,
                        ) by {
                            assert(egr[j as int].1 <= egr[j2].1);
                            lemma_pruned_pair_settled(direct_walking, acc, egr, table, best, i as int, j2, i as int, j as int);
                        }
                    }
                    row_stopped = true;
                } else {
                    let ghost old_best = best;
                    proof {
                        assert(table[i as int] == legs@[i as int]@);
                    }
                    if let Some(leg) = legs[i][j] {
                        let transit_time = leg.arrival_time.saturating_sub(leg.departure_time);
                        let total = access_time.saturating_add(transit_time).saturating_add(egress_time);
                        let better = match best {
                            Some(b) => total < b.total,
                            None => true,
                        };
                        if better {
                            best = Some(BestPair { access_index: i, egress_index: j, total });
                        }
                    }
                    proof {
                        assert(access_time + egress_time < Time::MAX);
                        assert forall|i2: int, j2: int|
                            0 <= i2 < na && 0 <= j2 < ne && lex_before(i2, j2, i as int, j + 1) implies #[trigger] pair_settled(
                            direct_walking,
                            acc,
                            egr,
                            table,
                            best,
                            i2,
                            j2,
                        ) by {
                            if lex_before(i2, j2, i as int, j as int) {
                                assert(pair_settled(direct_walking, acc, egr, table, old_best, i2, j2));
                            }
                        }
                    }
                    j += 1;
                }
            }
            proof {
                assert forall|i2: int, j2: int| 0 <= i2 < na && 0 <= j2 < ne && i2 < i + 1 implies #[trigger] pair_settled(
                    direct_walking,
                    acc,
                    egr,
                    table,
                    best,
                    i2,
                    j2,
                ) by {
                    if i2 == i && !row_stopped {
                        assert(lex_before(i2, j2, i as int, j as int));
                    }
                    if i2 < i {
                        assert(lex_before(i2, j2, i as int, j as int));
                    }
                }
            }
            i += 1;
        }
    }
    proof {
        assert forall|i2: int, j2: int| 0 <= i2 < na && 0 <= j2 < ne implies #[trigger] pair_settled(
            direct_walking,
            acc,
            egr,
            table,
            best,
            i2,
            j2,
        ) by {}
        lemma_settled_choice(direct_walking, acc, egr, table, best);
    }
    if let Some(w) = direct_walking {
        let walking_wins = match best {
            Some(b) => w <= b.total,
            None => true,
        };
        if walking_wins {
            return Some(TracedChoice::Walking { walking_time: w });
        }
    }
    match best {
        Some(b) => {
            let bi = b.access_index;
            let bj = b.egress_index;
            let total = b.total;
            proof {
                assert(table[bi as int] == legs@[bi as int]@);
            }
            let journey = match legs[bi][bj] {
                Some(leg) => leg,
                None => TracedLeg { departure_time: 0, arrival_time: 0 },
            };
            Some(
                TracedChoice::Transit {
                    access_stop: access[bi].0,
                    egress_stop: egress[bj].0,
                    access_time: access[bi].1,
                    egress_time: egress[bj].1,
                    journey,
                    total_time: total,
                },
            )
        },
        None => match direct_walking {
            Some(w) => Some(TracedChoice::Walking { walking_time: w }),
            None => None,
        },
    }
}

/// The pruning bound, computed.
fn prune_bound_of(direct_walking: Option<Time>, best: Option<BestPair>) -> (r: Time)
    ensures
        r == prune_bound(direct_walking, best),
{
    let b = match best {
        Some(b) => b.total,
        None => Time::MAX,
    };
    let w = match direct_walking {
        Some(w) => w,
        None => Time::MAX,
    };
    if b <= w {
        b
    } else {
        w
    }
}

/// Once every pair is settled, the walking-or-best decision is the traced
/// choice.
proof fn lemma_settled_choice(
    direct_walking: Option<Time>,
    acc: Seq<(RaptorStopId, Time)>,
    egr: Seq<(RaptorStopId, Time)>,
    table: Seq<Seq<Option<TracedLeg>>>,
    best: Option<BestPair>,
)
    requires
        legs_fit(acc, egr, table),
        best_recorded(acc, egr, table, best),
        forall|i2: int, j2: int|
            0 <= i2 < acc.len() && 0 <= j2 < egr.len() ==> #[trigger] pair_settled(direct_walking, acc, egr, table, best, i2, j2),
    ensures
        traced_choice(direct_walking, acc, egr, table) == (if direct_walking is Some && (best is None || direct_walking->0
            <= best->Some_0.total) {
            Some(TracedChoice::Walking { walking_time: direct_walking->0 })
        } else if best is Some {
            Some(
                TracedChoice::Transit {
                    access_stop: acc[best->Some_0.access_index as int].0,
                    egress_stop: egr[best->Some_0.egress_index as int].0,
                    access_time: acc[best->Some_0.access_index as int].1,
                    egress_time: egr[best->Some_0.egress_index as int].1,
                    journey: table[best->Some_0.access_index as int][best->Some_0.egress_index as int]->0,
                    total_time: best->Some_0.total,
                },
            )
        } else {
            None
        }),
{
    let w = direct_walking;
    if exists|i2: int, j2: int| traced_best(acc, egr, table, i2, j2) {
        let (ci, cj) = choose|i2: int, j2: int| traced_best(acc, egr, table, i2, j2);
        let m = traced_total_at(acc, egr, table, ci, cj)->0;
        assert(pair_settled(w, acc, egr, table, best, ci, cj));
        if w is None || m < w->0 {
            let b = best->0;
            assert(best is Some);
            assert(b.total <= m);
            let bi = b.access_index as int;
            let bj = b.egress_index as int;
            assert(traced_best(acc, egr, table, bi, bj)) by {
                assert forall|i2: int, j2: int|
                    0 <= i2 < acc.len() && 0 <= j2 < egr.len() && (#[trigger] traced_total_at(acc, egr, table, i2, j2)) is Some
                        implies b.total <= traced_total_at(acc, egr, table, i2, j2)->0 by {
                    assert(m <= traced_total_at(acc, egr, table, i2, j2)->0);
                    assert(pair_settled(w, acc, egr, table, best, i2, j2));
                }
                assert forall|i2: int, j2: int|
                    0 <= i2 < acc.len() && 0 <= j2 < egr.len() && lex_before(i2, j2, bi, bj) && (#[trigger] traced_total_at(
                        acc,
                        egr,
                        table,
                        i2,
                        j2,
                    )) is Some implies b.total < traced_total_at(acc, egr, table, i2, j2)->0 by {
                    assert(m <= traced_total_at(acc, egr, table, i2, j2)->0);
                    assert(pair_settled(w, acc, egr, table, best, i2, j2));
                }
            }
            lemma_traced_best_unique(acc, egr, table, bi, bj, ci, cj);
        } else {
            if best is Some {
                let b = best->0;
                assert(pair_settled(w, acc, egr, table, best, b.access_index as int, b.egress_index as int));
                assert(m <= b.total);
            }
        }
    } else {
        if best is Some {
            let b = best->0;
            let bi = b.access_index as int;
            let bj = b.egress_index as int;
            if w is None || b.total < w->0 {
                assert(false) by {
                    assert forall|i2: int, j2: int|
                        0 <= i2 < acc.len() && 0 <= j2 < egr.len() && (#[trigger] traced_total_at(acc, egr, table, i2, j2)) is Some
                            implies b.total <= traced_total_at(acc, egr, table, i2, j2)->0 by {
                        assert(pair_settled(w, acc, egr, table, best, i2, j2));
                    }
                    assert forall|i2: int, j2: int|
                        0 <= i2 < acc.len() && 0 <= j2 < egr.len() && lex_before(i2, j2, bi, bj) && (#[trigger] traced_total_at(
                            acc,
                            egr,
                            table,
                            i2,
                            j2,
                        )) is Some implies b.total < traced_total_at(acc, egr, table, i2, j2)->0 by {
                        assert(pair_settled(w, acc, egr, table, best, i2, j2));
                    }
                    assert(traced_best(acc, egr, table, bi, bj));
                }
            }
        } else {
            if w is None {
                assert forall|i2: int, j2: int| 0 <= i2 < acc.len() && 0 <= j2 < egr.len() implies !(
                #[trigger] traced_total_at(acc, egr, table, i2, j2) is Some) by {
                    assert(pair_settled(w, acc, egr, table, best, i2, j2));
                }
            }
        }
    }
}

/// Traced multimodal routing from one point to another. `pair_legs[i][j]` is
/// what the traced transit search from access candidate `i` of
/// `start_point`, leaving at `departure_time` plus its access time, found
/// for egress candidate `j` of `end_point` (`None` where it found no
/// journey). The nearest-stops lists are sorted by walking time.
pub fn traced_multimodal_routing(
    start_point: &TransitPoint,
    end_point: &TransitPoint,
    departure_time: Time,
    pair_legs: &Vec<Vec<Option<TracedLeg>>>,
) -> (r: Result<Option<TracedChoice>, Error>)
    requires
        by_walking_time(leading_candidates(start_point.nearest_stops@)),
        by_walking_time(leading_candidates(end_point.nearest_stops@)),
        legs_fit(
            leading_candidates(start_point.nearest_stops@),
            leading_candidates(end_point.nearest_stops@),
            pair_legs@.map_values(|row: Vec<Option<TracedLeg>>| row@),
        ),
        legs_depart_after(
            departure_time,
            leading_candidates(start_point.nearest_stops@),
            leading_candidates(end_point.nearest_stops@),
            pair_legs@.map_values(|row: Vec<Option<TracedLeg>>| row@),
        ),
    ensures
        r == Ok::<Option<TracedChoice>, Error>(
            traced_choice(
                start_point.walking_time_to_spec(end_point),
                leading_candidates(start_point.nearest_stops@),
                leading_candidates(end_point.nearest_stops@),
                pair_legs@.map_values(|row: Vec<Option<TracedLeg>>| row@),
            ),
        ),
{
    let direct_walking = start_point.walking_time_to(end_point);
    let access = leading_candidates_of(&start_point.nearest_stops);
    let egress = leading_candidates_of(&end_point.nearest_stops);
    Ok(select_traced_journey(direct_walking, &access, &egress, pair_legs))
}

/// Traced routing never returns a journey slower than walking directly.
pub proof fn law_traced_never_slower_than_walking(
    direct_walking: Option<Time>,
    access: Seq<(RaptorStopId, Time)>,
    egress: Seq<(RaptorStopId, Time)>,
    legs: Seq<Seq<Option<TracedLeg>>>,
)
    requires
        direct_walking is Some,
    ensures
        traced_choice(direct_walking, access, egress, legs) matches Some(c) && c.total_time_spec() <= direct_walking->0,
{
}

} // verus!
