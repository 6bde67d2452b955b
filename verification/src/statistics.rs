//! Travel time matrices and per-origin travel time statistics over
//! one-to-many routing results.
use vstd::prelude::*;
use vstd::relations::{sorted_by, total_ordering};

use crate::routing::MultiModalResult;
use crate::types::Time;

verus! {

/// Statistic computed from the reachable travel times of one origin.
#[derive(Debug, Clone, Copy, PartialEq, Eq, Structural)]
pub enum Statistic {
    /// Arithmetic mean travel time.
    Mean,
    /// Median travel time.
    Median,
}

/// Reads a statistic's name: `"mean"` or `"median"`, nothing else.
pub fn parse_statistic(stat: &str) -> (r: Option<Statistic>)
    ensures
        r == if stat@ == "mean"@ {
            Some(Statistic::Mean)
        } else if stat@ == "median"@ {
            Some(Statistic::Median)
        } else {
            None
        },
{
    let name = stat.to_owned();
    if name == "mean".to_owned() {
        Some(Statistic::Mean)
    } else if name == "median".to_owned() {
        Some(Statistic::Median)
    } else {
        None
    }
}

/// The travel time of each routing result, `None` where unreachable.
pub fn travel_time_row(results: &Vec<Option<MultiModalResult>>) -> (r: Vec<Option<Time>>)
    ensures
        r@.len() == results@.len(),
        forall|k: int| 0 <= k < results@.len() ==> #[trigger] r@[k] == match results@[k] {
            Some(m) => Some(m.travel_time),
            None => None,
        },
{
    let mut r: Vec<Option<Time>> = Vec::new();
    let mut k: usize = 0;
    while k < results.len()
        invariant
            k <= results@.len(),
            r@.len() == k,
            forall|m: int| 0 <= m < k ==> #[trigger] r@[m] == match results@[m] {
                Some(x) => Some(x.travel_time),
                None => None,
            },
        decreases results@.len() - k,
    {
        let t = match results[k] {
            Some(m) => Some(m.travel_time),
            None => None,
        };
        r.push(t);
        k += 1;
    }
    r
}

/// One row of the travel time matrix: the routing results' travel times,
/// or, when routing from this origin failed, no travel time to any of the
/// `point_count` points.
pub fn matrix_row<E>(routed: Result<Vec<Option<MultiModalResult>>, E>, point_count: usize) -> (r: Vec<Option<Time>>)
    ensures
        routed is Err ==> r@ == Seq::new(point_count as nat, |k: int| None::<Time>),
        routed matches Ok(results) ==> r@.len() == results@.len() && forall|k: int|
            0 <= k < results@.len() ==> #[trigger] r@[k] == match results@[k] {
                Some(m) => Some(m.travel_time),
                None => None,
            },
{
    match routed {
        Ok(results) => travel_time_row(&results),
        Err(_) => {
            let mut r: Vec<Option<Time>> = Vec::new();
            let mut k: usize = 0;
            while k < point_count
                invariant
                    k <= point_count,
                    r@ == Seq::new(k as nat, |m: int| None::<Time>),
                decreases point_count - k,
            {
                r.push(None);
                k += 1;
                assert(r@ =~= Seq::new(k as nat, |m: int| None::<Time>));
            }
            r
        },
    }
}

/// The travel times kept for statistics, in result order: those of the
/// reached destinations, leaving out any above `filter_cutoff`.
pub open spec fn kept_times(results: Seq<Option<MultiModalResult>>, filter_cutoff: Option<u64>) -> Seq<u64>
    decreases results.len(),
{
    if results.len() == 0 {
        Seq::empty()
    } else {
        let rest = kept_times(results.drop_last(), filter_cutoff);
        match results.last() {
            Some(m) => if filter_cutoff matches Some(c) && m.travel_time > c {
                rest
            } else {
                rest.push(m.travel_time as u64)
            },
            None => rest,
        }
    }
}

/// No more times are kept than there are results.
pub proof fn lemma_kept_times_len(results: Seq<Option<MultiModalResult>>, filter_cutoff: Option<u64>)
    ensures
        kept_times(results, filter_cutoff).len() <= results.len(),
        forall|i: int| 0 <= i < kept_times(results, filter_cutoff).len() ==> #[trigger] kept_times(results, filter_cutoff)[i] <= Time::MAX,
    decreases results.len(),
{
    if results.len() > 0 {
        lemma_kept_times_len(results.drop_last(), filter_cutoff);
    }
}

/// The travel times of the reached destinations, in result order, leaving
/// out those strictly above `filter_cutoff` when one is given.
pub fn reached_travel_times(results: &Vec<Option<MultiModalResult>>, filter_cutoff: Option<u64>) -> (r: Vec<u64>)
    ensures
        r@ == kept_times(results@, filter_cutoff),
{
    let mut r: Vec<u64> = Vec::new();
    let mut k: usize = 0;
    while k < results.len()
        invariant
            k <= results@.len(),
            r@ == kept_times(results@.take(k as int), filter_cutoff),
        decreases results@.len() - k,
    {
        proof {
            assert(results@.take(k + 1).drop_last() =~= results@.take(k as int));
            assert(results@.take(k + 1).last() == results@[k as int]);
        }
        if let Some(m) = results[k] {
            let skip = match filter_cutoff {
                Some(c) => m.travel_time as u64 > c,
                None => false,
            };
            if !skip {
                r.push(m.travel_time as u64);
            }
        }
        k += 1;
    }
    assert(results@.take(k as int) =~= results@);
    r
}

/// Sum of a sequence of times.
pub open spec fn time_sum(s: Seq<u64>) -> int
    decreases s.len(),
{
    if s.len() == 0 {
        0
    } else {
        time_sum(s.drop_last()) + s.last()
    }
}

/// The ascending order on times.
pub open spec fn time_leq() -> spec_fn(u64, u64) -> bool {
    |x: u64, y: u64| x <= y
}

/// The times in ascending order.
pub open spec fn ascending(s: Seq<u64>) -> Seq<u64> {
    s.sort_by(time_leq())
}

/// What a statistic is computed from: the sum and count of the times for a
/// mean; the two middle times in ascending order for a median (the same
/// time twice when the count is odd).
#[derive(Debug, Clone, Copy, PartialEq, Eq, Structural)]
pub enum StatisticParts {
    Mean { sum: u64, count: usize },
    Median { lower: u64, upper: u64 },
}

/// The parts of `stat` over `times`; none for no times.
pub open spec fn statistic_parts_of(times: Seq<u64>, stat: Statistic) -> Option<StatisticParts> {
    if times.len() == 0 {
        None
    } else {
        match stat {
            Statistic::Mean => Some(StatisticParts::Mean { sum: time_sum(times) as u64, count: times.len() as usize }),
            Statistic::Median => {
                let sorted = ascending(times);
                let mid = times.len() / 2;
                if times.len() % 2 == 1 {
                    Some(StatisticParts::Median { lower: sorted[mid as int], upper: sorted[mid as int] })
                } else {
                    Some(StatisticParts::Median { lower: sorted[mid - 1], upper: sorted[mid as int] })
                }
            },
        }
    }
}

/// `slice::sort_unstable` on travel times: the same times, ascending.
#[verifier::external_body]
fn sort_times(times: &mut Vec<u64>)
    ensures
        final(times)@.to_multiset() == old(times)@.to_multiset(),
        sorted_by(final(times)@, time_leq()),
{
    times.sort_unstable();
}

/// The ascending order on times is a total order.
proof fn lemma_time_leq_total()
    ensures
        total_ordering(time_leq()),
{
    let leq = time_leq();
    assert(vstd::relations::reflexive(leq));
    assert(vstd::relations::antisymmetric(leq));
    assert(vstd::relations::transitive(leq));
    assert(vstd::relations::strongly_connected(leq));
}

/// A sum of `n` times, each at most `Time::MAX`, is at most `n` times that.
proof fn lemma_time_sum_bound(s: Seq<u64>)
    requires
        forall|i: int| 0 <= i < s.len() ==> #[trigger] s[i] <= Time::MAX,
    ensures
        0 <= time_sum(s) <= s.len() * (Time::MAX as int),
    decreases s.len(),
{
    if s.len() > 0 {
        lemma_time_sum_bound(s.drop_last());
        assert(s.last() <= Time::MAX);
        assert((s.len() - 1) * (Time::MAX as int) + (Time::MAX as int) == s.len() * (Time::MAX as int)) by (nonlinear_arith);
    }
}

/// Computes the parts of `stat` over the kept times (see
/// [`statistic_parts_of`]). At most `u32::MAX` times, so that their sum fits.
pub fn statistic_parts(times: Vec<u64>, stat: Statistic) -> (r: Option<StatisticParts>)
    requires
        times@.len() <= u32::MAX,
        forall|i: int| 0 <= i < times@.len() ==> #[trigger] times@[i] <= Time::MAX,
    ensures
        r == statistic_parts_of(times@, stat),
{
    let n = times.len();
    if n == 0 {
        return None;
    }
    match stat {
        Statistic::Mean => {
            let mut sum: u64 = 0;
            let mut i: usize = 0;
            while i < n
                invariant
                    n == times@.len(),
                    n <= u32::MAX,
                    i <= n,
                    forall|k: int| 0 <= k < times@.len() ==> #[trigger] times@[k] <= Time::MAX,
                    sum == time_sum(times@.take(i as int)),
                decreases n - i,
            {
                proof {
                    assert(times@.take(i + 1).drop_last() =~= times@.take(i as int));
                    lemma_time_sum_bound(times@.take(i + 1));
                    assert((i + 1) * (Time::MAX as int) <= (u32::MAX as int) * (Time::MAX as int)) by (nonlinear_arith)
                        requires
                            i + 1 <= u32::MAX,
                    ;
                }
                sum = sum + times[i];
                i += 1;
            }
            assert(times@.take(n as int) =~= times@);
            Some(StatisticParts::Mean { sum, count: n })
        },
        Statistic::Median => {
            let ghost original = times@;
            let mut sorted = times;
            sort_times(&mut sorted);
            proof {
                lemma_time_leq_total();
                original.lemma_sort_by_ensures(time_leq());
                vstd::seq_lib::lemma_sorted_unique(sorted@, ascending(original), time_leq());
                assert(sorted@.len() == original.len()) by {
                    vstd::seq_lib::to_multiset_len(sorted@);
                    vstd::seq_lib::to_multiset_len(original);
                }
            }
            let mid = n / 2;
            if n % 2 == 1 {
                Some(StatisticParts::Median { lower: sorted[mid], upper: sorted[mid] })
            } else {
                Some(StatisticParts::Median { lower: sorted[mid - 1], upper: sorted[mid] })
            }
        },
    }
}

/// The parts of one origin's statistic: over the travel times to the
/// reached destinations (see [`reached_travel_times`]), together with how
/// many destinations that is.
pub fn origin_statistic(results: &Vec<Option<MultiModalResult>>, filter_cutoff: Option<u64>, stat: Statistic) -> (r: (
    usize,
    Option<StatisticParts>,
))
    requires
        results@.len() <= u32::MAX,
    ensures
        r.0 == kept_times(results@, filter_cutoff).len(),
        r.1 == statistic_parts_of(kept_times(results@, filter_cutoff), stat),
{
    let times = reached_travel_times(results, filter_cutoff);
    proof {
        lemma_kept_times_len(results@, filter_cutoff);
    }
    let count = times.len();
    (count, statistic_parts(times, stat))
}

/// A sum of times is never negative.
proof fn lemma_time_sum_nonnegative(s: Seq<u64>)
    ensures
        time_sum(s) >= 0,
    decreases s.len(),
{
    if s.len() > 0 {
        lemma_time_sum_nonnegative(s.drop_last());
    }
}

/// A mean's parts grow by each time added: one time alone has itself as its
/// sum and a count of one, and adding a time to others adds it to their sum
/// and one to their count (while the sum fits).
pub proof fn law_mean_parts_add_up(times: Seq<u64>, t: u64)
    requires
        time_sum(times) + t <= u64::MAX,
        times.len() < usize::MAX,
    ensures
        statistic_parts_of(seq![t], Statistic::Mean) == Some(StatisticParts::Mean { sum: t, count: 1 }),
        statistic_parts_of(times, Statistic::Mean) matches Some(StatisticParts::Mean { sum, count }) ==> statistic_parts_of(
            times.push(t),
            Statistic::Mean,
        ) == Some(StatisticParts::Mean { sum: (sum + t) as u64, count: (count + 1) as usize }),
{
    lemma_time_sum_nonnegative(times);
    assert(times.push(t).drop_last() =~= times);
    assert(time_sum(times.push(t)) == time_sum(times) + t);
    let one = seq![t];
    assert(one.drop_last() =~= Seq::<u64>::empty());
    assert(time_sum(Seq::<u64>::empty()) == 0);
    assert(time_sum(one) == t);
    assert(one.len() == 1);
}

/// A median is read off the times sorted ascending: for any ascending
/// arrangement of the same times, an odd count of times has its median at
/// the middle position (as many times before it as after it), and an even
/// count has the two times on either side of the middle.
pub proof fn law_median_is_middle_of_sorted_times(times: Seq<u64>, sorted: Seq<u64>)
    requires
        times.len() > 0,
        sorted.to_multiset() == times.to_multiset(),
        forall|i: int, j: int| 0 <= i <= j < sorted.len() ==> sorted[i] <= sorted[j],
    ensures
        sorted.len() == times.len(),
        times.len() % 2 == 1 ==> statistic_parts_of(times, Statistic::Median) == Some(
            StatisticParts::Median { lower: sorted[(times.len() / 2) as int], upper: sorted[(times.len() / 2) as int] },
        ),
        times.len() % 2 == 0 ==> statistic_parts_of(times, Statistic::Median) == Some(
            StatisticParts::Median { lower: sorted[times.len() / 2 - 1], upper: sorted[(times.len() / 2) as int] },
        ),
{
    lemma_time_leq_total();
    times.lemma_sort_by_ensures(time_leq());
    assert(sorted_by(sorted, time_leq()));
    vstd::seq_lib::lemma_sorted_unique(sorted, ascending(times), time_leq());
    vstd::seq_lib::to_multiset_len(sorted);
    vstd::seq_lib::to_multiset_len(times);
}

/// A median's lower middle time never exceeds its upper middle time, and a
/// mean's parts count every kept time.
pub proof fn law_statistic_parts_ordered(times: Seq<u64>, stat: Statistic)
    requires
        0 < times.len() <= u32::MAX,
    ensures
        statistic_parts_of(times, stat) matches Some(p) && match p {
            StatisticParts::Median { lower, upper } => lower <= upper,
            StatisticParts::Mean { count, .. } => count == times.len(),
        },
{
    lemma_time_leq_total();
    times.lemma_sort_by_ensures(time_leq());
    vstd::seq_lib::to_multiset_len(times);
    vstd::seq_lib::to_multiset_len(ascending(times));
    let sorted = ascending(times);
    let mid = times.len() / 2;
    if stat == Statistic::Median {
        if times.len() % 2 == 0 {
            assert(time_leq()(sorted[mid - 1], sorted[mid as int]));
        }
    }
}

/// Filtering by a cutoff keeps no time above it.
pub proof fn law_kept_times_within_cutoff(results: Seq<Option<MultiModalResult>>, cutoff: u64, i: int)
    requires
        0 <= i < kept_times(results, Some(cutoff)).len(),
    ensures
        kept_times(results, Some(cutoff))[i] <= cutoff,
    decreases results.len(),
{
    let rest = kept_times(results.drop_last(), Some(cutoff));
    if results.len() > 0 {
        if i < rest.len() {
            law_kept_times_within_cutoff(results.drop_last(), cutoff, i);
        }
    }
}

} // verus!
