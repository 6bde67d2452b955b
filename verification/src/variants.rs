//! Grouping GTFS stop times into trips, and trips into routes: one route per
//! GTFS route and full stop pattern, ordered by route identifier, then
//! pattern, then first departure and trip identifier.
use vstd::prelude::*;

use crate::collections::{stop_id_entries, StopIdMap};
use crate::gtfs::{schedule_entry, FeedStop, FeedStopTime, FeedTrip};
use crate::types::{Route, StopTime, Time, Trip};

verus! {

/// What a map holds under a key.
pub open spec fn lookup(m: Map<Seq<char>, usize>, id: Seq<char>) -> Option<int> {
    if m.contains_key(id) {
        Some(m[id] as int)
    } else {
        None
    }
}

/// Position of the last stop with identifier `id`.
pub open spec fn last_stop_index(stops: Seq<FeedStop>, id: Seq<char>) -> Option<int>
    decreases stops.len(),
{
    if stops.len() == 0 {
        None
    } else if stops.last().stop_id@ == id {
        Some(stops.len() - 1)
    } else {
        last_stop_index(stops.drop_last(), id)
    }
}

/// Position of the last trip with identifier `id`.
pub open spec fn last_trip_index(trips: Seq<FeedTrip>, id: Seq<char>) -> Option<int>
    decreases trips.len(),
{
    if trips.len() == 0 {
        None
    } else if trips.last().trip_id@ == id {
        Some(trips.len() - 1)
    } else {
        last_trip_index(trips.drop_last(), id)
    }
}

/// A lookup of last positions is a position in range.
proof fn lemma_last_trip_index_in_range(trips: Seq<FeedTrip>, id: Seq<char>)
    ensures
        last_trip_index(trips, id) matches Some(t) ==> 0 <= t < trips.len() && trips[t].trip_id@ == id,
    decreases trips.len(),
{
    if trips.len() > 0 {
        lemma_last_trip_index_in_range(trips.drop_last(), id);
        if let Some(t) = last_trip_index(trips.drop_last(), id) {
            assert(trips.drop_last()[t] == trips[t]);
        }
    }
}

/// Stop identifier to the position of the last stop carrying it.
pub fn feed_stop_index(stops: &Vec<FeedStop>) -> (r: StopIdMap)
    ensures
        forall|id: Seq<char>| #[trigger] lookup(stop_id_entries(r), id) == last_stop_index(stops@, id),
{
    let mut map = StopIdMap::new();
    let mut i: usize = 0;
    while i < stops.len()
        invariant
            i <= stops@.len(),
            forall|id: Seq<char>| #[trigger] lookup(stop_id_entries(map), id) == last_stop_index(stops@.take(i as int), id),
        decreases stops@.len() - i,
    {
        let ghost old_map = stop_id_entries(map);
        map.insert(stops[i].stop_id.clone(), i);
        proof {
            assert(stops@.take(i + 1).drop_last() =~= stops@.take(i as int));
            assert forall|id: Seq<char>| #[trigger] lookup(stop_id_entries(map), id) == last_stop_index(stops@.take(i + 1), id) by {
                assert(stops@.take(i + 1).last() == stops@[i as int]);
                if id == stops@[i as int].stop_id@ {
                    assert(lookup(stop_id_entries(map), id) == Some(i as int));
                } else {
                    assert(lookup(stop_id_entries(map), id) == lookup(old_map, id));
                }
            }
        }
        i += 1;
    }
    assert(stops@.take(i as int) =~= stops@);
    map
}

/// Trip identifier to the position of the last trip carrying it.
pub fn feed_trip_index(trips: &Vec<FeedTrip>) -> (r: StopIdMap)
    ensures
        forall|id: Seq<char>| #[trigger] lookup(stop_id_entries(r), id) == last_trip_index(trips@, id),
{
    let mut map = StopIdMap::new();
    let mut i: usize = 0;
    while i < trips.len()
        invariant
            i <= trips@.len(),
            forall|id: Seq<char>| #[trigger] lookup(stop_id_entries(map), id) == last_trip_index(trips@.take(i as int), id),
        decreases trips@.len() - i,
    {
        let ghost old_map = stop_id_entries(map);
        map.insert(trips[i].trip_id.clone(), i);
        proof {
            assert(trips@.take(i + 1).drop_last() =~= trips@.take(i as int));
            assert forall|id: Seq<char>| #[trigger] lookup(stop_id_entries(map), id) == last_trip_index(trips@.take(i + 1), id) by {
                assert(trips@.take(i + 1).last() == trips@[i as int]);
                if id == trips@[i as int].trip_id@ {
                    assert(lookup(stop_id_entries(map), id) == Some(i as int));
                } else {
                    assert(lookup(stop_id_entries(map), id) == lookup(old_map, id));
                }
            }
        }
        i += 1;
    }
    assert(trips@.take(i as int) =~= trips@);
    map
}

/// Position at which a stop time enters a list kept in stop-sequence
/// order: after every entry whose sequence is not greater.
pub open spec fn insertion_point(sorted: Seq<FeedStopTime>, seq_no: u32) -> int
    decreases sorted.len(),
{
    if sorted.len() == 0 {
        0
    } else if sorted[0].stop_sequence > seq_no {
        0
    } else {
        1 + insertion_point(sorted.drop_first(), seq_no)
    }
}

/// A trip's stop times in stop-sequence order, equal sequences keeping
/// their order of appearance.
pub open spec fn by_sequence(s: Seq<FeedStopTime>) -> Seq<FeedStopTime>
    decreases s.len(),
{
    if s.len() == 0 {
        Seq::empty()
    } else {
        let sorted = by_sequence(s.drop_last());
        sorted.insert(insertion_point(sorted, s.last().stop_sequence), s.last())
    }
}

proof fn lemma_insertion_point_bound(sorted: Seq<FeedStopTime>, seq_no: u32)
    ensures
        0 <= insertion_point(sorted, seq_no) <= sorted.len(),
    decreases sorted.len(),
{
    if sorted.len() > 0 {
        lemma_insertion_point_bound(sorted.drop_first(), seq_no);
    }
}

/// Scanning from the front finds the insertion point.
proof fn lemma_insertion_point_scan(sorted: Seq<FeedStopTime>, seq_no: u32, p: int)
    requires
        0 <= p <= sorted.len(),
        forall|k: int| 0 <= k < p ==> (#[trigger] sorted[k]).stop_sequence <= seq_no,
        p < sorted.len() ==> sorted[p].stop_sequence > seq_no,
    ensures
        insertion_point(sorted, seq_no) == p,
    decreases p,
{
    if p > 0 {
        assert(sorted[0].stop_sequence <= seq_no);
        lemma_insertion_point_scan(sorted.drop_first(), seq_no, p - 1);
    }
}

/// Inserts a stop time into group `g` at position `p`.
fn insert_stop_time(groups: &mut Vec<(String, Vec<FeedStopTime>)>, g: usize, p: usize, st: FeedStopTime)
    requires
        g < old(groups)@.len(),
        p <= old(groups)@[g as int].1@.len(),
    ensures
        final(groups)@.len() == old(groups)@.len(),
        forall|h: int| 0 <= h < old(groups)@.len() && h != g ==> #[trigger] final(groups)@[h] == old(groups)@[h],
        final(groups)@[g as int].0 == old(groups)@[g as int].0,
        final(groups)@[g as int].1@ == old(groups)@[g as int].1@.insert(p as int, st),
{
    groups[g].1.insert(p, st);
}

/// The stop times of trip `id`, in order of appearance.
pub open spec fn stop_times_of_trip(stop_times: Seq<FeedStopTime>, id: Seq<char>) -> Seq<FeedStopTime> {
    stop_times.filter(|st: FeedStopTime| st.trip_id@ == id)
}

/// Some group is keyed by trip `id`.
pub open spec fn has_group(groups: Seq<(String, Vec<FeedStopTime>)>, id: Seq<char>) -> bool {
    exists|g: int| 0 <= g < groups.len() && (#[trigger] groups[g]).0@ == id
}

/// Groups stop times by trip: one entry per trip identifier appearing in
/// the stop times, holding that trip's stop times in stop-sequence order
/// (equal sequences in order of appearance). Entries come in order of first
/// appearance.
pub fn group_stop_times_by_trip(stop_times: Vec<FeedStopTime>) -> (r: Vec<(String, Vec<FeedStopTime>)>)
    ensures
        forall|g: int| 0 <= g < r@.len() ==> (#[trigger] r@[g]).1@ == by_sequence(stop_times_of_trip(stop_times@, r@[g].0@)),
        forall|g: int| 0 <= g < r@.len() ==> (#[trigger] r@[g]).1@.len() > 0,
        forall|g: int, h: int| 0 <= g < h < r@.len() ==> (#[trigger] r@[g]).0@ != (#[trigger] r@[h]).0@,
        forall|i: int| 0 <= i < stop_times@.len() ==> #[trigger] has_group(r@, stop_times@[i].trip_id@),
{
    let ghost orig = stop_times@;
    let n = stop_times.len();
    let mut rev = crate::gtfs::reversed(stop_times);
    let mut groups: Vec<(String, Vec<FeedStopTime>)> = Vec::new();
    let mut index = StopIdMap::new();
    let mut k: usize = 0;
    while rev.len() > 0
        invariant
            n == orig.len(),
            k + rev@.len() == n,
            forall|j: int| 0 <= j < rev@.len() ==> #[trigger] rev@[j] == orig[n - 1 - j],
            forall|g: int| 0 <= g < groups@.len() ==> (#[trigger] groups@[g]).1@ == by_sequence(stop_times_of_trip(orig.take(k as int), groups@[g].0@)),
            forall|g: int| 0 <= g < groups@.len() ==> (#[trigger] groups@[g]).1@.len() > 0,
            forall|g: int, h: int| 0 <= g < h < groups@.len() ==> (#[trigger] groups@[g]).0@ != (#[trigger] groups@[h]).0@,
            forall|id: Seq<char>| #[trigger] lookup(stop_id_entries(index), id) is Some ==> lookup(stop_id_entries(index), id)->0 < groups@.len()
                && groups@[lookup(stop_id_entries(index), id)->0].0@ == id,
            forall|g: int| 0 <= g < groups@.len() ==> #[trigger] lookup(stop_id_entries(index), groups@[g].0@) == Some(g),
            forall|i: int| 0 <= i < k ==> #[trigger] lookup(stop_id_entries(index), orig[i].trip_id@) is Some,
            forall|id: Seq<char>| #[trigger] lookup(stop_id_entries(index), id) is None ==> stop_times_of_trip(orig.take(k as int), id).len() == 0,
        decreases rev@.len(),
    {
        let st = rev.pop().unwrap();
        let ghost t = orig.take(k as int);
        let ghost t1 = orig.take(k + 1);
        proof {
            assert(st == orig[k as int]);
            assert(t1.drop_last() =~= t);
            assert(t1.last() == st);
            reveal_with_fuel(Seq::filter, 1);
        }
        let ghost old_groups = groups@;
        let ghost old_index = stop_id_entries(index);
        let ghost found = lookup(stop_id_entries(index), st.trip_id@);
        assert(found is Some ==> found->0 < groups@.len() && groups@[found->0].0@ == st.trip_id@);
        assert(found is None ==> stop_times_of_trip(t, st.trip_id@).len() == 0);
        let g = match index.get(st.trip_id.as_str()) {
            Some(g) => g,
            None => {
                let g = groups.len();
                index.insert(st.trip_id.clone(), g);
                groups.push((st.trip_id.clone(), Vec::new()));
                proof {
                    assert(stop_times_of_trip(t, st.trip_id@).len() == 0);
                    assert(stop_times_of_trip(t, st.trip_id@) =~= Seq::<FeedStopTime>::empty());
                }
                g
            },
        };
        assert(groups@[g as int].0@ == st.trip_id@);
        let seq_no = st.stop_sequence;
        let ghost before = groups@[g as int].1@;
        proof {
            if found is None {
                assert(stop_times_of_trip(t, st.trip_id@) =~= Seq::<FeedStopTime>::empty());
            } else {
                assert(found == Some(g as int));
            }
            assert(before == by_sequence(stop_times_of_trip(t, st.trip_id@)));
        }
        let mut p: usize = 0;
        while p < groups[g].1.len() && groups[g].1[p].stop_sequence <= seq_no
            invariant
                g < groups@.len(),
                groups@[g as int].1@ == before,
                p <= before.len(),
                forall|q: int| 0 <= q < p ==> (#[trigger] before[q]).stop_sequence <= seq_no,
            decreases before.len() - p,
        {
            p += 1;
        }
        proof {
            lemma_insertion_point_scan(before, seq_no, p as int);
        }
        let ghost pre_insert = groups@;
        insert_stop_time(&mut groups, g, p, st);
        proof {
            assert forall|h: int| 0 <= h < groups@.len() implies (#[trigger] groups@[h]).1@ == by_sequence(stop_times_of_trip(t1, groups@[h].0@)) by {
                if h == g {
                    reveal_with_fuel(Seq::filter, 1);
                    assert(groups@[h].0@ == st.trip_id@);
                    assert(stop_times_of_trip(t1, st.trip_id@) =~= stop_times_of_trip(t, st.trip_id@).push(st));
                    assert(stop_times_of_trip(t1, st.trip_id@).drop_last() =~= stop_times_of_trip(t, st.trip_id@));
                    assert(stop_times_of_trip(t1, st.trip_id@).last() == st);
                    assert(groups@[h].1@ == before.insert(p as int, st));
                } else {
                    assert(groups@[h] == pre_insert[h]);
                    assert(stop_times_of_trip(t1, groups@[h].0@) =~= stop_times_of_trip(t, groups@[h].0@));
                }
            }
            assert forall|h: int| 0 <= h < groups@.len() implies (#[trigger] groups@[h]).1@.len() > 0 by {
                if h != g {
                    assert(groups@[h] == pre_insert[h]);
                }
            }
            assert forall|a: int, b: int| 0 <= a < b < groups@.len() implies (#[trigger] groups@[a]).0@ != (#[trigger] groups@[b]).0@ by {
                assert(groups@[a].0 == pre_insert[a].0);
                assert(groups@[b].0 == pre_insert[b].0);
                if b == old_groups.len() && b != g {
                } else if b == old_groups.len() {
                    assert(old_index.contains_key(pre_insert[a].0@) || true);
                    assert(lookup(old_index, old_groups[a].0@) == Some(a));
                }
            }
            assert forall|id: Seq<char>| #[trigger] lookup(stop_id_entries(index), id) is Some implies lookup(stop_id_entries(index), id)->0 < groups@.len()
                && groups@[lookup(stop_id_entries(index), id)->0].0@ == id by {
                let x = lookup(stop_id_entries(index), id)->0;
                if id == st.trip_id@ {
                    assert(x == g);
                } else {
                    assert(lookup(stop_id_entries(index), id) == lookup(old_index, id));
                    assert(x < old_groups.len());
                    assert(pre_insert[x] == old_groups[x]);
                }
                assert(groups@[x].0 == pre_insert[x].0);
            }
            assert forall|h: int| 0 <= h < groups@.len() implies #[trigger] lookup(stop_id_entries(index), groups@[h].0@) == Some(h) by {
                assert(groups@[h].0 == pre_insert[h].0);
                if h < old_groups.len() {
                    assert(pre_insert[h] == old_groups[h]);
                    assert(lookup(old_index, old_groups[h].0@) == Some(h));
                    if found is None {
                        assert(old_groups[h].0@ != st.trip_id@);
                    }
                    assert(lookup(stop_id_entries(index), old_groups[h].0@) == lookup(old_index, old_groups[h].0@));
                } else {
                    assert(h == g);
                }
            }
            assert forall|i: int| 0 <= i < k + 1 implies #[trigger] lookup(stop_id_entries(index), orig[i].trip_id@) is Some by {
                if i < k {
                    assert(lookup(old_index, orig[i].trip_id@) is Some);
                    if orig[i].trip_id@ != st.trip_id@ {
                        assert(lookup(stop_id_entries(index), orig[i].trip_id@) == lookup(old_index, orig[i].trip_id@));
                    }
                } else {
                    assert(orig[i] == st);
                }
            }
            assert forall|id: Seq<char>| #[trigger] lookup(stop_id_entries(index), id) is None implies stop_times_of_trip(t1, id).len() == 0 by {
                reveal_with_fuel(Seq::filter, 1);
                assert(lookup(stop_id_entries(index), st.trip_id@) is Some);
                assert(id != st.trip_id@);
                assert(lookup(old_index, id) is None);
                assert(stop_times_of_trip(t, id).len() == 0);
                assert(stop_times_of_trip(t1, id) =~= stop_times_of_trip(t, id));
            }
        }
        k += 1;
    }
    proof {
        assert(orig.take(k as int) =~= orig);
        assert forall|i: int| 0 <= i < orig.len() implies #[trigger] has_group(groups@, orig[i].trip_id@) by {
            assert(lookup(stop_id_entries(index), orig[i].trip_id@) is Some);
            let g = lookup(stop_id_entries(index), orig[i].trip_id@)->0;
            assert(0 <= g < groups@.len());
            assert(groups@[g].0@ == orig[i].trip_id@);
        }
    }
    groups
}


/// The stop pattern of a trip: the position of each of its stops (the last
/// stop carrying the identifier); `None` when some stop is unknown.
pub open spec fn stop_pattern(stops: Seq<FeedStop>, sts: Seq<FeedStopTime>) -> Option<Seq<usize>>
    decreases sts.len(),
{
    if sts.len() == 0 {
        Some(Seq::empty())
    } else {
        match stop_pattern(stops, sts.drop_last()) {
            Some(p) => match last_stop_index(stops, sts.last().stop_id@) {
                Some(k) => Some(p.push(k as usize)),
                None => None,
            },
            None => None,
        }
    }
}

/// Once a prefix has an unknown stop, so has the whole trip.
proof fn lemma_pattern_prefix_none(stops: Seq<FeedStop>, sts: Seq<FeedStopTime>, k: int)
    requires
        0 <= k <= sts.len(),
        stop_pattern(stops, sts.take(k)) is None,
    ensures
        stop_pattern(stops, sts) is None,
    decreases sts.len(),
{
    if k == sts.len() {
        assert(sts.take(k) =~= sts);
    } else {
        assert(sts.drop_last().take(k) =~= sts.take(k));
        lemma_pattern_prefix_none(stops, sts.drop_last(), k);
    }
}

/// The stop pattern of a trip's stop times, looked up in the stop index.
fn stop_pattern_of(stop_ids: &StopIdMap, sts: &Vec<FeedStopTime>, Ghost(stops): Ghost<Seq<FeedStop>>) -> (r: Option<Vec<usize>>)
    requires
        forall|id: Seq<char>| #[trigger] lookup(stop_id_entries(*stop_ids), id) == last_stop_index(stops, id),
    ensures
        match r {
            Some(p) => stop_pattern(stops, sts@) == Some(p@),
            None => stop_pattern(stops, sts@) is None,
        },
{
    let mut pattern: Vec<usize> = Vec::new();
    let mut k: usize = 0;
    while k < sts.len()
        invariant
            k <= sts@.len(),
            forall|id: Seq<char>| #[trigger] lookup(stop_id_entries(*stop_ids), id) == last_stop_index(stops, id),
            stop_pattern(stops, sts@.take(k as int)) == Some(pattern@),
        decreases sts@.len() - k,
    {
        proof {
            assert(sts@.take(k + 1).drop_last() =~= sts@.take(k as int));
            assert(sts@.take(k + 1).last() == sts@[k as int]);
            assert(lookup(stop_id_entries(*stop_ids), sts@[k as int].stop_id@) == last_stop_index(stops, sts@[k as int].stop_id@));
        }
        match stop_ids.get(sts[k].stop_id.as_str()) {
            Some(idx) => {
                pattern.push(idx);
            },
            None => {
                proof {
                    lemma_pattern_prefix_none(stops, sts@, k + 1);
                }
                return None;
            },
        }
        k += 1;
    }
    assert(sts@.take(k as int) =~= sts@);
    Some(pattern)
}

/// A trip's place in the route layout: its GTFS route, stop pattern, first
/// departure, identifier, and the group holding its stop times.
pub struct TripEntry {
    pub route_id: Seq<char>,
    pub pattern: Seq<usize>,
    pub first_departure: Time,
    pub trip_id: Seq<char>,
    pub group: int,
}

/// A trip to be laid out (see [`TripEntry`]).
pub struct TripRecord {
    pub route_id: String,
    pub pattern: Vec<usize>,
    pub first_departure: Time,
    pub trip_id: String,
    pub group: usize,
}

impl View for TripRecord {
    type V = TripEntry;

    open spec fn view(&self) -> TripEntry {
        TripEntry {
            route_id: self.route_id@,
            pattern: self.pattern@,
            first_departure: self.first_departure,
            trip_id: self.trip_id@,
            group: self.group as int,
        }
    }
}

/// The entry of trip group `g`: `None` when no trip carries its identifier
/// or a stop of it is unknown.
pub open spec fn trip_entry(
    stops: Seq<FeedStop>,
    trips: Seq<FeedTrip>,
    groups: Seq<(String, Vec<FeedStopTime>)>,
    g: int,
) -> Option<TripEntry> {
    match last_trip_index(trips, groups[g].0@) {
        Some(t) => match stop_pattern(stops, groups[g].1@) {
            Some(p) => Some(
                TripEntry {
                    route_id: trips[t].route_id@,
                    pattern: p,
                    first_departure: groups[g].1@[0].departure_time,
                    trip_id: trips[t].trip_id@,
                    group: g,
                },
            ),
            None => None,
        },
        None => None,
    }
}

/// The entries of the first `n` trip groups, in group order.
pub open spec fn trip_entries(
    stops: Seq<FeedStop>,
    trips: Seq<FeedTrip>,
    groups: Seq<(String, Vec<FeedStopTime>)>,
    n: int,
) -> Seq<TripEntry>
    decreases n,
{
    if n <= 0 {
        Seq::empty()
    } else {
        let rest = trip_entries(stops, trips, groups, n - 1);
        match trip_entry(stops, trips, groups, n - 1) {
            Some(e) => rest.push(e),
            None => rest,
        }
    }
}

/// Lexicographic order of integer sequences: negative, zero or positive as
/// `a` comes before, equals or comes after `b`.
pub open spec fn int_seq_order(a: Seq<int>, b: Seq<int>) -> int
    decreases a.len(),
{
    if a.len() == 0 && b.len() == 0 {
        0
    } else if a.len() == 0 {
        -1
    } else if b.len() == 0 {
        1
    } else if a[0] < b[0] {
        -1
    } else if a[0] > b[0] {
        1
    } else {
        int_seq_order(a.drop_first(), b.drop_first())
    }
}

/// The UTF-8 bytes of an identifier, as integers (identifiers order as
/// their bytes do).
pub open spec fn id_bytes(s: Seq<char>) -> Seq<int> {
    vstd::utf8::encode_utf8(s).map_values(|b: u8| b as int)
}

/// A stop pattern as integers.
pub open spec fn pattern_ints(p: Seq<usize>) -> Seq<int> {
    p.map_values(|x: usize| x as int)
}

/// The layout order of trips: by GTFS route identifier, then stop pattern,
/// then first departure, then trip identifier.
pub open spec fn entry_order(a: TripEntry, b: TripEntry) -> int {
    let r = int_seq_order(id_bytes(a.route_id), id_bytes(b.route_id));
    if r != 0 {
        r
    } else {
        let p = int_seq_order(pattern_ints(a.pattern), pattern_ints(b.pattern));
        if p != 0 {
            p
        } else if a.first_departure < b.first_departure {
            -1
        } else if a.first_departure > b.first_departure {
            1
        } else {
            int_seq_order(id_bytes(a.trip_id), id_bytes(b.trip_id))
        }
    }
}

/// Compares byte strings lexicographically.
fn order_bytes(a: &[u8], b: &[u8]) -> (r: i8)
    ensures
        r == int_seq_order(a@.map_values(|x: u8| x as int), b@.map_values(|x: u8| x as int)),
{
    let ghost sa = a@.map_values(|x: u8| x as int);
    let ghost sb = b@.map_values(|x: u8| x as int);
    assert(sa.skip(0) =~= sa);
    assert(sb.skip(0) =~= sb);
    let mut i: usize = 0;
    loop
        invariant
            i <= a@.len(),
            i <= b@.len(),
            sa == a@.map_values(|x: u8| x as int),
            sb == b@.map_values(|x: u8| x as int),
            int_seq_order(sa, sb) == int_seq_order(sa.skip(i as int), sb.skip(i as int)),
        decreases a@.len() - i,
    {
        if i == a.len() && i == b.len() {
            return 0;
        } else if i == a.len() {
            return -1;
        } else if i == b.len() {
            return 1;
        } else if a[i] < b[i] {
            return -1;
        } else if a[i] > b[i] {
            return 1;
        }
        proof {
            assert(sa.skip(i as int).drop_first() =~= sa.skip(i + 1));
            assert(sb.skip(i as int).drop_first() =~= sb.skip(i + 1));
        }
        i += 1;
    }
}

/// Compares stop patterns lexicographically.
fn order_patterns(a: &Vec<usize>, b: &Vec<usize>) -> (r: i8)
    ensures
        r == int_seq_order(pattern_ints(a@), pattern_ints(b@)),
{
    let ghost sa = pattern_ints(a@);
    let ghost sb = pattern_ints(b@);
    assert(sa.skip(0) =~= sa);
    assert(sb.skip(0) =~= sb);
    let mut i: usize = 0;
    loop
        invariant
            i <= a@.len(),
            i <= b@.len(),
            sa == pattern_ints(a@),
            sb == pattern_ints(b@),
            int_seq_order(sa, sb) == int_seq_order(sa.skip(i as int), sb.skip(i as int)),
        decreases a@.len() - i,
    {
        if i == a.len() && i == b.len() {
            return 0;
        } else if i == a.len() {
            return -1;
        } else if i == b.len() {
            return 1;
        } else if a[i] < b[i] {
            return -1;
        } else if a[i] > b[i] {
            return 1;
        }
        proof {
            assert(sa.skip(i as int).drop_first() =~= sa.skip(i + 1));
            assert(sb.skip(i as int).drop_first() =~= sb.skip(i + 1));
        }
        i += 1;
    }
}

/// Compares identifiers by their UTF-8 bytes.
fn order_ids(a: &String, b: &String) -> (r: i8)
    ensures
        r == int_seq_order(id_bytes(a@), id_bytes(b@)),
{
    let ab = a.as_str().as_bytes();
    let bb = b.as_str().as_bytes();
    order_bytes(ab, bb)
}

/// Compares two trips in layout order (see [`entry_order`]).
fn order_records(a: &TripRecord, b: &TripRecord) -> (r: i8)
    ensures
        r == entry_order(a@, b@),
{
    let r = order_ids(&a.route_id, &b.route_id);
    if r != 0 {
        return r;
    }
    let p = order_patterns(&a.pattern, &b.pattern);
    if p != 0 {
        return p;
    }
    if a.first_departure < b.first_departure {
        -1
    } else if a.first_departure > b.first_departure {
        1
    } else {
        order_ids(&a.trip_id, &b.trip_id)
    }
}

/// The sign of an ordering.
pub open spec fn ordering_sign(o: std::cmp::Ordering) -> int {
    match o {
        std::cmp::Ordering::Less => -1,
        std::cmp::Ordering::Equal => 0,
        std::cmp::Ordering::Greater => 1,
    }
}

/// Compares two trips in layout order, as an ordering.
fn compare_records(a: &TripRecord, b: &TripRecord) -> (r: std::cmp::Ordering)
    ensures
        ordering_sign(r) == if entry_order(a@, b@) < 0 {
            -1int
        } else if entry_order(a@, b@) > 0 {
            1int
        } else {
            0int
        },
{
    let o = order_records(a, b);
    if o < 0 {
        std::cmp::Ordering::Less
    } else if o > 0 {
        std::cmp::Ordering::Greater
    } else {
        std::cmp::Ordering::Equal
    }
}

/// The records at the listed positions come in layout order.
pub open spec fn positions_in_order(order: Seq<usize>, records: Seq<TripRecord>) -> bool {
    forall|i: int, j: int|
        0 <= i < j < order.len() ==> entry_order(records[#[trigger] order[i] as int]@, records[#[trigger] order[j] as int]@) <= 0
}

/// `slice::sort_by` on positions of trip records, comparing the records
/// with [`compare_records`]: the same positions, in layout order.
#[verifier::external_body]
fn sort_record_positions(order: &mut Vec<usize>, records: &Vec<TripRecord>)
    requires
        forall|i: int| 0 <= i < old(order)@.len() ==> #[trigger] old(order)@[i] < records@.len(),
    ensures
        final(order)@.to_multiset() == old(order)@.to_multiset(),
        positions_in_order(final(order)@, records@),
{
    order.sort_by(|a, b| compare_records(&records[*a], &records[*b]));
}


/// A route's shape: its counts, slices and GTFS identifier.
pub struct RouteShape {
    pub num_trips: int,
    pub num_stops: int,
    pub stops_start: int,
    pub trips_start: int,
    pub route_id: Seq<char>,
}

/// The shape of a route.
pub open spec fn route_shape(r: Route) -> RouteShape {
    RouteShape {
        num_trips: r.num_trips as int,
        num_stops: r.num_stops as int,
        stops_start: r.stops_start as int,
        trips_start: r.trips_start as int,
        route_id: r.route_id@,
    }
}

/// The flat schedule of laid-out trips.
pub struct Layout {
    pub stop_times: Seq<StopTime>,
    pub route_stops: Seq<usize>,
    pub routes: Seq<RouteShape>,
    pub trips: Seq<Seq<Seq<char>>>,
}

/// Two trips belong to the same route: same GTFS route, same stop pattern.
pub open spec fn same_variant(a: TripEntry, b: TripEntry) -> bool {
    a.route_id == b.route_id && a.pattern == b.pattern
}

/// Lays out trips taken in layout order: a trip opens a new route unless it
/// has the route and pattern of the trip before it; each route's pattern
/// is appended to `route_stops` when it opens, and each trip's schedule
/// entries (see [`schedule_entry`]) to `stop_times`; `groups[g]` holds the
/// stop times of group `g`.
pub open spec fn layout(entries: Seq<TripEntry>, groups: Seq<Seq<FeedStopTime>>) -> Layout
    decreases entries.len(),
{
    if entries.len() == 0 {
        Layout { stop_times: Seq::empty(), route_stops: Seq::empty(), routes: Seq::empty(), trips: Seq::empty() }
    } else {
        let prev = layout(entries.drop_last(), groups);
        let e = entries.last();
        let schedule = groups[e.group].map_values(|st: FeedStopTime| schedule_entry(st));
        if entries.len() > 1 && same_variant(entries[entries.len() - 2], e) {
            let last = prev.routes.last();
            Layout {
                stop_times: prev.stop_times + schedule,
                route_stops: prev.route_stops,
                routes: prev.routes.update(
                    prev.routes.len() - 1,
                    RouteShape {
                        num_trips: last.num_trips + 1,
                        num_stops: last.num_stops,
                        stops_start: last.stops_start,
                        trips_start: last.trips_start,
                        route_id: last.route_id,
                    },
                ),
                trips: prev.trips.update(prev.trips.len() - 1, prev.trips.last().push(e.trip_id)),
            }
        } else {
            Layout {
                stop_times: prev.stop_times + schedule,
                route_stops: prev.route_stops + e.pattern,
                routes: prev.routes.push(
                    RouteShape {
                        num_trips: 1,
                        num_stops: e.pattern.len() as int,
                        stops_start: prev.route_stops.len() as int,
                        trips_start: prev.stop_times.len() as int,
                        route_id: e.route_id,
                    },
                ),
                trips: prev.trips.push(seq![e.trip_id]),
            }
        }
    }
}

/// A layout opens a route with its first trip, and every route's pattern
/// lies inside `route_stops`.
pub proof fn lemma_layout_shape(entries: Seq<TripEntry>, groups: Seq<Seq<FeedStopTime>>)
    ensures
        entries.len() > 0 ==> layout(entries, groups).routes.len() > 0,
        layout(entries, groups).routes.len() == layout(entries, groups).trips.len(),
        forall|r: int|
            0 <= r < layout(entries, groups).routes.len() ==> {
                &&& 0 <= (#[trigger] layout(entries, groups).routes[r]).stops_start
                &&& layout(entries, groups).routes[r].stops_start + layout(entries, groups).routes[r].num_stops
                    <= layout(entries, groups).route_stops.len()
                &&& 1 <= layout(entries, groups).routes[r].num_trips <= entries.len()
                &&& layout(entries, groups).routes[r].num_stops >= 0
                &&& layout(entries, groups).routes[r].trips_start >= 0
            },
    decreases entries.len(),
{
    if entries.len() > 0 {
        lemma_layout_shape(entries.drop_last(), groups);
    }
}

/// `order` lists every trip entry's position once, in layout order.
pub open spec fn sorted_positions(order: Seq<usize>, entries: Seq<TripEntry>) -> bool {
    &&& order.to_multiset() == Seq::new(entries.len(), |i: int| i as usize).to_multiset()
    &&& forall|i: int, j: int| 0 <= i < j < order.len() ==> entry_order(entries[#[trigger] order[i] as int], entries[#[trigger] order[j] as int]) <= 0
}

/// The entries at the listed positions.
pub open spec fn entries_at(order: Seq<usize>, entries: Seq<TripEntry>) -> Seq<TripEntry> {
    order.map_values(|k: usize| entries[k as int])
}

/// The outputs of [`process_trip_stop_times`] are the layout of the trip
/// entries in the given order.
pub open spec fn laid_out_as(
    order: Seq<usize>,
    entries: Seq<TripEntry>,
    groups: Seq<Seq<FeedStopTime>>,
    stop_times: Seq<StopTime>,
    route_stops: Seq<usize>,
    routes: Seq<Route>,
    trips: Seq<Vec<Trip>>,
) -> bool {
    let l = layout(entries_at(order, entries), groups);
    &&& stop_times == l.stop_times
    &&& route_stops == l.route_stops
    &&& routes.map_values(|r: Route| route_shape(r)) == l.routes
    &&& trip_id_rows(trips) == l.trips
}

/// The identifiers of a row of trips.
pub open spec fn trip_ids_of(row: Seq<Trip>) -> Seq<Seq<char>> {
    row.map_values(|t: Trip| t.trip_id@)
}

/// The identifiers of each row of trips.
pub open spec fn trip_id_rows(trips: Seq<Vec<Trip>>) -> Seq<Seq<Seq<char>>> {
    trips.map_values(|row: Vec<Trip>| trip_ids_of(row@))
}

/// Adds a trip to the last route.
fn count_trip_in_last_route(routes: &mut Vec<Route>)
    requires
        old(routes)@.len() > 0,
        old(routes)@.last().num_trips < usize::MAX,
    ensures
        final(routes)@.len() == old(routes)@.len(),
        forall|r: int| 0 <= r < old(routes)@.len() - 1 ==> #[trigger] final(routes)@[r] == old(routes)@[r],
        route_shape(final(routes)@.last()) == (RouteShape { num_trips: old(routes)@.last().num_trips + 1, ..route_shape(old(routes)@.last()) }),
{
    let last = routes.len() - 1;
    routes[last].num_trips = routes[last].num_trips + 1;
}

/// Adds a trip to the last row of trip metadata.
fn push_trip_to_last_row(trips: &mut Vec<Vec<Trip>>, trip: Trip)
    requires
        old(trips)@.len() > 0,
    ensures
        final(trips)@.len() == old(trips)@.len(),
        forall|r: int| 0 <= r < old(trips)@.len() - 1 ==> #[trigger] final(trips)@[r] == old(trips)@[r],
        final(trips)@.last()@ == old(trips)@.last()@.push(trip),
{
    let last = trips.len() - 1;
    trips[last].push(trip);
}

/// Appends the schedule entries of one trip's stop times.
fn append_schedule(sts: &Vec<FeedStopTime>, stop_times: &mut Vec<StopTime>)
    ensures
        final(stop_times)@ == old(stop_times)@ + sts@.map_values(|st: FeedStopTime| schedule_entry(st)),
{
    let ghost start = stop_times@;
    let mut k: usize = 0;
    while k < sts.len()
        invariant
            k <= sts@.len(),
            stop_times@ == start + sts@.take(k as int).map_values(|st: FeedStopTime| schedule_entry(st)),
        decreases sts@.len() - k,
    {
        let st = &sts[k];
        let arrival = if st.stop_sequence == 0 {
            st.departure_time
        } else {
            st.arrival_time
        };
        stop_times.push(StopTime { arrival, departure: st.departure_time });
        k += 1;
        assert(sts@.take(k as int).map_values(|st: FeedStopTime| schedule_entry(st)) =~= sts@.take(k - 1).map_values(
            |st: FeedStopTime| schedule_entry(st),
        ).push(schedule_entry(sts@[k - 1])));
    }
    assert(sts@.take(k as int) =~= sts@);
}

/// Whether two trips belong to the same route.
fn same_variant_of(a: &TripRecord, b: &TripRecord) -> (r: bool)
    ensures
        r == same_variant(a@, b@),
{
    if a.route_id != b.route_id || a.pattern.len() != b.pattern.len() {
        return false;
    }
    let mut i: usize = 0;
    while i < a.pattern.len()
        invariant
            a.pattern@.len() == b.pattern@.len(),
            i <= a.pattern@.len(),
            a.route_id@ == b.route_id@,
            forall|k: int| 0 <= k < i ==> a.pattern@[k] == b.pattern@[k],
        decreases a.pattern@.len() - i,
    {
        if a.pattern[i] != b.pattern[i] {
            return false;
        }
        i += 1;
    }
    assert(a.pattern@ =~= b.pattern@);
    true
}


/// Trip entries name groups that exist, and start with their first
/// departure.
proof fn lemma_trip_entries_groups(
    stops: Seq<FeedStop>,
    trips: Seq<FeedTrip>,
    groups: Seq<(String, Vec<FeedStopTime>)>,
    n: int,
)
    requires
        n <= groups.len(),
    ensures
        forall|i: int| 0 <= i < trip_entries(stops, trips, groups, n).len() ==> 0 <= (#[trigger] trip_entries(stops, trips, groups, n)[i]).group < n,
        trip_entries(stops, trips, groups, n).len() <= if n < 0 { 0 } else { n },
    decreases n,
{
    if n > 0 {
        lemma_trip_entries_groups(stops, trips, groups, n - 1);
    }
}

/// The stop time lists of the trip groups.
pub open spec fn group_lists(groups: Seq<(String, Vec<FeedStopTime>)>) -> Seq<Seq<FeedStopTime>> {
    groups.map_values(|g: (String, Vec<FeedStopTime>)| g.1@)
}

/// A position listed in a permutation of `0..n` is below `n`.
proof fn lemma_listed_position_in_range(order: Seq<usize>, n: nat, i: int)
    requires
        order.to_multiset() == Seq::new(n, |k: int| k as usize).to_multiset(),
        0 <= i < order.len(),
    ensures
        order[i] < n,
{
    let ident = Seq::new(n, |k: int| k as usize);
    vstd::seq_lib::to_multiset_contains(order, order[i]);
    vstd::seq_lib::to_multiset_contains(ident, order[i]);
    assert(order.contains(order[i]));
    assert(ident.contains(order[i]));
    let j = choose|j: int| 0 <= j < ident.len() && ident[j] == order[i];
    assert(ident[j] == j as usize);
}

/// Lays out the trips of the feed into routes: the trip groups (each trip's
/// stop times, see [`group_stop_times_by_trip`]) with a known trip and only
/// known stops become trip entries (see [`trip_entry`]); these are put in
/// layout order (see [`entry_order`]) and laid out (see [`layout`]) into the
/// schedule, the route stop patterns, the routes and their trips.
pub fn process_trip_stop_times(
    stops: &Vec<FeedStop>,
    trips: &Vec<FeedTrip>,
    trip_stop_times: &Vec<(String, Vec<FeedStopTime>)>,
) -> (r: (Vec<StopTime>, Vec<usize>, Vec<Route>, Vec<Vec<Trip>>))
    requires
        forall|g: int| 0 <= g < trip_stop_times@.len() ==> (#[trigger] trip_stop_times@[g]).1@.len() > 0,
    ensures
        exists|order: Seq<usize>|
            sorted_positions(order, trip_entries(stops@, trips@, trip_stop_times@, trip_stop_times@.len() as int)) && #[trigger] laid_out_as(
                order,
                trip_entries(stops@, trips@, trip_stop_times@, trip_stop_times@.len() as int),
                group_lists(trip_stop_times@),
                r.0@,
                r.1@,
                r.2@,
                r.3@,
            ),
        crate::gtfs::patterns_fit(r.2@, r.1@),
{
    let ghost groups_view = group_lists(trip_stop_times@);
    let ghost n_groups = trip_stop_times@.len() as int;
    let stop_ids = feed_stop_index(stops);
    let trip_ids = feed_trip_index(trips);
    let mut records: Vec<TripRecord> = Vec::new();
    let mut g: usize = 0;
    while g < trip_stop_times.len()
        invariant
            g <= trip_stop_times@.len(),
            forall|gg: int| 0 <= gg < trip_stop_times@.len() ==> (#[trigger] trip_stop_times@[gg]).1@.len() > 0,
            forall|id: Seq<char>| #[trigger] lookup(stop_id_entries(stop_ids), id) == last_stop_index(stops@, id),
            forall|id: Seq<char>| #[trigger] lookup(stop_id_entries(trip_ids), id) == last_trip_index(trips@, id),
            records@.map_values(|r: TripRecord| r@) == trip_entries(stops@, trips@, trip_stop_times@, g as int),
        decreases trip_stop_times@.len() - g,
    {
        let group = &trip_stop_times[g];
        proof {
            assert(lookup(stop_id_entries(trip_ids), group.0@) == last_trip_index(trips@, group.0@));
            lemma_last_trip_index_in_range(trips@, group.0@);
        }
        let ghost before = records@;
        match trip_ids.get(group.0.as_str()) {
            Some(t) => {
                match stop_pattern_of(&stop_ids, &group.1, Ghost(stops@)) {
                    Some(pattern) => {
                        let record = TripRecord {
                            route_id: trips[t].route_id.clone(),
                            pattern,
                            first_departure: group.1[0].departure_time,
                            trip_id: trips[t].trip_id.clone(),
                            group: g,
                        };
                        records.push(record);
                        assert(records@.map_values(|r: TripRecord| r@) =~= before.map_values(|r: TripRecord| r@).push(records@.last()@));
                    },
                    None => {},
                }
            },
            None => {},
        }
        g += 1;
    }
    let ghost entries = trip_entries(stops@, trips@, trip_stop_times@, n_groups);
    proof {
        lemma_trip_entries_groups(stops@, trips@, trip_stop_times@, n_groups);
    }
    let n = records.len();
    let mut order: Vec<usize> = Vec::new();
    let mut i: usize = 0;
    while i < n
        invariant
            i <= n,
            n == records@.len(),
            order@ == Seq::new(i as nat, |k: int| k as usize),
        decreases n - i,
    {
        order.push(i);
        i += 1;
        assert(order@ =~= Seq::new(i as nat, |k: int| k as usize));
    }
    sort_record_positions(&mut order, &records);
    proof {
        assert forall|x: int| 0 <= x < order@.len() implies #[trigger] order@[x] < n by {
            lemma_listed_position_in_range(order@, n as nat, x);
        }
        assert forall|x: int| 0 <= x < n implies #[trigger] records@[x]@ == entries[x] by {
            assert(records@.map_values(|r: TripRecord| r@)[x] == records@[x]@);
        }
        assert(sorted_positions(order@, entries));
        vstd::seq_lib::to_multiset_len(order@);
        vstd::seq_lib::to_multiset_len(Seq::new(n as nat, |k: int| k as usize));
    }
    let mut stop_times: Vec<StopTime> = Vec::new();
    let mut route_stops: Vec<usize> = Vec::new();
    let mut routes: Vec<Route> = Vec::new();
    let mut trips_vec: Vec<Vec<Trip>> = Vec::new();
    proof {
        assert(entries_at(order@.take(0), entries) =~= Seq::<TripEntry>::empty());
        assert(routes@.map_values(|r: Route| route_shape(r)) =~= Seq::<RouteShape>::empty());
        assert(trip_id_rows(trips_vec@) =~= Seq::<Seq<Seq<char>>>::empty());
        assert(stop_times@ =~= Seq::<StopTime>::empty());
        assert(route_stops@ =~= Seq::<usize>::empty());
    }
    let mut k: usize = 0;
    while k < order.len()
        invariant
            k <= order@.len(),
            order@.len() == n,
            n == records@.len(),
            n == entries.len(),
            entries == trip_entries(stops@, trips@, trip_stop_times@, n_groups),
            n_groups == trip_stop_times@.len(),
            groups_view == group_lists(trip_stop_times@),
            forall|x: int| 0 <= x < order@.len() ==> #[trigger] order@[x] < n,
            forall|x: int| 0 <= x < n ==> #[trigger] records@[x]@ == entries[x],
            forall|x: int| 0 <= x < entries.len() ==> 0 <= (#[trigger] entries[x]).group < n_groups,
            laid_out_as(order@.take(k as int), entries, groups_view, stop_times@, route_stops@, routes@, trips_vec@),
            sorted_positions(order@, entries),
        decreases order@.len() - k,
    {
        let pos = order[k];
        let record = &records[pos];
        let ghost prefix = entries_at(order@.take(k as int), entries);
        let ghost prefix1 = entries_at(order@.take(k + 1), entries);
        proof {
            assert(prefix1 =~= prefix.push(entries[pos as int]));
            assert(prefix1.drop_last() =~= prefix);
            assert(prefix1.last() == record@);
            lemma_layout_shape(prefix, groups_view);
            assert(routes@.map_values(|r: Route| route_shape(r)).len() == routes@.len());
            assert(trip_id_rows(trips_vec@).len() == trips_vec@.len());
        }
        let new_route = if k == 0 {
            true
        } else {
            let prev = &records[order[k - 1]];
            proof {
                assert(prefix1[prefix1.len() - 2] == entries[order@[k - 1] as int]);
            }
            !same_variant_of(prev, record)
        };
        let ghost old_routes = routes@;
        let ghost old_trips = trips_vec@;
        let ghost old_route_stops = route_stops@;
        let ghost old_stop_times = stop_times@;
        if new_route {
            routes.push(
                Route {
                    num_trips: 1,
                    num_stops: record.pattern.len(),
                    stops_start: route_stops.len(),
                    trips_start: stop_times.len(),
                    route_id: record.route_id.clone(),
                },
            );
            let mut q: usize = 0;
            while q < record.pattern.len()
                invariant
                    q <= record.pattern@.len(),
                    route_stops@ == old_route_stops + record.pattern@.take(q as int),
                decreases record.pattern@.len() - q,
            {
                route_stops.push(record.pattern[q]);
                q += 1;
                assert(route_stops@ =~= old_route_stops + record.pattern@.take(q as int));
            }
            assert(record.pattern@.take(q as int) =~= record.pattern@);
            let mut row: Vec<Trip> = Vec::new();
            row.push(Trip { trip_id: record.trip_id.clone() });
            proof {
                assert(trip_ids_of(row@) =~= seq![record.trip_id@]);
            }
            trips_vec.push(row);
            proof {
                assert(routes@.map_values(|r: Route| route_shape(r)) =~= old_routes.map_values(|r: Route| route_shape(r)).push(
                    route_shape(routes@.last()),
                ));
                assert(trip_id_rows(trips_vec@) =~= trip_id_rows(old_trips).push(seq![record.trip_id@]));
            }
        } else {
            proof {
                assert(routes@.len() > 0);
                assert(route_shape(routes@.last()) == layout(prefix, groups_view).routes.last());
                assert(routes@.last().num_trips <= prefix.len());
            }
            count_trip_in_last_route(&mut routes);
            let trip = Trip { trip_id: record.trip_id.clone() };
            assert(trip.trip_id@ == record.trip_id@);
            push_trip_to_last_row(&mut trips_vec, trip);
            proof {
                assert(trip_ids_of(trips_vec@.last()@) =~= trip_ids_of(old_trips.last()@).push(
                    record.trip_id@,
                ));
                assert forall|x: int| 0 <= x < trips_vec@.len() - 1 implies #[trigger] trip_ids_of(trips_vec@[x]@)
                    == trip_ids_of(old_trips[x]@) by {
                    assert(trips_vec@[x] == old_trips[x]);
                }
                assert(routes@.map_values(|r: Route| route_shape(r)) =~= layout(prefix1, groups_view).routes);
                assert(trip_id_rows(trips_vec@) =~= layout(prefix1, groups_view).trips);
            }
        }
        proof {
            assert(trip_stop_times@[record.group as int].1@ == groups_view[record@.group]);
        }
        append_schedule(&trip_stop_times[record.group].1, &mut stop_times);
        k += 1;
    }
    proof {
        assert(order@.take(k as int) =~= order@);
        lemma_layout_shape(entries_at(order@, entries), groups_view);
        assert forall|x: int| 0 <= x < routes@.len() implies #[trigger] routes@[x].stops_start + routes@[x].num_stops <= route_stops@.len() by {
            assert(route_shape(routes@[x]) == layout(entries_at(order@, entries), groups_view).routes[x]);
        }
    }
    let r = (stop_times, route_stops, routes, trips_vec);
    assert(laid_out_as(
            order@,
            trip_entries(stops@, trips@, trip_stop_times@, trip_stop_times@.len() as int),
            group_lists(trip_stop_times@),
            r.0@,
            r.1@,
            r.2@,
            r.3@,
        ));
    r
}


/// `groups` holds each trip's stop times as [`group_stop_times_by_trip`]
/// makes them, in some order.
pub open spec fn groups_stop_times(groups: Seq<(String, Vec<FeedStopTime>)>, stop_times: Seq<FeedStopTime>) -> bool {
    &&& forall|g: int| 0 <= g < groups.len() ==> (#[trigger] groups[g]).1@ == by_sequence(stop_times_of_trip(stop_times, groups[g].0@))
    &&& forall|g: int| 0 <= g < groups.len() ==> (#[trigger] groups[g]).1@.len() > 0
    &&& forall|g: int, h: int| 0 <= g < h < groups.len() ==> (#[trigger] groups[g]).0@ != (#[trigger] groups[h]).0@
    &&& forall|i: int| 0 <= i < stop_times.len() ==> #[trigger] has_group(groups, stop_times[i].trip_id@)
}

/// The schedule, patterns, routes and trips are the layout of the trips of
/// `groups` (see [`process_trip_stop_times`]).
pub open spec fn trips_laid_out(
    stops: Seq<FeedStop>,
    trips: Seq<FeedTrip>,
    groups: Seq<(String, Vec<FeedStopTime>)>,
    stop_times: Seq<StopTime>,
    route_stops: Seq<usize>,
    routes: Seq<Route>,
    trip_rows: Seq<Vec<Trip>>,
) -> bool {
    exists|order: Seq<usize>|
        sorted_positions(order, trip_entries(stops, trips, groups, groups.len() as int)) && #[trigger] laid_out_as(
            order,
            trip_entries(stops, trips, groups, groups.len() as int),
            group_lists(groups),
            stop_times,
            route_stops,
            routes,
            trip_rows,
        )
}


/// Lexicographic order of integer sequences is antisymmetric and
/// transitive, and only equal sequences tie.
pub proof fn lemma_int_seq_order(a: Seq<int>, b: Seq<int>, c: Seq<int>)
    ensures
        int_seq_order(a, b) == -int_seq_order(b, a),
        int_seq_order(a, b) == 0 ==> a == b,
        int_seq_order(a, b) <= 0 && int_seq_order(b, c) <= 0 ==> int_seq_order(a, c) <= 0,
        -1 <= int_seq_order(a, b) <= 1,
    decreases a.len(),
{
    if a.len() > 0 && b.len() > 0 && c.len() > 0 {
        lemma_int_seq_order(a.drop_first(), b.drop_first(), c.drop_first());
    } else if a.len() > 0 && b.len() > 0 {
        lemma_int_seq_order(a.drop_first(), b.drop_first(), c);
    }
    if a.len() > 0 && b.len() > 0 && a[0] == b[0] && int_seq_order(a, b) == 0 {
        assert(a =~= seq![a[0]] + a.drop_first());
        assert(b =~= seq![b[0]] + b.drop_first());
    }
    if a.len() == 0 && b.len() == 0 {
        assert(a =~= b);
    }
}

/// The layout order of trips is a total preorder: antisymmetric, transitive,
/// and tying only trips with the same route, pattern, first departure and
/// identifier. Sorting by it is therefore well defined.
pub proof fn law_layout_order_total(a: TripEntry, b: TripEntry, c: TripEntry)
    ensures
        entry_order(a, b) == -entry_order(b, a),
        entry_order(a, b) <= 0 && entry_order(b, c) <= 0 ==> entry_order(a, c) <= 0,
        entry_order(a, b) == 0 ==> id_bytes(a.route_id) == id_bytes(b.route_id) && pattern_ints(a.pattern) == pattern_ints(b.pattern)
            && a.first_departure == b.first_departure && id_bytes(a.trip_id) == id_bytes(b.trip_id),
{
    lemma_int_seq_order(id_bytes(a.route_id), id_bytes(b.route_id), id_bytes(c.route_id));
    lemma_int_seq_order(id_bytes(b.route_id), id_bytes(c.route_id), id_bytes(a.route_id));
    lemma_int_seq_order(id_bytes(a.route_id), id_bytes(c.route_id), id_bytes(b.route_id));
    lemma_int_seq_order(pattern_ints(a.pattern), pattern_ints(b.pattern), pattern_ints(c.pattern));
    lemma_int_seq_order(pattern_ints(b.pattern), pattern_ints(c.pattern), pattern_ints(a.pattern));
    lemma_int_seq_order(pattern_ints(a.pattern), pattern_ints(c.pattern), pattern_ints(b.pattern));
    lemma_int_seq_order(id_bytes(a.trip_id), id_bytes(b.trip_id), id_bytes(c.trip_id));
    lemma_int_seq_order(id_bytes(b.trip_id), id_bytes(c.trip_id), id_bytes(a.trip_id));
    lemma_int_seq_order(id_bytes(a.trip_id), id_bytes(c.trip_id), id_bytes(b.trip_id));
}

/// The stop pattern a laid-out route holds in `route_stops`.
pub open spec fn route_pattern(l: Layout, r: int) -> Seq<usize> {
    l.route_stops.subrange(l.routes[r].stops_start, l.routes[r].stops_start + l.routes[r].num_stops)
}

/// Every trip of a laid-out route is a trip entry with exactly that route's
/// stop pattern and GTFS route; the last route holds the last entry's.
pub proof fn lemma_layout_patterns(entries: Seq<TripEntry>, groups: Seq<Seq<FeedStopTime>>)
    ensures
        forall|r: int, k: int|
            0 <= r < layout(entries, groups).routes.len() && 0 <= k < layout(entries, groups).trips[r].len() ==> exists|i: int|
                0 <= i < entries.len() && (#[trigger] entries[i]).trip_id == #[trigger] layout(entries, groups).trips[r][k]
                    && entries[i].pattern == route_pattern(layout(entries, groups), r) && entries[i].route_id == layout(
                    entries,
                    groups,
                ).routes[r].route_id,
        entries.len() > 0 ==> route_pattern(layout(entries, groups), layout(entries, groups).routes.len() - 1) == entries.last().pattern
            && layout(entries, groups).routes.last().route_id == entries.last().route_id,
    decreases entries.len(),
{
    if entries.len() > 0 {
        let prev_entries = entries.drop_last();
        lemma_layout_patterns(prev_entries, groups);
        lemma_layout_shape(prev_entries, groups);
        lemma_layout_shape(entries, groups);
        let prev = layout(prev_entries, groups);
        let l = layout(entries, groups);
        let e = entries.last();
        let n = entries.len();
        if n > 1 && same_variant(entries[n - 2], e) {
            assert(prev_entries.last() == entries[n - 2]);
            assert forall|r: int| 0 <= r < l.routes.len() implies #[trigger] route_pattern(l, r) == route_pattern(prev, r) by {
                assert(l.route_stops == prev.route_stops);
            }
            assert forall|r: int, k: int| 0 <= r < l.routes.len() && 0 <= k < l.trips[r].len() implies exists|i: int|
                0 <= i < entries.len() && (#[trigger] entries[i]).trip_id == #[trigger] l.trips[r][k] && entries[i].pattern == route_pattern(l, r)
                    && entries[i].route_id == l.routes[r].route_id by {
                assert(route_pattern(l, r) == route_pattern(prev, r));
                if r == l.routes.len() - 1 && k == l.trips[r].len() - 1 {
                    assert(l.trips[r][k] == e.trip_id);
                    assert(entries[n - 1] == e);
                } else {
                    assert(l.trips[r][k] == prev.trips[r][k]);
                    let i = choose|i: int|
                        0 <= i < prev_entries.len() && (#[trigger] prev_entries[i]).trip_id == #[trigger] prev.trips[r][k] && prev_entries[i].pattern
                            == route_pattern(prev, r) && prev_entries[i].route_id == prev.routes[r].route_id;
                    assert(entries[i] == prev_entries[i]);
                }
            }
        } else {
            assert forall|r: int| 0 <= r < prev.routes.len() implies #[trigger] route_pattern(l, r) == route_pattern(prev, r) by {
                assert(l.routes[r] == prev.routes[r]);
                assert(route_pattern(l, r) =~= route_pattern(prev, r));
            }
            let last = l.routes.len() - 1;
            assert(route_pattern(l, last) =~= e.pattern);
            assert forall|r: int, k: int| 0 <= r < l.routes.len() && 0 <= k < l.trips[r].len() implies exists|i: int|
                0 <= i < entries.len() && (#[trigger] entries[i]).trip_id == #[trigger] l.trips[r][k] && entries[i].pattern == route_pattern(l, r)
                    && entries[i].route_id == l.routes[r].route_id by {
                if r == last {
                    assert(l.trips[r][k] == e.trip_id);
                    assert(entries[n - 1] == e);
                } else {
                    assert(route_pattern(l, r) == route_pattern(prev, r));
                    assert(l.trips[r] == prev.trips[r]);
                    let i = choose|i: int|
                        0 <= i < prev_entries.len() && (#[trigger] prev_entries[i]).trip_id == #[trigger] prev.trips[r][k] && prev_entries[i].pattern
                            == route_pattern(prev, r) && prev_entries[i].route_id == prev.routes[r].route_id;
                    assert(entries[i] == prev_entries[i]);
                }
            }
        }
    }
}

/// Routes are split by whole stop pattern: in the laid-out model, every
/// trip of a route is a trip of the input whose full mapped stop sequence
/// is exactly the route's pattern in `route_stops`, of that GTFS route; so
/// two trips share a route only if their whole patterns are equal.
pub proof fn law_route_trips_share_its_pattern(
    order: Seq<usize>,
    entries: Seq<TripEntry>,
    groups: Seq<Seq<FeedStopTime>>,
    stop_times: Seq<StopTime>,
    route_stops: Seq<usize>,
    routes: Seq<Route>,
    trips: Seq<Vec<Trip>>,
)
    requires
        laid_out_as(order, entries, groups, stop_times, route_stops, routes, trips),
        forall|i: int| 0 <= i < order.len() ==> #[trigger] order[i] < entries.len(),
    ensures
        forall|r: int, k: int|
            0 <= r < routes.len() && 0 <= k < trips[r]@.len() ==> exists|i: int|
                0 <= i < entries.len() && (#[trigger] entries[i]).trip_id == (#[trigger] trips[r]@[k]).trip_id@ && entries[i].pattern
                    == route_stops.subrange(routes[r].stops_start as int, routes[r].stops_start + routes[r].num_stops) && entries[i].route_id
                    == routes[r].route_id@,
{
    let at = entries_at(order, entries);
    let l = layout(at, groups);
    lemma_layout_patterns(at, groups);
    lemma_layout_shape(at, groups);
    assert forall|r: int, k: int| 0 <= r < routes.len() && 0 <= k < trips[r]@.len() implies exists|i: int|
        0 <= i < entries.len() && (#[trigger] entries[i]).trip_id == (#[trigger] trips[r]@[k]).trip_id@ && entries[i].pattern
            == route_stops.subrange(routes[r].stops_start as int, routes[r].stops_start + routes[r].num_stops) && entries[i].route_id
            == routes[r].route_id@ by {
        assert(routes.map_values(|x: Route| route_shape(x))[r] == l.routes[r]);
        assert(trip_id_rows(trips)[r] == l.trips[r]);
        assert(trip_ids_of(trips[r]@)[k] == l.trips[r][k]);
        let i = choose|i: int|
            0 <= i < at.len() && (#[trigger] at[i]).trip_id == #[trigger] l.trips[r][k] && at[i].pattern == route_pattern(l, r)
                && at[i].route_id == l.routes[r].route_id;
        assert(at[i] == entries[order[i] as int]);
        assert(entries[order[i] as int].trip_id == trips[r]@[k].trip_id@);
    }
}

} // verus!
