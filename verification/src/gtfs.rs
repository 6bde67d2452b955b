//! Building the flat public transit model from GTFS tables: concatenating
//! feeds, keeping the services that run on a date, grouping trips into
//! routes by stop pattern, and indexing the routes through each stop.
use vstd::prelude::*;

use crate::collections::{routes_by_stop_entries, RoutesByStop};
use crate::types::{Coordinate, FeedInfo, FeedMeta, FeedTransfer, RaptorStopId, Route, RouteId, Stop, StopTime, Time, Trip};

verus! {

/// A row of GTFS `stops.txt`.
#[derive(Debug, Clone)]
pub struct FeedStop {
    pub stop_id: String,
    /// `stop_lon` and `stop_lat`.
    pub location: Coordinate,
}

/// A row of GTFS `trips.txt`.
#[derive(Debug, Clone)]
pub struct FeedTrip {
    pub route_id: String,
    pub service_id: String,
    pub trip_id: String,
}

/// A row of GTFS `stop_times.txt`, times in seconds since midnight.
#[derive(Debug, Clone)]
pub struct FeedStopTime {
    pub trip_id: String,
    pub arrival_time: Time,
    pub departure_time: Time,
    pub stop_id: String,
    pub stop_sequence: u32,
}

/// A row of GTFS `calendar.txt`: `"1"` on the weekdays the service runs.
#[derive(Debug, Clone)]
pub struct FeedService {
    pub service_id: String,
    pub monday: String,
    pub tuesday: String,
    pub wednesday: String,
    pub thursday: String,
    pub friday: String,
    pub saturday: String,
    pub sunday: String,
}

/// A date, as its day number in the proleptic Gregorian calendar with
/// January 1 of year 1 as day 1.
#[derive(Debug, Clone, Copy, PartialEq, Eq, Structural)]
pub struct ServiceDate {
    pub days_from_ce: i32,
}

/// A row of GTFS `calendar_dates.txt`: exception type 1 adds the service on
/// the date, 2 removes it.
#[derive(Debug, Clone)]
pub struct FeedCalendarDates {
    pub service_id: String,
    pub date: Option<ServiceDate>,
    pub exception_type: u8,
}

/// The GTFS tables as read, from one or more feeds.
pub struct RawGTFSData {
    pub stops: Vec<FeedStop>,
    pub trips: Vec<FeedTrip>,
    pub stop_times: Vec<FeedStopTime>,
    pub services: Vec<FeedService>,
    pub feed_info: Vec<FeedInfo>,
    pub calendar_dates: Vec<FeedCalendarDates>,
    pub transfers: Vec<FeedTransfer>,
}

/// The tables read from all feeds, each the feeds' tables one after another
/// in feed order.
pub fn load_raw_feed(feeds: Vec<RawGTFSData>) -> (r: RawGTFSData)
    ensures
        r.stops@ == feeds@.map_values(|f: RawGTFSData| f.stops@).flatten(),
        r.trips@ == feeds@.map_values(|f: RawGTFSData| f.trips@).flatten(),
        r.stop_times@ == feeds@.map_values(|f: RawGTFSData| f.stop_times@).flatten(),
        r.services@ == feeds@.map_values(|f: RawGTFSData| f.services@).flatten(),
        r.feed_info@ == feeds@.map_values(|f: RawGTFSData| f.feed_info@).flatten(),
        r.calendar_dates@ == feeds@.map_values(|f: RawGTFSData| f.calendar_dates@).flatten(),
        r.transfers@ == feeds@.map_values(|f: RawGTFSData| f.transfers@).flatten(),
{
    let ghost all = feeds@;
    let mut feeds = feeds;
    let mut stops: Vec<FeedStop> = Vec::new();
    let mut trips: Vec<FeedTrip> = Vec::new();
    let mut stop_times: Vec<FeedStopTime> = Vec::new();
    let mut services: Vec<FeedService> = Vec::new();
    let mut feed_info: Vec<FeedInfo> = Vec::new();
    let mut calendar_dates: Vec<FeedCalendarDates> = Vec::new();
    let mut transfers: Vec<FeedTransfer> = Vec::new();
    let ghost mut i: int = 0;
    while feeds.len() > 0
        invariant
            0 <= i <= all.len(),
            feeds@ == all.subrange(i, all.len() as int),
            stops@ == all.take(i).map_values(|f: RawGTFSData| f.stops@).flatten(),
            trips@ == all.take(i).map_values(|f: RawGTFSData| f.trips@).flatten(),
            stop_times@ == all.take(i).map_values(|f: RawGTFSData| f.stop_times@).flatten(),
            services@ == all.take(i).map_values(|f: RawGTFSData| f.services@).flatten(),
            feed_info@ == all.take(i).map_values(|f: RawGTFSData| f.feed_info@).flatten(),
            calendar_dates@ == all.take(i).map_values(|f: RawGTFSData| f.calendar_dates@).flatten(),
            transfers@ == all.take(i).map_values(|f: RawGTFSData| f.transfers@).flatten(),
        decreases feeds@.len(),
    {
        let mut feed = feeds.remove(0);
        proof {
            let t = all.take(i);
            let t1 = all.take(i + 1);
            assert(feed == all[i]);
            assert(t1 =~= t.push(all[i]));
            assert(t1.map_values(|f: RawGTFSData| f.stops@) =~= t.map_values(|f: RawGTFSData| f.stops@).push(feed.stops@));
            t.map_values(|f: RawGTFSData| f.stops@).lemma_flatten_push(feed.stops@);
            assert(t1.map_values(|f: RawGTFSData| f.trips@) =~= t.map_values(|f: RawGTFSData| f.trips@).push(feed.trips@));
            t.map_values(|f: RawGTFSData| f.trips@).lemma_flatten_push(feed.trips@);
            assert(t1.map_values(|f: RawGTFSData| f.stop_times@) =~= t.map_values(|f: RawGTFSData| f.stop_times@).push(
                feed.stop_times@,
            ));
            t.map_values(|f: RawGTFSData| f.stop_times@).lemma_flatten_push(feed.stop_times@);
            assert(t1.map_values(|f: RawGTFSData| f.services@) =~= t.map_values(|f: RawGTFSData| f.services@).push(feed.services@));
            t.map_values(|f: RawGTFSData| f.services@).lemma_flatten_push(feed.services@);
            assert(t1.map_values(|f: RawGTFSData| f.feed_info@) =~= t.map_values(|f: RawGTFSData| f.feed_info@).push(
                feed.feed_info@,
            ));
            t.map_values(|f: RawGTFSData| f.feed_info@).lemma_flatten_push(feed.feed_info@);
            assert(t1.map_values(|f: RawGTFSData| f.calendar_dates@) =~= t.map_values(|f: RawGTFSData| f.calendar_dates@).push(
                feed.calendar_dates@,
            ));
            t.map_values(|f: RawGTFSData| f.calendar_dates@).lemma_flatten_push(feed.calendar_dates@);
            assert(t1.map_values(|f: RawGTFSData| f.transfers@) =~= t.map_values(|f: RawGTFSData| f.transfers@).push(
                feed.transfers@,
            ));
            t.map_values(|f: RawGTFSData| f.transfers@).lemma_flatten_push(feed.transfers@);
        }
        stops.append(&mut feed.stops);
        trips.append(&mut feed.trips);
        stop_times.append(&mut feed.stop_times);
        services.append(&mut feed.services);
        feed_info.append(&mut feed.feed_info);
        calendar_dates.append(&mut feed.calendar_dates);
        transfers.append(&mut feed.transfers);
        proof {
            assert(feeds@ =~= all.subrange(i + 1, all.len() as int));
            i = i + 1;
        }
    }
    assert(all.take(i) =~= all);
    RawGTFSData { stops, trips, stop_times, services, feed_info, calendar_dates, transfers }
}

/// The schedule entry of a GTFS stop time: at the first stop of a trip
/// (sequence 0) the arrival is taken to be the departure.
pub open spec fn schedule_entry(st: FeedStopTime) -> StopTime {
    StopTime {
        arrival: if st.stop_sequence == 0 {
            st.departure_time
        } else {
            st.arrival_time
        },
        departure: st.departure_time,
    }
}

/// Appends the schedule entries of a group of trips, trip after trip, stop
/// after stop.
pub fn build_stop_times(group: &Vec<Vec<FeedStopTime>>, stop_times_vec: &mut Vec<StopTime>)
    ensures
        final(stop_times_vec)@ == old(stop_times_vec)@ + group@.map_values(
            |trip: Vec<FeedStopTime>| trip@.map_values(|st: FeedStopTime| schedule_entry(st)),
        ).flatten(),
{
    let ghost start = stop_times_vec@;
    let ghost rows = group@.map_values(|trip: Vec<FeedStopTime>| trip@.map_values(|st: FeedStopTime| schedule_entry(st)));
    let mut t: usize = 0;
    while t < group.len()
        invariant
            t <= group@.len(),
            rows == group@.map_values(|trip: Vec<FeedStopTime>| trip@.map_values(|st: FeedStopTime| schedule_entry(st))),
            stop_times_vec@ == start + rows.take(t as int).flatten(),
        decreases group@.len() - t,
    {
        let trip = &group[t];
        let ghost before = stop_times_vec@;
        let mut k: usize = 0;
        while k < trip.len()
            invariant
                t < group@.len(),
                trip == group@[t as int],
                k <= trip@.len(),
                stop_times_vec@ == before + trip@.take(k as int).map_values(|st: FeedStopTime| schedule_entry(st)),
            decreases trip@.len() - k,
        {
            let st = &trip[k];
            let arrival = if st.stop_sequence == 0 {
                st.departure_time
            } else {
                st.arrival_time
            };
            stop_times_vec.push(StopTime { arrival, departure: st.departure_time });
            k += 1;
            assert(trip@.take(k as int).map_values(|st: FeedStopTime| schedule_entry(st)) =~= trip@.take(k - 1).map_values(
                |st: FeedStopTime| schedule_entry(st),
            ).push(schedule_entry(trip@[k - 1])));
        }
        proof {
            assert(trip@.take(k as int) =~= trip@);
            assert(rows.take(t + 1) =~= rows.take(t as int).push(rows[t as int]));
            rows.take(t as int).lemma_flatten_push(rows[t as int]);
        }
        t += 1;
    }
    assert(rows.take(t as int) =~= rows);
}

/// The model stop of a GTFS stop, with empty route and transfer slices.
pub open spec fn model_stop(s: FeedStop) -> Stop {
    Stop {
        stop_id: s.stop_id,
        geometry: s.location,
        routes_start: 0,
        routes_len: 0,
        transfers_start: 0,
        transfers_len: 0,
    }
}

/// The model stops of the GTFS stops, in order.
pub fn create_stops_vector(stops: Vec<FeedStop>) -> (r: Vec<Stop>)
    ensures
        r@ == stops@.map_values(|s: FeedStop| model_stop(s)),
{
    let mut r: Vec<Stop> = Vec::new();
    let mut i: usize = 0;
    while i < stops.len()
        invariant
            i <= stops@.len(),
            r@ == stops@.take(i as int).map_values(|s: FeedStop| model_stop(s)),
        decreases stops@.len() - i,
    {
        let s = &stops[i];
        r.push(
            Stop {
                stop_id: s.stop_id.clone(),
                geometry: s.location,
                routes_start: 0,
                routes_len: 0,
                transfers_start: 0,
                transfers_len: 0,
            },
        );
        i += 1;
        assert(r@ =~= stops@.take(i as int).map_values(|s: FeedStop| model_stop(s)));
    }
    assert(stops@.take(i as int) =~= stops@);
    r
}


/// The grouped schedule of a feed, before the routes through each stop are
/// indexed.
pub struct ProcessedTransitData {
    pub stop_times: Vec<StopTime>,
    pub route_stops: Vec<usize>,
    pub routes: Vec<Route>,
    pub trips: Vec<Vec<Trip>>,
    pub stops: Vec<Stop>,
    pub feeds_meta: Vec<FeedMeta>,
    pub gtfs_transfers: Vec<FeedTransfer>,
}

/// Every route's stop pattern lies inside `route_stops`.
pub open spec fn patterns_fit(routes: Seq<Route>, route_stops: Seq<usize>) -> bool {
    forall|r: int| 0 <= r < routes.len() ==> #[trigger] routes[r].stops_start + routes[r].num_stops <= route_stops.len()
}

/// Route `r` calls at stop `s` among the first `upto` entries of its pattern
/// slice (from `stops_start` up to `upto`).
pub open spec fn calls_before(routes: Seq<Route>, route_stops: Seq<usize>, r: int, upto: int, s: RaptorStopId) -> bool {
    exists|k: int| routes[r].stops_start <= k < upto && #[trigger] route_stops[k] == s
}

/// Route `r` calls at stop `s`.
pub open spec fn route_serves(routes: Seq<Route>, route_stops: Seq<usize>, r: int, s: RaptorStopId) -> bool {
    0 <= r < routes.len() && calls_before(routes, route_stops, r, routes[r].stops_start + routes[r].num_stops, s)
}

/// The routes that call at stop `s`.
pub open spec fn routes_through(routes: Seq<Route>, route_stops: Seq<usize>, s: RaptorStopId) -> Set<usize> {
    Set::new(|r: usize| route_serves(routes, route_stops, r as int, s))
}

/// The routes below `ri` that call at `s`, and route `ri` if it calls at `s`
/// before pattern position `upto`.
pub open spec fn routes_seen(routes: Seq<Route>, route_stops: Seq<usize>, ri: int, upto: int, s: RaptorStopId) -> Set<usize> {
    Set::new(|r: usize| (r < ri && route_serves(routes, route_stops, r as int, s)) || (r == ri && calls_before(routes, route_stops, ri, upto, s)))
}

/// The stops of the model with their route slices laid out: each stop keeps
/// its identifier, position and transfer slice; its routes follow those of
/// the stop before it in `stop_routes`, and are the routes through it, in
/// increasing order.
pub open spec fn stop_routes_laid_out(
    before: Seq<Stop>,
    after: Seq<Stop>,
    stop_routes: Seq<RouteId>,
    routes: Seq<Route>,
    route_stops: Seq<usize>,
) -> bool {
    &&& after.len() == before.len()
    &&& forall|i: int| 0 <= i < after.len() ==> {
        &&& #[trigger] after[i].stop_id == before[i].stop_id
        &&& after[i].geometry == before[i].geometry
        &&& after[i].transfers_start == before[i].transfers_start
        &&& after[i].transfers_len == before[i].transfers_len
        &&& after[i].routes_start == if i == 0 { 0 } else { after[i - 1].routes_start + after[i - 1].routes_len }
        &&& after[i].routes_start + after[i].routes_len <= stop_routes.len()
        &&& forall|a: int, b: int| after[i].routes_start <= a < b < after[i].routes_start + after[i].routes_len
            ==> #[trigger] stop_routes[a] < #[trigger] stop_routes[b]
        &&& stop_routes.subrange(after[i].routes_start as int, after[i].routes_start + after[i].routes_len).to_set()
            == routes_through(routes, route_stops, i as RaptorStopId)
    }
    &&& stop_routes.len() == if after.len() == 0 { 0 } else { after.last().routes_start + after.last().routes_len }
}

/// `slice::sort_unstable` on route indices: the same indices, ascending.
#[verifier::external_body]
fn sort_route_indices(v: &mut Vec<usize>)
    ensures
        final(v)@.to_multiset() == old(v)@.to_multiset(),
        forall|a: int, b: int| 0 <= a < b < final(v)@.len() ==> #[trigger] final(v)@[a] <= #[trigger] final(v)@[b],
{
    v.sort_unstable();
}

/// Sorting distinct indices leaves them distinct, strictly increasing and
/// the same set.
proof fn lemma_sorted_distinct(before: Seq<usize>, after: Seq<usize>)
    requires
        before.no_duplicates(),
        after.to_multiset() == before.to_multiset(),
        forall|a: int, b: int| 0 <= a < b < after.len() ==> #[trigger] after[a] <= #[trigger] after[b],
    ensures
        after.to_set() == before.to_set(),
        after.len() == before.len(),
        forall|a: int, b: int| 0 <= a < b < after.len() ==> #[trigger] after[a] < #[trigger] after[b],
{
    vstd::seq_lib::to_multiset_len(after);
    vstd::seq_lib::to_multiset_len(before);
    before.lemma_multiset_has_no_duplicates();
    assert forall|x: usize| #[trigger] after.to_set().contains(x) <==> before.to_set().contains(x) by {
        vstd::seq_lib::to_multiset_contains(after, x);
        vstd::seq_lib::to_multiset_contains(before, x);
    }
    assert(after.to_set() =~= before.to_set());
    assert forall|a: int, b: int| 0 <= a < b < after.len() implies #[trigger] after[a] < #[trigger] after[b] by {
        if after[a] == after[b] {
            let x = after[a];
            assert(after.remove(a).contains(x)) by {
                assert(after.remove(a)[b - 1] == x);
            }
            vstd::seq_lib::to_multiset_remove(after, a);
            vstd::seq_lib::to_multiset_contains(after.remove(a), x);
            assert(after.to_multiset().count(x) >= 2);
            assert(before.to_multiset().count(x) <= 1);
        }
    }
}

/// Laying out one more stop after the last one keeps the layout.
proof fn lemma_laid_out_push(
    before: Seq<Stop>,
    after: Seq<Stop>,
    stop_routes: Seq<RouteId>,
    routes: Seq<Route>,
    route_stops: Seq<usize>,
    b: Stop,
    a: Stop,
    through: Seq<RouteId>,
)
    requires
        stop_routes_laid_out(before, after, stop_routes, routes, route_stops),
        a.stop_id == b.stop_id,
        a.geometry == b.geometry,
        a.transfers_start == b.transfers_start,
        a.transfers_len == b.transfers_len,
        a.routes_start == stop_routes.len(),
        a.routes_len == through.len(),
        forall|x: int, y: int| 0 <= x < y < through.len() ==> #[trigger] through[x] < #[trigger] through[y],
        through.to_set() == routes_through(routes, route_stops, after.len() as RaptorStopId),
    ensures
        stop_routes_laid_out(before.push(b), after.push(a), stop_routes + through, routes, route_stops),
{
    let sr = stop_routes + through;
    let af = after.push(a);
    let bf = before.push(b);
    assert forall|i: int| 0 <= i < af.len() implies {
        &&& #[trigger] af[i].stop_id == bf[i].stop_id
        &&& af[i].geometry == bf[i].geometry
        &&& af[i].transfers_start == bf[i].transfers_start
        &&& af[i].transfers_len == bf[i].transfers_len
        &&& af[i].routes_start == if i == 0 { 0 } else { af[i - 1].routes_start + af[i - 1].routes_len }
        &&& af[i].routes_start + af[i].routes_len <= sr.len()
        &&& forall|x: int, y: int| af[i].routes_start <= x < y < af[i].routes_start + af[i].routes_len
            ==> #[trigger] sr[x] < #[trigger] sr[y]
        &&& sr.subrange(af[i].routes_start as int, af[i].routes_start + af[i].routes_len).to_set()
            == routes_through(routes, route_stops, i as RaptorStopId)
    } by {
        if i < after.len() {
            assert(after[i].stop_id == before[i].stop_id);
            assert(af[i] == after[i]);
            assert(bf[i] == before[i]);
            if i > 0 {
                assert(after[i - 1].stop_id == before[i - 1].stop_id);
                assert(af[i - 1] == after[i - 1]);
            }
            let st = after[i].routes_start as int;
            let en = st + after[i].routes_len;
            assert(sr.subrange(st, en) =~= stop_routes.subrange(st, en));
            assert forall|x: int, y: int| st <= x < y < en implies #[trigger] sr[x] < #[trigger] sr[y] by {
                assert(sr[x] == stop_routes[x]);
                assert(sr[y] == stop_routes[y]);
            }
        } else {
            assert(af[i] == a);
            assert(bf[i] == b);
            if i > 0 {
                assert(after.last().stop_id == before[i - 1].stop_id);
                assert(af[i - 1] == after.last());
            }
            let st = a.routes_start as int;
            let en = st + a.routes_len;
            assert(sr.subrange(st, en) =~= through);
            assert forall|x: int, y: int| st <= x < y < en implies #[trigger] sr[x] < #[trigger] sr[y] by {
                assert(sr[x] == through[x - st]);
                assert(sr[y] == through[y - st]);
            }
        }
    }
}

/// The public transit data of a processed feed: the routes through each
/// stop are indexed in `stop_routes` (see [`stop_routes_laid_out`]); there
/// are no transfers and no snapped stops yet.
pub fn build_public_transit_data(processed_data: ProcessedTransitData) -> (r: crate::transit::PublicTransitData)
    requires
        patterns_fit(processed_data.routes@, processed_data.route_stops@),
    ensures
        r.routes@ == processed_data.routes@,
        r.route_stops@ == processed_data.route_stops@,
        r.stop_times@ == processed_data.stop_times@,
        r.trips@ == processed_data.trips@,
        r.feeds_meta@ == processed_data.feeds_meta@,
        r.gtfs_transfers@ == processed_data.gtfs_transfers@,
        r.transfers@.len() == 0,
        r.node_to_stop@ == Map::<crate::types::StreetNodeId, RaptorStopId>::empty(),
        stop_routes_laid_out(processed_data.stops@, r.stops@, r.stop_routes@, r.routes@, r.route_stops@),
{
    let ProcessedTransitData { stop_times, route_stops, routes, trips, stops, feeds_meta, gtfs_transfers } = processed_data;
    let ghost rt = routes@;
    let ghost rs = route_stops@;
    let mut stop_to_routes = RoutesByStop::with_capacity(stops.len());
    let mut route_idx: usize = 0;
    while route_idx < routes.len()
        invariant
            route_idx <= rt.len(),
            rt == routes@,
            rs == route_stops@,
            patterns_fit(rt, rs),
            forall|s: RaptorStopId|
                #![trigger routes_by_stop_entries(stop_to_routes).contains_key(s)]
                routes_by_stop_entries(stop_to_routes).contains_key(s) ==> routes_by_stop_entries(stop_to_routes)[s]
                    == routes_seen(rt, rs, route_idx as int, 0, s),
            forall|s: RaptorStopId|
                #![trigger routes_by_stop_entries(stop_to_routes).contains_key(s)]
                !routes_by_stop_entries(stop_to_routes).contains_key(s) ==> routes_seen(rt, rs, route_idx as int, 0, s)
                    =~= Set::<usize>::empty(),
        decreases rt.len() - route_idx,
    {
        assert(rt[route_idx as int].stops_start + rt[route_idx as int].num_stops <= rs.len());
        assert(route_stops.len() == rs.len());
        let start = routes[route_idx].stops_start;
        let end = start + routes[route_idx].num_stops;
        let mut k: usize = start;
        while k < end
            invariant
                route_idx < rt.len(),
                rt == routes@,
                rs == route_stops@,
                start == rt[route_idx as int].stops_start,
                end == rt[route_idx as int].stops_start + rt[route_idx as int].num_stops,
                end <= rs.len(),
                start <= k <= end,
                forall|s: RaptorStopId|
                    #![trigger routes_by_stop_entries(stop_to_routes).contains_key(s)]
                    routes_by_stop_entries(stop_to_routes).contains_key(s) ==> routes_by_stop_entries(stop_to_routes)[s]
                        == routes_seen(rt, rs, route_idx as int, k as int, s),
                forall|s: RaptorStopId|
                    #![trigger routes_by_stop_entries(stop_to_routes).contains_key(s)]
                    !routes_by_stop_entries(stop_to_routes).contains_key(s) ==> routes_seen(rt, rs, route_idx as int, k as int, s)
                        =~= Set::<usize>::empty(),
            decreases end - k,
        {
            let stop = route_stops[k];
            let ghost old_map = routes_by_stop_entries(stop_to_routes);
            stop_to_routes.insert(stop, route_idx);
            proof {
                assert forall|s: RaptorStopId| #[trigger] routes_by_stop_entries(stop_to_routes).contains_key(s) implies routes_by_stop_entries(
                    stop_to_routes,
                )[s] == routes_seen(rt, rs, route_idx as int, k + 1, s) by {
                    if s == stop {
                        assert(calls_before(rt, rs, route_idx as int, k + 1, s)) by {
                            assert(rs[k as int] == s);
                        }
                        assert forall|r: usize| #[trigger] routes_seen(rt, rs, route_idx as int, k + 1, s).contains(r) implies
                            routes_by_stop_entries(stop_to_routes)[s].contains(r) by {
                            if r == route_idx {
                            } else {
                                assert(routes_seen(rt, rs, route_idx as int, k as int, s).contains(r));
                                if !old_map.contains_key(s) {
                                    assert(routes_seen(rt, rs, route_idx as int, k as int, s).contains(r));
                                    assert(false);
                                }
                            }
                        }
                        assert forall|r: usize| routes_by_stop_entries(stop_to_routes)[s].contains(r) implies #[trigger] routes_seen(
                            rt,
                            rs,
                            route_idx as int,
                            k + 1,
                            s,
                        ).contains(r) by {
                            if r != route_idx {
                                assert(old_map.contains_key(s));
                                assert(routes_seen(rt, rs, route_idx as int, k as int, s).contains(r));
                                if r == route_idx {
                                } else {
                                }
                            }
                        }
                        assert(routes_by_stop_entries(stop_to_routes)[s] =~= routes_seen(rt, rs, route_idx as int, k + 1, s));
                    } else {
                        assert(old_map.contains_key(s));
                        assert forall|r: usize| #[trigger] routes_seen(rt, rs, route_idx as int, k + 1, s).contains(r) <==> routes_seen(
                            rt,
                            rs,
                            route_idx as int,
                            k as int,
                            s,
                        ).contains(r) by {
                            if r == route_idx && calls_before(rt, rs, route_idx as int, k + 1, s) {
                                let w = choose|w: int| rt[route_idx as int].stops_start <= w < k + 1 && #[trigger] rs[w] == s;
                                assert(w != k);
                                assert(calls_before(rt, rs, route_idx as int, k as int, s));
                            }
                        }
                        assert(routes_seen(rt, rs, route_idx as int, k + 1, s) =~= routes_seen(rt, rs, route_idx as int, k as int, s));
                    }
                }
                assert forall|s: RaptorStopId| !#[trigger] routes_by_stop_entries(stop_to_routes).contains_key(s) implies routes_seen(
                    rt,
                    rs,
                    route_idx as int,
                    k + 1,
                    s,
                ) =~= Set::<usize>::empty() by {
                    assert(s != stop);
                    assert(!old_map.contains_key(s));
                    assert forall|r: usize| !#[trigger] routes_seen(rt, rs, route_idx as int, k + 1, s).contains(r) by {
                        assert(!routes_seen(rt, rs, route_idx as int, k as int, s).contains(r));
                        if r == route_idx && calls_before(rt, rs, route_idx as int, k + 1, s) {
                            let w = choose|w: int| rt[route_idx as int].stops_start <= w < k + 1 && #[trigger] rs[w] == s;
                            assert(w != k);
                            assert(calls_before(rt, rs, route_idx as int, k as int, s));
                        }
                    }
                }
            }
            k += 1;
        }
        proof {
            assert forall|s: RaptorStopId, r: usize| #[trigger] routes_seen(rt, rs, route_idx + 1, 0, s).contains(r) <==> routes_seen(
                rt,
                rs,
                route_idx as int,
                end as int,
                s,
            ).contains(r) by {
                if r == route_idx {
                    assert(route_serves(rt, rs, r as int, s) == calls_before(rt, rs, route_idx as int, end as int, s));
                }
                if calls_before(rt, rs, route_idx + 1, 0, s) {
                    let w = choose|w: int| rt[route_idx + 1].stops_start <= w < 0 && #[trigger] rs[w] == s;
                }
            }
            assert forall|s: RaptorStopId| routes_seen(rt, rs, route_idx + 1, 0, s) =~= #[trigger] routes_seen(
                rt,
                rs,
                route_idx as int,
                end as int,
                s,
            ) by {}
        }
        route_idx += 1;
    }
    proof {
        assert forall|s: RaptorStopId| #[trigger] routes_seen(rt, rs, rt.len() as int, 0, s) =~= routes_through(rt, rs, s) by {
            assert forall|r: usize| #[trigger] routes_seen(rt, rs, rt.len() as int, 0, s).contains(r) <==> routes_through(rt, rs, s).contains(r) by {
                if calls_before(rt, rs, rt.len() as int, 0, s) {
                    let w = choose|w: int| rt[rt.len() as int].stops_start <= w < 0 && #[trigger] rs[w] == s;
                }
            }
        }
    }
    let ghost original = stops@;
    let mut stop_routes: Vec<RouteId> = Vec::new();
    let mut stops_vec: Vec<Stop> = Vec::new();
    let mut stop_idx: usize = 0;
    while stop_idx < stops.len()
        invariant
            stop_idx <= original.len(),
            original == stops@,
            rt == routes@,
            rs == route_stops@,
            forall|s: RaptorStopId|
                #![trigger routes_by_stop_entries(stop_to_routes).contains_key(s)]
                s >= stop_idx && routes_by_stop_entries(stop_to_routes).contains_key(s) ==> routes_by_stop_entries(stop_to_routes)[s]
                    == routes_through(rt, rs, s),
            forall|s: RaptorStopId|
                #![trigger routes_by_stop_entries(stop_to_routes).contains_key(s)]
                s >= stop_idx && !routes_by_stop_entries(stop_to_routes).contains_key(s) ==> routes_through(rt, rs, s)
                    =~= Set::<usize>::empty(),
            stop_routes_laid_out(original.take(stop_idx as int), stops_vec@, stop_routes@, rt, rs),
        decreases original.len() - stop_idx,
    {
        let ghost old_routes = stop_routes@;
        let ghost old_stops = stops_vec@;
        let ghost old_map = routes_by_stop_entries(stop_to_routes);
        let mut through = stop_to_routes.take(stop_idx);
        let ghost taken = through@;
        sort_route_indices(&mut through);
        proof {
            lemma_sorted_distinct(taken, through@);
            assert(through@.to_set() == routes_through(rt, rs, stop_idx));
        }
        let ghost through_sorted = through@;
        let routes_start = stop_routes.len();
        let routes_len = through.len();
        stop_routes.append(&mut through);
        let stop = &stops[stop_idx];
        stops_vec.push(
            Stop {
                stop_id: stop.stop_id.clone(),
                geometry: stop.geometry,
                routes_start,
                routes_len,
                transfers_start: stop.transfers_start,
                transfers_len: stop.transfers_len,
            },
        );
        proof {
            let n = stop_idx as int;
            assert(original.take(n + 1) =~= original.take(n).push(original[n]));
            lemma_laid_out_push(original.take(n), old_stops, old_routes, rt, rs, original[n], stops_vec@.last(), through_sorted);
            assert(stops_vec@ =~= old_stops.push(stops_vec@.last()));
            assert forall|s: RaptorStopId| #![trigger routes_by_stop_entries(stop_to_routes).contains_key(s)]
                s >= stop_idx + 1 && routes_by_stop_entries(stop_to_routes).contains_key(s) implies routes_by_stop_entries(stop_to_routes)[s]
                    == routes_through(rt, rs, s) by {
                assert(old_map.contains_key(s));
            }
            assert forall|s: RaptorStopId| #![trigger routes_by_stop_entries(stop_to_routes).contains_key(s)]
                s >= stop_idx + 1 && !routes_by_stop_entries(stop_to_routes).contains_key(s) implies routes_through(rt, rs, s)
                    =~= Set::<usize>::empty() by {
                assert(!old_map.contains_key(s));
            }
        }
        stop_idx += 1;
    }
    assert(original.take(stop_idx as int) =~= original);
    crate::transit::PublicTransitData {
        routes,
        route_stops,
        stop_times,
        stops: stops_vec,
        stop_routes,
        transfers: Vec::new(),
        node_to_stop: crate::collections::NodeStopMap::new(),
        feeds_meta,
        trips,
        gtfs_transfers,
    }
}


/// A vector's elements in reverse order.
pub fn reversed<T>(v: Vec<T>) -> (r: Vec<T>)
    ensures
        r@ == v@.reverse(),
{
    let ghost orig = v@;
    let mut v = v;
    let mut r: Vec<T> = Vec::new();
    while v.len() > 0
        invariant
            v@ == orig.take(v@.len() as int),
            v@.len() <= orig.len(),
            r@ == orig.subrange(v@.len() as int, orig.len() as int).reverse(),
        decreases v@.len(),
    {
        let x = v.pop().unwrap();
        proof {
            assert(x == orig[v@.len() as int]);
        }
        r.push(x);
        assert(r@ =~= orig.subrange(v@.len() as int, orig.len() as int).reverse());
        assert(v@ =~= orig.take(v@.len() as int));
    }
    assert(orig.subrange(0, orig.len() as int) =~= orig);
    r
}

/// The elements of `s` whose flag in `keep` is set, in order.
pub open spec fn flagged<T>(s: Seq<T>, keep: Seq<bool>) -> Seq<T>
    decreases s.len(),
{
    if s.len() == 0 {
        Seq::empty()
    } else {
        let rest = flagged(s.drop_last(), keep);
        if keep[s.len() - 1] {
            rest.push(s.last())
        } else {
            rest
        }
    }
}

/// Keeps the elements whose flag is set, in order.
pub fn keep_flagged<T>(v: Vec<T>, keep: &Vec<bool>) -> (r: Vec<T>)
    requires
        keep@.len() == v@.len(),
    ensures
        r@ == flagged(v@, keep@),
{
    let ghost orig = v@;
    let n = v.len();
    let mut rev = reversed(v);
    let mut r: Vec<T> = Vec::new();
    let mut k: usize = 0;
    while rev.len() > 0
        invariant
            n == orig.len(),
            keep@.len() == n,
            k + rev@.len() == n,
            forall|j: int| 0 <= j < rev@.len() ==> #[trigger] rev@[j] == orig[n - 1 - j],
            r@ == flagged(orig.take(k as int), keep@),
        decreases rev@.len(),
    {
        let x = rev.pop().unwrap();
        proof {
            assert(x == orig[k as int]);
            assert(orig.take(k + 1).drop_last() =~= orig.take(k as int));
            assert(orig.take(k + 1).last() == x);
        }
        if keep[k] {
            r.push(x);
        }
        k += 1;
    }
    assert(orig.take(k as int) =~= orig);
    r
}

/// The GTFS tables kept for the model: stops, the trips running on the
/// chosen date with their stop times, feed metadata and transfers.
pub struct FilteredGTFSData {
    pub stops: Vec<FeedStop>,
    pub trips: Vec<FeedTrip>,
    pub stop_times: Vec<FeedStopTime>,
    pub feeds_meta: Vec<FeedMeta>,
    pub gtfs_transfers: Vec<FeedTransfer>,
}

/// The weekday (0 for Monday to 6 for Sunday) of day number `days`, counted
/// from 1 January of year 1 (day 1, a Monday); `None` outside the dates
/// chrono represents, 1 January -262143 (day -95746129) to 31 December
/// 262142 (day 95745399).
pub open spec fn ce_day_weekday(days: i32) -> Option<u32> {
    if -95746129 <= days <= 95745399 {
        Some(((days - 1) % 7) as u32)
    } else {
        None
    }
}

/// `NaiveDate::from_num_days_from_ce_opt` followed by
/// `Datelike::weekday().num_days_from_monday()`: the weekday of a day
/// number, Monday being 0 and Sunday 6; `None` where chrono has no such date.
#[verifier::external_body]
fn weekday_from_monday(days: i32) -> (r: Option<u32>)
    ensures
        r == ce_day_weekday(days),
        r matches Some(w) ==> w < 7,
{
    match chrono::NaiveDate::from_num_days_from_ce_opt(days) {
        Some(date) => Some(chrono::Datelike::weekday(&date).num_days_from_monday()),
        None => None,
    }
}

/// The calendar column of weekday `w` holds `"1"`.
pub open spec fn runs_on_weekday(service: FeedService, w: u32) -> bool {
    let flag = if w == 0 {
        service.monday@
    } else if w == 1 {
        service.tuesday@
    } else if w == 2 {
        service.wednesday@
    } else if w == 3 {
        service.thursday@
    } else if w == 4 {
        service.friday@
    } else if w == 5 {
        service.saturday@
    } else {
        service.sunday@
    };
    flag == "1"@
}

/// The service runs on the weekday of `date` by its regular calendar.
pub open spec fn regular_on(service: FeedService, date: ServiceDate) -> bool {
    match ce_day_weekday(date.days_from_ce) {
        Some(w) => runs_on_weekday(service, w),
        None => false,
    }
}

/// The regular calendar is read by the weekday of the date. Day 1 is
/// 1 January of year 1, a Monday, so a day number that leaves remainder 1
/// when divided by 7 is a Monday, remainder 3 a Wednesday, remainder 0 a
/// Sunday. On a Monday a service runs exactly when its `monday` column holds
/// "1", on a Tuesday exactly when its `tuesday` column does, and so on for
/// each day of the week; on a day outside the dates chrono represents no
/// service runs by its calendar.
pub proof fn law_calendar_column_of_weekday(service: FeedService, date: ServiceDate)
    ensures
        !(-95746129 <= date.days_from_ce <= 95745399) ==> !regular_on(service, date),
        -95746129 <= date.days_from_ce <= 95745399 ==> {
            let d = date.days_from_ce;
            &&& d % 7 == 1 ==> (regular_on(service, date) <==> service.monday@ == "1"@)
            &&& d % 7 == 2 ==> (regular_on(service, date) <==> service.tuesday@ == "1"@)
            &&& d % 7 == 3 ==> (regular_on(service, date) <==> service.wednesday@ == "1"@)
            &&& d % 7 == 4 ==> (regular_on(service, date) <==> service.thursday@ == "1"@)
            &&& d % 7 == 5 ==> (regular_on(service, date) <==> service.friday@ == "1"@)
            &&& d % 7 == 6 ==> (regular_on(service, date) <==> service.saturday@ == "1"@)
            &&& d % 7 == 0 ==> (regular_on(service, date) <==> service.sunday@ == "1"@)
        },
{
    let d = date.days_from_ce as int;
    assert((d - 1) % 7 == (d % 7 + 6) % 7) by (nonlinear_arith);
}

/// Identifiers of the services running on `date` by their regular calendar.
pub open spec fn regular_services(services: Seq<FeedService>, date: ServiceDate) -> Set<Seq<char>> {
    Set::new(|id: Seq<char>| exists|i: int| 0 <= i < services.len() && #[trigger] services[i].service_id@ == id && regular_on(services[i], date))
}

/// `active` after the calendar exceptions for `date`, in order: type 1 adds
/// the service, type 2 removes it, others do nothing.
pub open spec fn with_exceptions(active: Set<Seq<char>>, calendar_dates: Seq<FeedCalendarDates>, date: ServiceDate) -> Set<Seq<char>>
    decreases calendar_dates.len(),
{
    if calendar_dates.len() == 0 {
        active
    } else {
        let before = with_exceptions(active, calendar_dates.drop_last(), date);
        let cd = calendar_dates.last();
        if cd.date == Some(date) {
            if cd.exception_type == 1 {
                before.insert(cd.service_id@)
            } else if cd.exception_type == 2 {
                before.remove(cd.service_id@)
            } else {
                before
            }
        } else {
            before
        }
    }
}

/// Identifiers of the services active on `date`.
pub open spec fn active_services(services: Seq<FeedService>, calendar_dates: Seq<FeedCalendarDates>, date: ServiceDate) -> Set<Seq<char>> {
    with_exceptions(regular_services(services, date), calendar_dates, date)
}

/// Which services run on a date.
pub struct ServiceFilter<'a> {
    pub date: ServiceDate,
    pub services: &'a [FeedService],
    pub calendar_dates: &'a [FeedCalendarDates],
}

impl<'a> ServiceFilter<'a> {
    /// A filter for `date` over the given calendars.
    pub fn new(date: ServiceDate, services: &'a [FeedService], calendar_dates: &'a [FeedCalendarDates]) -> (r: ServiceFilter<'a>)
        ensures
            r.date == date,
            r.services@ == services@,
            r.calendar_dates@ == calendar_dates@,
    {
        ServiceFilter { date, services, calendar_dates }
    }

    /// Whether the service runs on the date's weekday by its regular calendar.
    pub fn is_service_active_on_weekday(&self, service: &FeedService) -> (r: bool)
        ensures
            r == regular_on(*service, self.date),
    {
        let one = "1".to_owned();
        match weekday_from_monday(self.date.days_from_ce) {
            Some(0) => service.monday == one,
            Some(1) => service.tuesday == one,
            Some(2) => service.wednesday == one,
            Some(3) => service.thursday == one,
            Some(4) => service.friday == one,
            Some(5) => service.saturday == one,
            Some(_) => service.sunday == one,
            None => false,
        }
    }

    /// Identifiers of the services running by their regular calendar.
    pub fn get_regular_services(&self) -> (r: crate::collections::StringSet)
        ensures
            crate::collections::string_set_contents(r) == regular_services(self.services@, self.date),
    {
        let mut active = crate::collections::StringSet::new();
        let mut i: usize = 0;
        while i < self.services.len()
            invariant
                i <= self.services@.len(),
                crate::collections::string_set_contents(active) == regular_services(self.services@.take(i as int), self.date),
            decreases self.services@.len() - i,
        {
            let service = &self.services[i];
            let ghost before = crate::collections::string_set_contents(active);
            if self.is_service_active_on_weekday(service) {
                active.insert(service.service_id.clone());
            }
            proof {
                let t = self.services@.take(i as int);
                let t1 = self.services@.take(i + 1);
                assert(t1[i as int] == *service);
                assert forall|id: Seq<char>| #[trigger] regular_services(t1, self.date).contains(id) <==> crate::collections::string_set_contents(active).contains(id) by {
                    if regular_services(t1, self.date).contains(id) {
                        let j = choose|j: int| 0 <= j < t1.len() && #[trigger] t1[j].service_id@ == id && regular_on(t1[j], self.date);
                        if j < i {
                            assert(t[j] == t1[j]);
                            assert(regular_services(t, self.date).contains(id));
                        }
                    }
                    if crate::collections::string_set_contents(active).contains(id) {
                        if before.contains(id) {
                            let j = choose|j: int| 0 <= j < t.len() && #[trigger] t[j].service_id@ == id && regular_on(t[j], self.date);
                            assert(t1[j] == t[j]);
                        } else {
                            assert(t1[i as int].service_id@ == id);
                        }
                    }
                }
                assert(regular_services(t1, self.date) =~= crate::collections::string_set_contents(active));
            }
            i += 1;
        }
        assert(self.services@.take(i as int) =~= self.services@);
        active
    }

    /// Applies the calendar exceptions for the date, in order.
    pub fn apply_calendar_exceptions(&self, active_services: &mut crate::collections::StringSet)
        ensures
            crate::collections::string_set_contents(*final(active_services)) == with_exceptions(
                crate::collections::string_set_contents(*old(active_services)),
                self.calendar_dates@,
                self.date,
            ),
    {
        let ghost start = crate::collections::string_set_contents(*active_services);
        let mut i: usize = 0;
        while i < self.calendar_dates.len()
            invariant
                i <= self.calendar_dates@.len(),
                crate::collections::string_set_contents(*active_services) == with_exceptions(start, self.calendar_dates@.take(i as int), self.date),
            decreases self.calendar_dates@.len() - i,
        {
            let cd = &self.calendar_dates[i];
            proof {
                assert(self.calendar_dates@.take(i + 1).drop_last() =~= self.calendar_dates@.take(i as int));
                assert(self.calendar_dates@.take(i + 1).last() == *cd);
            }
            let on_date = match cd.date {
                Some(d) => d.days_from_ce == self.date.days_from_ce,
                None => false,
            };
            if on_date {
                if cd.exception_type == 1 {
                    active_services.insert(cd.service_id.clone());
                } else if cd.exception_type == 2 {
                    active_services.remove(cd.service_id.as_str());
                }
            }
            i += 1;
        }
        assert(self.calendar_dates@.take(i as int) =~= self.calendar_dates@);
    }

    /// Identifiers of the services active on the date.
    pub fn get_active_services(&self) -> (r: crate::collections::StringSet)
        ensures
            crate::collections::string_set_contents(r) == active_services(self.services@, self.calendar_dates@, self.date),
    {
        let mut active = self.get_regular_services();
        self.apply_calendar_exceptions(&mut active);
        active
    }
}

/// Whether each trip's service is in the set.
fn trips_in_services(trips: &Vec<FeedTrip>, services: &crate::collections::StringSet) -> (r: Vec<bool>)
    ensures
        r@.len() == trips@.len(),
        forall|i: int| 0 <= i < trips@.len() ==> #[trigger] r@[i] == crate::collections::string_set_contents(*services).contains(
            trips@[i].service_id@,
        ),
{
    let mut r: Vec<bool> = Vec::new();
    let mut i: usize = 0;
    while i < trips.len()
        invariant
            i <= trips@.len(),
            r@.len() == i,
            forall|k: int| 0 <= k < i ==> #[trigger] r@[k] == crate::collections::string_set_contents(*services).contains(trips@[k].service_id@),
        decreases trips@.len() - i,
    {
        r.push(services.contains(trips[i].service_id.as_str()));
        i += 1;
    }
    r
}

/// Whether each stop time's trip is in the set.
fn stop_times_in_trips(stop_times: &Vec<FeedStopTime>, trip_ids: &crate::collections::StringSet) -> (r: Vec<bool>)
    ensures
        r@.len() == stop_times@.len(),
        forall|i: int| 0 <= i < stop_times@.len() ==> #[trigger] r@[i] == crate::collections::string_set_contents(*trip_ids).contains(
            stop_times@[i].trip_id@,
        ),
{
    let mut r: Vec<bool> = Vec::new();
    let mut i: usize = 0;
    while i < stop_times.len()
        invariant
            i <= stop_times@.len(),
            r@.len() == i,
            forall|k: int| 0 <= k < i ==> #[trigger] r@[k] == crate::collections::string_set_contents(*trip_ids).contains(stop_times@[k].trip_id@),
        decreases stop_times@.len() - i,
    {
        r.push(trip_ids.contains(stop_times[i].trip_id.as_str()));
        i += 1;
    }
    r
}

/// The identifiers of the trips.
fn trip_id_set(trips: &Vec<FeedTrip>) -> (r: crate::collections::StringSet)
    ensures
        crate::collections::string_set_contents(r) == trips@.map_values(|t: FeedTrip| t.trip_id@).to_set(),
{
    let mut r = crate::collections::StringSet::new();
    let mut i: usize = 0;
    while i < trips.len()
        invariant
            i <= trips@.len(),
            crate::collections::string_set_contents(r) == trips@.take(i as int).map_values(|t: FeedTrip| t.trip_id@).to_set(),
        decreases trips@.len() - i,
    {
        r.insert(trips[i].trip_id.clone());
        proof {
            assert(trips@.take(i + 1).map_values(|t: FeedTrip| t.trip_id@) =~= trips@.take(i as int).map_values(|t: FeedTrip| t.trip_id@).push(
                trips@[i as int].trip_id@,
            ));
            trips@.take(i as int).map_values(|t: FeedTrip| t.trip_id@).lemma_push_to_set_commute(trips@[i as int].trip_id@);
        }
        i += 1;
    }
    assert(trips@.take(i as int) =~= trips@);
    r
}

/// The metadata of each feed, in order.
fn feed_metas(feed_info: Vec<FeedInfo>) -> (r: Vec<FeedMeta>)
    ensures
        r@ == feed_info@.map_values(|info: FeedInfo| FeedMeta { feed_info: info }),
{
    let ghost orig = feed_info@;
    let n = feed_info.len();
    let mut rev = reversed(feed_info);
    let mut r: Vec<FeedMeta> = Vec::new();
    while rev.len() > 0
        invariant
            n == orig.len(),
            r@.len() + rev@.len() == n,
            forall|j: int| 0 <= j < rev@.len() ==> #[trigger] rev@[j] == orig[n - 1 - j],
            r@ == orig.take(r@.len() as int).map_values(|info: FeedInfo| FeedMeta { feed_info: info }),
        decreases rev@.len(),
    {
        let info = rev.pop().unwrap();
        let ghost k: int = r@.len() as int;
        assert(info == orig[k]);
        r.push(FeedMeta { feed_info: info });
        assert(r@ =~= orig.take(k + 1).map_values(|info: FeedInfo| FeedMeta { feed_info: info }));
    }
    assert(orig.take(n as int) =~= orig);
    r
}

/// Trips running on `date`, flagged.
pub open spec fn trips_running(trips: Seq<FeedTrip>, active: Set<Seq<char>>) -> Seq<bool> {
    Seq::new(trips.len(), |i: int| active.contains(trips[i].service_id@))
}

/// Stop times of the given trips, flagged.
pub open spec fn stop_times_of(stop_times: Seq<FeedStopTime>, trips: Seq<FeedTrip>) -> Seq<bool> {
    Seq::new(stop_times.len(), |i: int| trips.map_values(|t: FeedTrip| t.trip_id@).to_set().contains(stop_times[i].trip_id@))
}

/// Keeps, when a date is given, only the trips whose service is active on
/// it (see [`active_services`]) and the stop times of those trips; stops and
/// transfers are kept as read, and each feed's info becomes its metadata.
pub fn filter_data_by_date(date: Option<ServiceDate>, raw_data: RawGTFSData) -> (r: FilteredGTFSData)
    ensures
        r.stops@ == raw_data.stops@,
        r.gtfs_transfers@ == raw_data.transfers@,
        r.feeds_meta@ == raw_data.feed_info@.map_values(|info: FeedInfo| FeedMeta { feed_info: info }),
        date is None ==> r.trips@ == raw_data.trips@ && r.stop_times@ == raw_data.stop_times@,
        date matches Some(d) ==> {
            &&& r.trips@ == flagged(
                raw_data.trips@,
                trips_running(raw_data.trips@, active_services(raw_data.services@, raw_data.calendar_dates@, d)),
            )
            &&& r.stop_times@ == flagged(raw_data.stop_times@, stop_times_of(raw_data.stop_times@, r.trips@))
        },
{
    let RawGTFSData { stops, trips, stop_times, services, feed_info, calendar_dates, transfers } = raw_data;
    let feeds_meta = feed_metas(feed_info);
    match date {
        Some(d) => {
            let service_filter = ServiceFilter::new(d, services.as_slice(), calendar_dates.as_slice());
            let active = service_filter.get_active_services();
            let trip_flags = trips_in_services(&trips, &active);
            assert(trip_flags@ =~= trips_running(trips@, active_services(services@, calendar_dates@, d)));
            let kept_trips = keep_flagged(trips, &trip_flags);
            let active_trips = trip_id_set(&kept_trips);
            let stop_time_flags = stop_times_in_trips(&stop_times, &active_trips);
            assert(stop_time_flags@ =~= stop_times_of(stop_times@, kept_trips@));
            let kept_stop_times = keep_flagged(stop_times, &stop_time_flags);
            FilteredGTFSData { stops, trips: kept_trips, stop_times: kept_stop_times, feeds_meta, gtfs_transfers: transfers }
        },
        None => FilteredGTFSData { stops, trips, stop_times, feeds_meta, gtfs_transfers: transfers },
    }
}


/// Groups the kept stop times by trip (see
/// [`crate::variants::group_stop_times_by_trip`]), lays the trips out into
/// routes (see [`crate::variants::process_trip_stop_times`]) and turns the
/// GTFS stops into model stops.
pub fn process_transit_data(filtered_data: FilteredGTFSData) -> (r: ProcessedTransitData)
    ensures
        r.stops@ == filtered_data.stops@.map_values(|s: FeedStop| model_stop(s)),
        r.feeds_meta@ == filtered_data.feeds_meta@,
        r.gtfs_transfers@ == filtered_data.gtfs_transfers@,
        exists|groups: Seq<(String, Vec<FeedStopTime>)>|
            crate::variants::groups_stop_times(groups, filtered_data.stop_times@) && #[trigger] crate::variants::trips_laid_out(
                filtered_data.stops@,
                filtered_data.trips@,
                groups,
                r.stop_times@,
                r.route_stops@,
                r.routes@,
                r.trips@,
            ),
        patterns_fit(r.routes@, r.route_stops@),
{
    let FilteredGTFSData { stops, trips, stop_times, feeds_meta, gtfs_transfers } = filtered_data;
    let trip_stop_times = crate::variants::group_stop_times_by_trip(stop_times);
    let (stop_times, route_stops, routes, trip_rows) = crate::variants::process_trip_stop_times(&stops, &trips, &trip_stop_times);
    let model_stops = create_stops_vector(stops);
    let r = ProcessedTransitData { stop_times, route_stops, routes, trips: trip_rows, stops: model_stops, feeds_meta, gtfs_transfers };
    assert(crate::variants::groups_stop_times(trip_stop_times@, filtered_data.stop_times@));
    assert(crate::variants::trips_laid_out(
        filtered_data.stops@,
        filtered_data.trips@,
        trip_stop_times@,
        r.stop_times@,
        r.route_stops@,
        r.routes@,
        r.trips@,
    ));
    r
}

/// The public transit data of the GTFS feeds: read tables concatenated (see
/// [`load_raw_feed`]), filtered by the service date when one is given (see
/// [`filter_data_by_date`]), processed into routes (see
/// [`process_transit_data`]) and indexed by stop (see
/// [`build_public_transit_data`]).
pub fn transit_model_from_gtfs(date: Option<ServiceDate>, feeds: Vec<RawGTFSData>) -> (r: crate::transit::PublicTransitData)
    ensures
        r.transfers@.len() == 0,
        r.node_to_stop@ == Map::<crate::types::StreetNodeId, RaptorStopId>::empty(),
        r.feeds_meta@ == feeds@.map_values(|f: RawGTFSData| f.feed_info@).flatten().map_values(|info: FeedInfo| FeedMeta { feed_info: info }),
        r.gtfs_transfers@ == feeds@.map_values(|f: RawGTFSData| f.transfers@).flatten(),
        stop_routes_laid_out(
            feeds@.map_values(|f: RawGTFSData| f.stops@).flatten().map_values(|s: FeedStop| model_stop(s)),
            r.stops@,
            r.stop_routes@,
            r.routes@,
            r.route_stops@,
        ),
        exists|filtered: FilteredGTFSData, groups: Seq<(String, Vec<FeedStopTime>)>|
            #[trigger] filtered_as(date, feeds@, filtered) && crate::variants::groups_stop_times(groups, filtered.stop_times@)
                && #[trigger] crate::variants::trips_laid_out(
                filtered.stops@,
                filtered.trips@,
                groups,
                r.stop_times@,
                r.route_stops@,
                r.routes@,
                r.trips@,
            ),
{
    let raw = load_raw_feed(feeds);
    let filtered = filter_data_by_date(date, raw);
    let ghost filtered_view = filtered;
    let processed = process_transit_data(filtered);
    let r = build_public_transit_data(processed);
    proof {
        let groups = choose|groups: Seq<(String, Vec<FeedStopTime>)>|
            crate::variants::groups_stop_times(groups, filtered_view.stop_times@) && #[trigger] crate::variants::trips_laid_out(
                filtered_view.stops@,
                filtered_view.trips@,
                groups,
                r.stop_times@,
                r.route_stops@,
                r.routes@,
                r.trips@,
            );
        assert(filtered_as(date, feeds@, filtered_view));
        assert(crate::variants::trips_laid_out(
            filtered_view.stops@,
            filtered_view.trips@,
            groups,
            r.stop_times@,
            r.route_stops@,
            r.routes@,
            r.trips@,
        ));
    }
    r
}

/// `filtered` holds the feeds' stops, and the trips and stop times kept for
/// `date` (see [`filter_data_by_date`]).
pub open spec fn filtered_as(date: Option<ServiceDate>, feeds: Seq<RawGTFSData>, filtered: FilteredGTFSData) -> bool {
    let stops = feeds.map_values(|f: RawGTFSData| f.stops@).flatten();
    let trips = feeds.map_values(|f: RawGTFSData| f.trips@).flatten();
    let stop_times = feeds.map_values(|f: RawGTFSData| f.stop_times@).flatten();
    let services = feeds.map_values(|f: RawGTFSData| f.services@).flatten();
    let calendar_dates = feeds.map_values(|f: RawGTFSData| f.calendar_dates@).flatten();
    &&& filtered.stops@ == stops
    &&& match date {
        None => filtered.trips@ == trips && filtered.stop_times@ == stop_times,
        Some(d) => {
            &&& filtered.trips@ == flagged(trips, trips_running(trips, active_services(services, calendar_dates, d)))
            &&& filtered.stop_times@ == flagged(stop_times, stop_times_of(stop_times, filtered.trips@))
        },
    }
}

} // verus!
