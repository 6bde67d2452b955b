use ferrobus_core::gtfs::{
    build_public_transit_data, build_stop_times, create_stops_vector, filter_data_by_date, load_raw_feed, process_transit_data,
    transit_model_from_gtfs, FeedCalendarDates, FeedService, FeedStop, FeedStopTime, FeedTrip, FilteredGTFSData, ProcessedTransitData,
    RawGTFSData, ServiceDate, ServiceFilter,
};
use ferrobus_core::types::{Coordinate, FeedInfo, Route, Stop, StopTime};
use ferrobus_core::variants::{group_stop_times_by_trip, process_trip_stop_times};

fn mk_stop(id: &str) -> FeedStop {
    FeedStop { stop_id: id.to_string(), location: Coordinate { x_bits: 0, y_bits: 0 } }
}

fn mk_trip(route_id: &str, trip_id: &str) -> FeedTrip {
    FeedTrip { route_id: route_id.to_string(), service_id: "WK".to_string(), trip_id: trip_id.to_string() }
}

fn mk_st(trip_id: &str, stop_id: &str, seq: u32, t: u32) -> FeedStopTime {
    FeedStopTime {
        trip_id: trip_id.to_string(),
        stop_id: stop_id.to_string(),
        stop_sequence: seq,
        arrival_time: t,
        departure_time: t,
    }
}

#[test]
fn splits_route_variants_by_full_stop_pattern() {
    // Same GTFS route and same stop count, but different middle stop.
    let stops = vec![mk_stop("A"), mk_stop("B"), mk_stop("C"), mk_stop("D")];
    let trips = vec![mk_trip("R1", "T1"), mk_trip("R1", "T2")];

    let trip_stop_times = vec![
        ("T1".to_string(), vec![mk_st("T1", "A", 0, 100), mk_st("T1", "B", 1, 200), mk_st("T1", "D", 2, 300)]),
        ("T2".to_string(), vec![mk_st("T2", "A", 0, 110), mk_st("T2", "C", 1, 210), mk_st("T2", "D", 2, 310)]),
    ];

    let (_stop_times, route_stops, routes, _trips) = process_trip_stop_times(&stops, &trips, &trip_stop_times);

    assert_eq!(routes.len(), 2);
    assert!(routes.iter().all(|r| r.num_stops == 3));
    assert!(routes.iter().all(|r| r.num_trips == 1));

    let mut patterns: Vec<Vec<usize>> =
        routes.iter().map(|r| route_stops[r.stops_start..r.stops_start + r.num_stops].to_vec()).collect();
    patterns.sort_unstable();

    assert_eq!(patterns, vec![vec![0, 1, 3], vec![0, 2, 3]]);
}

#[test]
fn trips_of_one_pattern_share_a_route_in_departure_order() {
    let stops = vec![mk_stop("A"), mk_stop("B")];
    let trips = vec![mk_trip("R2", "late"), mk_trip("R1", "x"), mk_trip("R2", "early")];
    let groups = vec![
        ("late".to_string(), vec![mk_st("late", "A", 0, 900), mk_st("late", "B", 1, 1000)]),
        ("x".to_string(), vec![mk_st("x", "B", 0, 50), mk_st("x", "A", 1, 60)]),
        ("early".to_string(), vec![mk_st("early", "A", 0, 100), mk_st("early", "B", 1, 200)]),
        ("ghost".to_string(), vec![mk_st("ghost", "A", 0, 1)]),
        ("lost".to_string(), vec![mk_st("lost", "Z", 0, 1)]),
    ];
    let (stop_times, route_stops, routes, trips_out) = process_trip_stop_times(&stops, &trips, &groups);

    assert_eq!(routes.len(), 2);
    assert_eq!(routes[0].route_id, "R1");
    assert_eq!(routes[1].route_id, "R2");
    assert_eq!(routes[1].num_trips, 2);
    assert_eq!(routes[1].trips_start, 2);
    assert_eq!(route_stops, vec![1, 0, 0, 1]);
    let ids: Vec<Vec<String>> = trips_out.iter().map(|row| row.iter().map(|t| t.trip_id.clone()).collect()).collect();
    assert_eq!(ids, vec![vec!["x".to_string()], vec!["early".to_string(), "late".to_string()]]);
    let departures: Vec<u32> = stop_times.iter().map(|st| st.departure).collect();
    assert_eq!(departures, vec![50, 60, 100, 200, 900, 1000]);
}

#[test]
fn stop_times_are_grouped_by_trip_in_sequence_order() {
    let stop_times = vec![mk_st("T1", "B", 2, 200), mk_st("T2", "A", 0, 5), mk_st("T1", "A", 1, 100), mk_st("T1", "C", 2, 300)];
    let groups = group_stop_times_by_trip(stop_times);
    assert_eq!(groups.len(), 2);
    let t1 = groups.iter().find(|(id, _)| id == "T1").expect("T1 grouped");
    let seq: Vec<(u32, String)> = t1.1.iter().map(|st| (st.stop_sequence, st.stop_id.clone())).collect();
    assert_eq!(seq, vec![(1, "A".to_string()), (2, "B".to_string()), (2, "C".to_string())]);
    assert!(groups.iter().any(|(id, sts)| id == "T2" && sts.len() == 1));
}

#[test]
fn first_stop_arrival_is_its_departure() {
    let mut out = vec![StopTime { arrival: 1, departure: 1 }];
    let mut first = mk_st("T", "A", 0, 100);
    first.arrival_time = 90;
    let mut second = mk_st("T", "B", 1, 200);
    second.arrival_time = 190;
    build_stop_times(&vec![vec![first, second]], &mut out);
    assert_eq!(
        out,
        vec![StopTime { arrival: 1, departure: 1 }, StopTime { arrival: 100, departure: 100 }, StopTime { arrival: 190, departure: 200 }]
    );
}

fn service(id: &str, weekday_flags: [&str; 7]) -> FeedService {
    FeedService {
        service_id: id.to_string(),
        monday: weekday_flags[0].to_string(),
        tuesday: weekday_flags[1].to_string(),
        wednesday: weekday_flags[2].to_string(),
        thursday: weekday_flags[3].to_string(),
        friday: weekday_flags[4].to_string(),
        saturday: weekday_flags[5].to_string(),
        sunday: weekday_flags[6].to_string(),
    }
}

fn feed_info() -> FeedInfo {
    FeedInfo {
        feed_publisher_name: "P".to_string(),
        feed_publisher_url: "u".to_string(),
        feed_lang: "en".to_string(),
        feed_start_date: None,
        feed_end_date: None,
        feed_version: None,
    }
}

fn raw_feed() -> RawGTFSData {
    // Day 1 of the calendar is a Monday.
    let mut weekend = mk_trip("R", "T_weekend");
    weekend.service_id = "WE".to_string();
    let mut extra = mk_trip("R", "T_extra");
    extra.service_id = "EX".to_string();
    RawGTFSData {
        stops: vec![mk_stop("A"), mk_stop("B")],
        trips: vec![mk_trip("R", "T_weekday"), weekend, extra],
        stop_times: vec![
            mk_st("T_weekday", "A", 0, 100),
            mk_st("T_weekend", "A", 0, 200),
            mk_st("T_extra", "A", 0, 300),
            mk_st("T_weekday", "B", 1, 150),
        ],
        services: vec![service("WK", ["1", "1", "1", "1", "1", "0", "0"]), service("WE", ["0", "0", "0", "0", "0", "1", "1"])],
        feed_info: vec![feed_info()],
        calendar_dates: vec![
            FeedCalendarDates { service_id: "EX".to_string(), date: Some(ServiceDate { days_from_ce: 1 }), exception_type: 1 },
            FeedCalendarDates { service_id: "WK".to_string(), date: Some(ServiceDate { days_from_ce: 2 }), exception_type: 2 },
        ],
        transfers: vec![],
    }
}

#[test]
fn service_filter_reads_the_weekday_and_exceptions() {
    let raw = raw_feed();
    let monday = ServiceFilter::new(ServiceDate { days_from_ce: 1 }, &raw.services, &raw.calendar_dates);
    assert!(monday.is_service_active_on_weekday(&raw.services[0]));
    assert!(!monday.is_service_active_on_weekday(&raw.services[1]));
    let active = monday.get_active_services();
    assert!(active.contains("WK"));
    assert!(active.contains("EX"));
    assert!(!active.contains("WE"));

    let tuesday = ServiceFilter::new(ServiceDate { days_from_ce: 2 }, &raw.services, &raw.calendar_dates);
    let active = tuesday.get_active_services();
    assert!(!active.contains("WK"));
    let sunday = ServiceFilter::new(ServiceDate { days_from_ce: 7 }, &raw.services, &raw.calendar_dates);
    assert!(sunday.get_active_services().contains("WE"));
}

#[test]
fn filtering_by_date_keeps_running_trips_and_their_stop_times() {
    let filtered = filter_data_by_date(Some(ServiceDate { days_from_ce: 1 }), raw_feed());
    let trips: Vec<&str> = filtered.trips.iter().map(|t| t.trip_id.as_str()).collect();
    assert_eq!(trips, vec!["T_weekday", "T_extra"]);
    let st: Vec<u32> = filtered.stop_times.iter().map(|s| s.departure_time).collect();
    assert_eq!(st, vec![100, 300, 150]);
    assert_eq!(filtered.feeds_meta.len(), 1);

    let unfiltered = filter_data_by_date(None, raw_feed());
    assert_eq!(unfiltered.trips.len(), 3);
    assert_eq!(unfiltered.stop_times.len(), 4);
}

#[test]
fn feeds_are_concatenated_in_order() {
    let mut second = raw_feed();
    second.stops = vec![mk_stop("C")];
    let merged = load_raw_feed(vec![raw_feed(), second]);
    let ids: Vec<&str> = merged.stops.iter().map(|s| s.stop_id.as_str()).collect();
    assert_eq!(ids, vec!["A", "B", "C"]);
    assert_eq!(merged.trips.len(), 6);
    assert_eq!(merged.feed_info.len(), 2);
}

fn plain_stop(id: &str) -> Stop {
    Stop { stop_id: id.to_string(), geometry: Coordinate { x_bits: 0, y_bits: 0 }, routes_start: 0, routes_len: 0, transfers_start: 0, transfers_len: 0 }
}

#[test]
fn routes_through_each_stop_are_indexed_in_order() {
    let processed = ProcessedTransitData {
        stop_times: vec![],
        route_stops: vec![2, 0, 2, 1, 2],
        routes: vec![
            Route { num_trips: 0, num_stops: 3, stops_start: 0, trips_start: 0, route_id: "A".to_string() },
            Route { num_trips: 0, num_stops: 2, stops_start: 3, trips_start: 0, route_id: "B".to_string() },
        ],
        trips: vec![vec![], vec![]],
        stops: vec![plain_stop("S0"), plain_stop("S1"), plain_stop("S2"), plain_stop("S3")],
        feeds_meta: vec![],
        gtfs_transfers: vec![],
    };
    let data = build_public_transit_data(processed);
    assert_eq!(data.stop_routes, vec![0, 1, 0, 1]);
    let slices: Vec<(usize, usize)> = data.stops.iter().map(|s| (s.routes_start, s.routes_len)).collect();
    assert_eq!(slices, vec![(0, 1), (1, 1), (2, 2), (4, 0)]);
    assert!(data.transfers.is_empty());
}

#[test]
fn the_whole_feed_becomes_a_model() {
    let data = transit_model_from_gtfs(Some(ServiceDate { days_from_ce: 1 }), vec![raw_feed()]);
    assert_eq!(data.routes.len(), 2);
    assert_eq!(data.stops.len(), 2);
    assert_eq!(data.feeds_meta.len(), 1);
    let stops = create_stops_vector(vec![mk_stop("Q")]);
    assert_eq!(stops[0].stop_id, "Q");
    let processed = process_transit_data(FilteredGTFSData {
        stops: vec![mk_stop("A")],
        trips: vec![mk_trip("R", "T")],
        stop_times: vec![mk_st("T", "A", 0, 10)],
        feeds_meta: vec![],
        gtfs_transfers: vec![],
    });
    assert_eq!(processed.routes.len(), 1);
    assert_eq!(processed.stop_times, vec![StopTime { arrival: 10, departure: 10 }]);
}

#[test]
fn weekdays_follow_the_proleptic_calendar() {
    let services = vec![
        service("THU", ["0", "0", "0", "1", "0", "0", "0"]),
        service("SUN", ["0", "0", "0", "0", "0", "0", "1"]),
    ];
    // 1 January 1970 is day 719163 and a Thursday.
    let thursday = ServiceFilter::new(ServiceDate { days_from_ce: 719_163 }, &services, &[]);
    assert!(thursday.is_service_active_on_weekday(&services[0]));
    assert!(!thursday.is_service_active_on_weekday(&services[1]));
    // Day 0, 31 December of 1 BCE, is a Sunday.
    let sunday = ServiceFilter::new(ServiceDate { days_from_ce: 0 }, &services, &[]);
    assert!(sunday.is_service_active_on_weekday(&services[1]));
    // No date exists that far out.
    let outside = ServiceFilter::new(ServiceDate { days_from_ce: i32::MAX }, &services, &[]);
    assert!(!outside.is_service_active_on_weekday(&services[0]));
    assert!(!outside.is_service_active_on_weekday(&services[1]));
}
