use vulture::gtfs::timetable::GtfsTimetable;
use vulture::gtfs::{
    CivilDate, FeedStop, FeedStopTime, FeedTransfer, FeedTrip, GtfsError, GtfsFeed,
    ServiceCalendar,
};
use vulture::{Duration, SecondOfDay, StopIdx, Timetable};

fn st(stop: u32, arr: u32, dep: u32) -> FeedStopTime {
    FeedStopTime {
        stop_id: format!("s{stop}"),
        stop: Some(stop),
        arrival_time: Some(arr),
        departure_time: Some(dep),
    }
}

fn stop(id: &str, parent: Option<u32>, transfers: Vec<FeedTransfer>) -> FeedStop {
    FeedStop {
        id: id.to_string(),
        parent_station: parent,
        transfers,
    }
}

fn trip(id: &str, service: u32, stop_times: Vec<FeedStopTime>) -> FeedTrip {
    FeedTrip {
        id: id.to_string(),
        route: 0,
        service,
        stop_times,
    }
}

fn date(y: i16, m: i8, d: i8) -> CivilDate {
    CivilDate {
        year: y,
        month: m,
        day: d,
    }
}

/// Service 0 runs every day of 2026; service 1 never runs.
fn calendar() -> Vec<ServiceCalendar> {
    vec![ServiceCalendar {
        service: 0,
        monday: true,
        tuesday: true,
        wednesday: true,
        thursday: true,
        friday: true,
        saturday: true,
        sunday: true,
        start_date: date(2026, 1, 1),
        end_date: date(2026, 12, 31),
    }]
}

/// Stops 0 and 1 (children of station 2); a local, an express that
/// overtakes it, a later local, and a trip on a service that does not run.
fn feed() -> GtfsFeed {
    GtfsFeed {
        stops: vec![
            stop(
                "a",
                Some(2),
                vec![FeedTransfer {
                    to_stop: Some(1),
                    min_transfer_time: Some(90),
                }],
            ),
            stop("b", Some(2), vec![]),
            stop("station", None, vec![]),
        ],
        route_ids: vec!["line".to_string()],
        trips: vec![
            trip("local1", 0, vec![st(0, 0, 0), st(1, 60, 60)]),
            trip("express", 0, vec![st(0, 10, 10), st(1, 20, 20)]),
            trip("local2", 0, vec![st(0, 70, 70), st(1, 130, 130)]),
            trip("ghost", 1, vec![st(0, 5, 5), st(1, 6, 6)]),
        ],
        calendar: calendar(),
        calendar_dates: vec![],
    }
}

#[test]
fn gtfs_new_keeps_running_trips_and_splits_overtaking() {
    let tt = GtfsTimetable::new(&feed(), date(2026, 5, 4)).expect("feed is valid");
    assert_eq!(tt.n_trips(), 3);
    assert!(tt.trip_idx("ghost").is_none());
    // The express overtakes the first local: two routes from one GTFS route.
    assert_eq!(tt.n_routes(), 2);
    assert_eq!(tt.routes_for_gtfs_id("line").len(), 2);
    assert_eq!(tt.route_idx("line"), Some(tt.routes_for_gtfs_id("line")[0]));
    let a = tt.stop_idx("a").unwrap();
    let b = tt.stop_idx("b").unwrap();
    assert_eq!(tt.stop_id(a), "a");
    let express = tt.trip_idx("express").unwrap();
    assert_eq!(tt.trip_id(express), "express");
    assert_eq!(tt.get_departure_time(express, 0), SecondOfDay(10));
    assert_eq!(tt.get_arrival_time(express, 1), SecondOfDay(20));
    // Walking data: the feed's transfer, the default elsewhere.
    assert_eq!(tt.get_footpaths_from(a), &[b]);
    assert_eq!(tt.get_transfer_time(a, b), Duration(90));
    assert_eq!(tt.get_transfer_time(b, a), Duration(300));
    assert_eq!(
        tt.station_stops("station"),
        &[(a, Duration(0)), (b, Duration(0))]
    );
    assert!(tt.station_stops("nowhere").is_empty());
}

#[test]
fn gtfs_timetable_answers_queries() {
    let tt = GtfsTimetable::new(&feed(), date(2026, 5, 4)).unwrap();
    let a = tt.stop_idx("a").unwrap();
    let b = tt.stop_idx("b").unwrap();
    let journeys = tt
        .query()
        .from(a)
        .to(b)
        .max_transfers(2)
        .depart_at(SecondOfDay(0))
        .run();
    assert_eq!(journeys.len(), 1);
    assert_eq!(journeys[0].arrival(), SecondOfDay(20));
    // Leaving at 15 misses the express; the later local would arrive at
    // 130, but the 90 s walk gets there at 105, so no trip is worth taking
    // and walk-only journeys are not returned.
    let later = tt
        .query()
        .from(a)
        .to(b)
        .depart_at(SecondOfDay(15))
        .run();
    assert!(later.is_empty());
    let local2 = tt.trip_idx("local2").unwrap();
    let route = tt.routes_for_gtfs_id("line")[0];
    assert_eq!(tt.get_earliest_trip(route, SecondOfDay(15), 0), Some(local2));
}

#[test]
fn gtfs_new_reports_first_malformed_trip() {
    let mut f = feed();
    f.trips.push(trip("empty", 0, vec![]));
    f.trips.push(trip(
        "no_dep",
        0,
        vec![FeedStopTime {
            stop_id: "s0".to_string(),
            stop: Some(0),
            arrival_time: Some(1),
            departure_time: None,
        }],
    ));
    match GtfsTimetable::new(&f, date(2026, 5, 4)) {
        Err(e) => {
            assert_eq!(e, GtfsError::MissingStopTimes("empty".to_string()));
            assert_eq!(e.to_string(), "trip has no stop_times: empty");
        }
        Ok(_) => panic!("malformed feed accepted"),
    }
    f.trips.remove(4);
    match GtfsTimetable::new(&f, date(2026, 5, 4)) {
        Err(e) => {
            assert_eq!(
                e,
                GtfsError::MissingDepartureTime {
                    trip: "no_dep".to_string(),
                    stop: "s0".to_string(),
                }
            );
            assert_eq!(
                e.to_string(),
                "stop_time has no departure_time: trip no_dep, stop s0"
            );
        }
        Ok(_) => panic!("malformed feed accepted"),
    }
    let mut g = feed();
    g.trips.push(trip(
        "lost",
        0,
        vec![FeedStopTime {
            stop_id: "zz".to_string(),
            stop: None,
            arrival_time: Some(1),
            departure_time: Some(1),
        }],
    ));
    assert_eq!(
        GtfsTimetable::new(&g, date(2026, 5, 4)).err(),
        Some(GtfsError::MissingStop("zz".to_string()))
    );
    // A malformed trip on a service that does not run is ignored.
    let mut h = feed();
    h.trips.push(trip("idle", 1, vec![]));
    assert!(GtfsTimetable::new(&h, date(2026, 5, 4)).is_ok());
}

#[test]
fn gtfs_closure_flag() {
    let tt = GtfsTimetable::new(&feed(), date(2026, 5, 4)).unwrap();
    assert!(!tt.footpaths_are_transitively_closed());
    let closed = tt.assert_footpaths_closed();
    assert!(closed.footpaths_are_transitively_closed());
    let _ = StopIdx::new(0);
}

#[test]
fn walking_footpaths_keep_feed_transfers_and_clear_closure() {
    let tt = GtfsTimetable::new(&feed(), date(2026, 5, 4))
        .unwrap()
        .assert_footpaths_closed();
    assert!(tt.footpaths_are_transitively_closed());
    let a = tt.stop_idx("a").unwrap();
    let b = tt.stop_idx("b").unwrap();
    let station = tt.stop_idx("station").unwrap();
    let tt = tt.add_walking_footpaths(&[
        (a, b, 40),
        (b, a, 45),
        (b, a, 99),
        (a, a, 5),
        (b, station, 120),
    ]);
    assert!(!tt.footpaths_are_transitively_closed());
    // The feed's own transfer wins over the walking estimate.
    assert_eq!(tt.get_transfer_time(a, b), Duration(90));
    assert_eq!(tt.get_footpaths_from(a), &[b]);
    // The first walking edge for a pair wins; self-loops are skipped.
    assert_eq!(tt.get_transfer_time(b, a), Duration(45));
    assert_eq!(tt.get_footpaths_from(b), &[a, station]);
    assert_eq!(tt.get_transfer_time(b, station), Duration(120));
}

#[test]
fn feed_fits_checks_references() {
    let good = feed();
    assert!(vulture::gtfs::assemble::feed_fits(&good));
    let mut bad = feed();
    bad.trips[0].stop_times[0].stop = Some(1000);
    assert!(!vulture::gtfs::assemble::feed_fits(&bad));
    let mut bad_route = feed();
    bad_route.trips[0].route = 1000;
    assert!(!vulture::gtfs::assemble::feed_fits(&bad_route));
}
