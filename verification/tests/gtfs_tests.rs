use vulture::gtfs::{
    is_service_active, overtakes, split_non_overtaking, CivilDate, FeedStopTime, GtfsFeed,
    ServiceCalendar, ServiceException,
};

fn st(arr: u32, dep: u32) -> FeedStopTime {
    FeedStopTime {
        stop_id: String::new(),
        stop: None,
        arrival_time: Some(arr),
        departure_time: Some(dep),
    }
}

fn ymd(y: i16, m: i8, d: i8) -> CivilDate {
    CivilDate {
        year: y,
        month: m,
        day: d,
    }
}

/// Service ids interned: "weekday" is 0; 1 names no service.
const WEEKDAY: u32 = 0;
const NO_SUCH_SERVICE: u32 = 1;

/// A minimal feed with one calendar entry running Mon-Fri throughout 2026
/// for service "weekday".
fn weekday_only_feed() -> GtfsFeed {
    GtfsFeed {
        stops: vec![],
        route_ids: vec![],
        trips: vec![],
        calendar: vec![ServiceCalendar {
            service: WEEKDAY,
            monday: true,
            tuesday: true,
            wednesday: true,
            thursday: true,
            friday: true,
            saturday: false,
            sunday: false,
            start_date: ymd(2026, 1, 1),
            end_date: ymd(2026, 12, 31),
        }],
        calendar_dates: vec![],
    }
}

#[test]
fn calendar_active_on_weekday_inside_window() {
    let gtfs = weekday_only_feed();
    // 2026-05-04 is a Monday inside the window.
    assert!(is_service_active(&gtfs, WEEKDAY, ymd(2026, 5, 4)));
}

#[test]
fn calendar_inactive_on_weekend_inside_window() {
    let gtfs = weekday_only_feed();
    // 2026-05-02 is a Saturday — flag is false.
    assert!(!is_service_active(&gtfs, WEEKDAY, ymd(2026, 5, 2)));
}

#[test]
fn calendar_inactive_outside_date_window() {
    let gtfs = weekday_only_feed();
    // 2025-12-31 is a Wednesday but before start_date.
    assert!(!is_service_active(&gtfs, WEEKDAY, ymd(2025, 12, 31)));
    // 2027-01-04 is a Monday but after end_date.
    assert!(!is_service_active(&gtfs, WEEKDAY, ymd(2027, 1, 4)));
}

#[test]
fn calendar_dates_added_overrides_calendar_inactive() {
    let mut gtfs = weekday_only_feed();
    // Add a Saturday exception.
    gtfs.calendar_dates = vec![ServiceException {
        service: WEEKDAY,
        date: ymd(2026, 5, 2),
        added: true,
    }];
    assert!(is_service_active(&gtfs, WEEKDAY, ymd(2026, 5, 2)));
}

#[test]
fn calendar_dates_deleted_overrides_calendar_active() {
    let mut gtfs = weekday_only_feed();
    // Cancel the Monday 2026-05-04 service.
    gtfs.calendar_dates = vec![ServiceException {
        service: WEEKDAY,
        date: ymd(2026, 5, 4),
        added: false,
    }];
    assert!(!is_service_active(&gtfs, WEEKDAY, ymd(2026, 5, 4)));
}

#[test]
fn unknown_service_id_is_inactive() {
    let gtfs = weekday_only_feed();
    assert!(!is_service_active(&gtfs, NO_SUCH_SERVICE, ymd(2026, 5, 4)));
}

#[test]
fn overtakes_detects_arrival_inversion() {
    // Two stops; later trip arrives before earlier trip at the second stop.
    let earlier = vec![st(0, 0), st(20, 20)];
    let later = vec![st(5, 5), st(15, 15)];
    assert!(overtakes(&earlier, &later));
}

#[test]
fn overtakes_detects_departure_inversion() {
    // Later trip's departure precedes earlier's at the second stop.
    let earlier = vec![st(0, 0), st(10, 30)];
    let later = vec![st(5, 5), st(10, 20)];
    assert!(overtakes(&earlier, &later));
}

#[test]
fn non_overtaking_pair_is_clean() {
    let earlier = vec![st(0, 0), st(10, 10)];
    let later = vec![st(5, 5), st(15, 15)];
    assert!(!overtakes(&earlier, &later));
}

#[test]
fn equal_schedules_do_not_overtake() {
    // Two trips with identical schedules don't overtake each other.
    let a = vec![st(0, 0), st(10, 10)];
    let b = vec![st(0, 0), st(10, 10)];
    assert!(!overtakes(&a, &b));
}

#[test]
fn split_keeps_non_overtaking_trips_in_one_group() {
    let t1 = vec![st(0, 0), st(10, 10)];
    let t2 = vec![st(5, 5), st(15, 15)];
    let t3 = vec![st(10, 10), st(20, 20)];
    let trips = vec![
        ("t1", t1.as_slice()),
        ("t2", t2.as_slice()),
        ("t3", t3.as_slice()),
    ];
    let groups = split_non_overtaking(&trips);
    assert_eq!(groups, vec![vec!["t1", "t2", "t3"]]);
}

#[test]
fn split_separates_overtaking_trips() {
    // t1 departs first but is overtaken by t2 (the express).
    let t1_local = vec![st(0, 0), st(60, 60)];
    let t2_express = vec![st(10, 10), st(20, 20)];
    let t3_local = vec![st(70, 70), st(130, 130)];
    let trips = vec![
        ("t1", t1_local.as_slice()),
        ("t2", t2_express.as_slice()),
        ("t3", t3_local.as_slice()),
    ];
    let groups = split_non_overtaking(&trips);
    // Two non-overtaking sub-groups: {t1, t3} (locals) and {t2} (express).
    // Greedy insertion places t2 in a new sub-group when it overtakes t1,
    // then t3 lands in the t1 sub-group since it doesn't overtake t1.
    assert_eq!(groups.len(), 2);
    assert_eq!(groups[0], vec!["t1", "t3"]);
    assert_eq!(groups[1], vec!["t2"]);
}

#[test]
fn calendar_exception_first_listed_decides() {
    let mut gtfs = weekday_only_feed();
    gtfs.calendar_dates = vec![
        ServiceException {
            service: WEEKDAY,
            date: ymd(2026, 5, 4),
            added: false,
        },
        ServiceException {
            service: WEEKDAY,
            date: ymd(2026, 5, 4),
            added: true,
        },
    ];
    assert!(!is_service_active(&gtfs, WEEKDAY, ymd(2026, 5, 4)));
    // The window's bounds are inclusive: 2026-01-01 is a Thursday.
    assert!(is_service_active(&gtfs, WEEKDAY, ymd(2026, 1, 1)));
}

#[test]
fn split_keeps_groups_pairwise_non_overtaking_with_missing_arrivals() {
    // t2 gives no arrival at the second stop, so neither neighbour
    // overtakes it; t3 still arrives before t1 there and so may not share
    // t1's group.
    let t1 = vec![st(0, 0), st(10, 10)];
    let mut t2 = vec![st(1, 1), st(12, 12)];
    t2[1].arrival_time = None;
    let t3 = vec![st(2, 2), st(5, 13)];
    let trips = vec![
        ("t1", t1.as_slice()),
        ("t2", t2.as_slice()),
        ("t3", t3.as_slice()),
    ];
    assert!(!overtakes(&t1, &t2));
    assert!(!overtakes(&t2, &t3));
    assert!(overtakes(&t1, &t3));
    let groups = split_non_overtaking(&trips);
    assert_eq!(groups, vec![vec!["t1", "t2"], vec!["t3"]]);
}
