use vulture::ffi::{run_arrival, run_fare, run_walk};
use vulture::labels::FareTable;
use vulture::manual::builders::{
    build_chain, build_grid, build_hub_spoke, build_linear, build_parallel_paths,
};
use vulture::{Duration, RouteIdx, SecondOfDay, StopIdx, Timetable};

#[test]
fn build_linear_is_one_route_through_every_stop() {
    let tt = build_linear(4, 3);
    assert_eq!(tt.n_stops(), 4);
    assert_eq!(tt.n_routes(), 1);
    assert_eq!(tt.trip_keys.len(), 3);
    let first = tt.stop_by_key[&0];
    let last = tt.stop_by_key[&3];
    assert_eq!(tt.get_stops_after(RouteIdx::new(0), 0).len(), 4);
    let journeys = run_arrival(
        &tt,
        &[(first, Duration(0))],
        &[(last, Duration(0))],
        2,
        SecondOfDay(0),
        false,
    );
    assert_eq!(journeys.len(), 1);
    assert_eq!(journeys[0].plan.len(), 1);
}

#[test]
fn build_chain_needs_one_trip_per_segment() {
    let tt = build_chain(3);
    assert_eq!(tt.n_routes(), 3);
    let start = tt.stop_by_key[&0];
    let end = tt.stop_by_key[&3];
    let journeys = run_arrival(
        &tt,
        &[(start, Duration(0))],
        &[(end, Duration(0))],
        5,
        SecondOfDay(0),
        false,
    );
    assert_eq!(journeys.len(), 1);
    assert_eq!(journeys[0].plan.len(), 3);
    assert_eq!(journeys[0].arrival(), SecondOfDay(50));
    // Two trips are not enough.
    let capped = run_arrival(
        &tt,
        &[(start, Duration(0))],
        &[(end, Duration(0))],
        2,
        SecondOfDay(0),
        false,
    );
    assert!(capped.is_empty());
}

#[test]
fn build_chain_walk_label_counts_no_walking() {
    let tt = build_chain(2);
    let start = tt.stop_by_key[&0];
    let end = tt.stop_by_key[&2];
    let journeys = run_walk(
        &tt,
        &[(start, Duration(0))],
        &[(end, Duration(0))],
        5,
        SecondOfDay(0),
        false,
    );
    assert_eq!(journeys.len(), 1);
    assert_eq!(journeys[0].plan.len(), 2);
}

#[test]
fn run_fare_sums_route_fares() {
    let tt = build_chain(2);
    let start = tt.stop_by_key[&0];
    let end = tt.stop_by_key[&2];
    let fares = FareTable::from_pairs(&[(RouteIdx::new(0), 150), (RouteIdx::new(1), 250)]);
    let journeys = run_fare(
        &tt,
        &fares,
        &[(start, Duration(0))],
        &[(end, Duration(0))],
        5,
        SecondOfDay(0),
        false,
    );
    assert_eq!(journeys.len(), 1);
    assert_eq!(journeys[0].label.fare, 400);
}

#[test]
fn build_grid_counts_routes() {
    let tt = build_grid(2, 3, 1);
    assert_eq!(tt.n_routes(), 3);
    assert_eq!(tt.get_stops_after(RouteIdx::new(0), 0).len(), 3);
    assert_eq!(tt.get_stops_after(RouteIdx::new(2), 0).len(), 2);
}

#[test]
fn build_hub_spoke_counts_routes() {
    let tt = build_hub_spoke(2, 2, 3);
    assert_eq!(tt.n_routes(), 4);
    assert_eq!(tt.get_stops_after(RouteIdx::new(0), 0).len(), 4);
    assert!(tt.stop_by_key.contains_key(&0) && tt.stop_by_key.contains_key(&1));
}

#[test]
fn build_parallel_paths_route_per_leg() {
    let tt = build_parallel_paths(2, 2);
    assert!(tt.n_routes() >= 2);
    let source: StopIdx = tt.stop_by_key[&0];
    let target: StopIdx = tt.stop_by_key[&1];
    let journeys = run_arrival(
        &tt,
        &[(source, Duration(0))],
        &[(target, Duration(0))],
        5,
        SecondOfDay(0),
        false,
    );
    assert!(!journeys.is_empty());
}

#[test]
fn build_linear_gives_trip_key_t_trip_index_t() {
    let tt = build_linear(3, 4);
    for t in 0..4usize {
        let idx = tt.trip_by_key[&t];
        assert_eq!(idx, vulture::TripIdx(t as u32));
        for i in 0..3u32 {
            let base = (t as u32) * 3 * 2 + 2 * i;
            assert_eq!(tt.get_arrival_time(idx, i), SecondOfDay(base));
            assert_eq!(tt.get_departure_time(idx, i), SecondOfDay(base + 1));
        }
    }
}

#[test]
fn build_hub_spoke_joins_every_hub_pair_by_a_two_second_walk() {
    let tt = build_hub_spoke(3, 1, 2);
    assert_eq!(tt.n_routes(), 3);
    assert_eq!(tt.n_stops(), 3 + 3 * 2);
    for i in 0..3usize {
        let hi = tt.stop_by_key[&i];
        let walks = tt.get_footpaths_from(hi);
        assert!(!walks.contains(&hi));
        assert_eq!(walks.len(), 2);
        for j in 0..3usize {
            if i != j {
                let hj = tt.stop_by_key[&j];
                assert!(walks.contains(&hj));
                assert_eq!(tt.get_transfer_time(hi, hj), Duration(2));
            }
        }
    }
}

#[test]
fn build_parallel_paths_chains_legs_from_end_to_end() {
    let tt = build_parallel_paths(3, 2);
    // Path 0 has one leg, path 1 two legs, path 2 one leg.
    assert_eq!(tt.n_routes(), 4);
    let src = tt.stop_by_key[&0];
    let dst = tt.stop_by_key[&1];
    let mid = tt.stop_by_key[&2];
    assert_eq!(tt.routes[0], vec![src, dst]);
    assert_eq!(tt.routes[1], vec![src, mid]);
    assert_eq!(tt.routes[2], vec![mid, dst]);
    assert_eq!(tt.routes[3], vec![src, dst]);
    // Path 1: legs of (1000 - 50) / 2 = 475 seconds.
    let t1 = tt.trip_by_key[&1];
    let t2 = tt.trip_by_key[&2];
    assert_eq!(tt.get_departure_time(t1, 0), SecondOfDay(1));
    assert_eq!(tt.get_arrival_time(t1, 1), SecondOfDay(470));
    assert_eq!(tt.get_departure_time(t2, 0), SecondOfDay(476));
    assert_eq!(tt.get_arrival_time(t2, 1), SecondOfDay(945));
}
