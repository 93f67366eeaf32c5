use vulture::proptest_support::multi_reference::reference_solve as reference_solve_multi;
use std::collections::BTreeSet;

use vulture::labels::ArrivalAndWalk;
use vulture::proptest_support::reference::{reference_range_solve, reference_solve, Prep};
use vulture::proptest_support::walk_reference::reference_solve_arrival_and_walk;
use vulture::proptest_support::spec::{
    close_footpaths, layer1_bounds, layer2_bounds, layer3_bounds, render, FootpathSpec,
    NetworkSpec, QuerySpec, RouteSpec, TripSpec,
};
use vulture::proptest_support::{arrival_and_walk_front, raptor_front};
use vulture::{ArrivalTime, Duration, Journey, RouteIdx, SecondOfDay, StopIdx, Timetable};

fn j(arrival: u32, plan: Vec<(u32, u32)>) -> Journey {
    Journey {
        origin: StopIdx::new(0),
        target: StopIdx::new(0),
        target_walk: Duration(0),
        plan: plan
            .into_iter()
            .map(|(r, s)| (RouteIdx::new(r), StopIdx::new(s)))
            .collect(),
        label: ArrivalTime(SecondOfDay(arrival)),
    }
}

#[test]
fn lib_raptor_front_drops_dominated_higher_trip_journeys() {
    let journeys = vec![
        j(100, vec![(0, 1)]),
        j(100, vec![(0, 2), (1, 3)]),
        j(80, vec![(0, 2), (1, 3)]),
    ];
    let f = raptor_front(&journeys);
    let expected: BTreeSet<(u32, u32, u16, u8)> =
        [(0u32, 0u32, 100u16, 1u8), (0u32, 0u32, 80u16, 2u8)]
            .into_iter()
            .collect();
    assert_eq!(f, expected);
}

#[test]
fn lib_raptor_front_empty_input_is_empty() {
    let f = raptor_front(&[]);
    assert!(f.is_empty());
}

#[test]
fn lib_raptor_front_strict_monotonicity_drops_ties() {
    let journeys = vec![j(50, vec![(0, 1)]), j(50, vec![(0, 1), (1, 2)])];
    let f = raptor_front(&journeys);
    let expected: BTreeSet<(u32, u32, u16, u8)> =
        [(0u32, 0u32, 50u16, 1u8)].into_iter().collect();
    assert_eq!(f, expected);
}

#[test]
fn raptor_front_keeps_slots_apart() {
    let mut a = j(100, vec![(0, 1)]);
    a.target = StopIdx::new(1);
    let b = j(50, vec![(0, 1)]);
    let f = raptor_front(&[a, b]);
    let expected: BTreeSet<(u32, u32, u16, u8)> =
        [(1u32, 0u32, 100u16, 1u8), (0u32, 0u32, 50u16, 1u8)]
            .into_iter()
            .collect();
    assert_eq!(f, expected);
}

fn jw(arrival: u32, walk: u32, trips: usize) -> Journey<ArrivalAndWalk> {
    Journey {
        origin: StopIdx::new(0),
        target: StopIdx::new(0),
        target_walk: Duration(0),
        plan: (0..trips)
            .map(|i| (RouteIdx::new(i as u32), StopIdx::new(1)))
            .collect(),
        label: ArrivalAndWalk {
            arrival: SecondOfDay(arrival),
            walk_time: Duration(walk),
        },
    }
}

#[test]
fn arrival_and_walk_front_keeps_incomparable_points() {
    let js = vec![jw(100, 10, 1), jw(90, 30, 1), jw(100, 30, 1), jw(80, 40, 2)];
    let f = arrival_and_walk_front(&js);
    let expected: BTreeSet<(u32, u32, u16, u16, u8)> = [
        (0u32, 0u32, 100u16, 10u16, 1u8),
        (0, 0, 90, 30, 1),
        (0, 0, 80, 40, 2),
    ]
    .into_iter()
    .collect();
    assert_eq!(f, expected);
}

fn query(ps: u8, pt: u8, tau: u16, max_transfers: u8) -> QuerySpec {
    QuerySpec {
        ps,
        pt,
        tau,
        max_transfers,
    }
}

#[test]
fn spec_close_footpaths_two_hop_chain() {
    let spec = NetworkSpec {
        n_stops: 3,
        routes: vec![],
        footpaths: vec![
            FootpathSpec {
                from: 0,
                to: 1,
                walk_time: 5,
            },
            FootpathSpec {
                from: 1,
                to: 2,
                walk_time: 7,
            },
        ],
        query: query(0, 2, 0, 1),
    };
    let closed = close_footpaths(&spec);
    assert_eq!(closed[0][1], Some(5));
    assert_eq!(closed[1][2], Some(7));
    assert_eq!(closed[0][2], Some(12), "two-hop walk should be closed");
    assert_eq!(closed[2][0], None, "directed: no return edge added");
    assert_eq!(closed[0][0], None, "no self-loop");
}

#[test]
fn spec_close_footpaths_picks_min_when_duplicate() {
    let spec = NetworkSpec {
        n_stops: 2,
        routes: vec![],
        footpaths: vec![
            FootpathSpec {
                from: 0,
                to: 1,
                walk_time: 10,
            },
            FootpathSpec {
                from: 0,
                to: 1,
                walk_time: 4,
            },
        ],
        query: query(0, 1, 0, 1),
    };
    let closed = close_footpaths(&spec);
    assert_eq!(closed[0][1], Some(4));
}

#[test]
fn close_footpaths_saturates() {
    let spec = NetworkSpec {
        n_stops: 3,
        routes: vec![],
        footpaths: vec![
            FootpathSpec {
                from: 0,
                to: 1,
                walk_time: 60000,
            },
            FootpathSpec {
                from: 1,
                to: 2,
                walk_time: 60000,
            },
        ],
        query: query(0, 2, 0, 1),
    };
    let closed = close_footpaths(&spec);
    assert_eq!(closed[0][2], Some(u16::MAX));
}

#[test]
fn reference_node_set_includes_trip_arrivals_departures_and_walk_targets() {
    let spec = NetworkSpec {
        n_stops: 3,
        routes: vec![RouteSpec {
            stop_sequence: vec![0, 1],
            trips: vec![TripSpec {
                first_dep: 100,
                leg_durations: vec![20],
                dwell_times: vec![5, 0],
            }],
        }],
        footpaths: vec![FootpathSpec {
            from: 1,
            to: 2,
            walk_time: 7,
        }],
        query: query(0, 2, 0, 2),
    };
    let prep = Prep::build(&spec, 0u8, 0u16);
    assert!(prep.nodes[&0].contains(&0));
    assert!(prep.nodes[&0].contains(&100));
    assert!(prep.nodes[&0].contains(&105));
    assert!(prep.nodes[&1].contains(&125));
    assert!(prep.nodes[&2].contains(&132));
}

fn front(items: &[(u16, u8)]) -> BTreeSet<(u16, u8)> {
    items.iter().copied().collect()
}

#[test]
fn reference_ps_eq_pt_returns_empty_to_match_algorithm() {
    let spec = NetworkSpec {
        n_stops: 2,
        routes: vec![],
        footpaths: vec![],
        query: query(0, 0, 42, 3),
    };
    assert!(reference_solve(&spec, 0, 0, 42, 3).is_empty());
}

#[test]
fn reference_disconnected_returns_empty() {
    let spec = NetworkSpec {
        n_stops: 2,
        routes: vec![],
        footpaths: vec![],
        query: query(0, 1, 0, 3),
    };
    assert!(reference_solve(&spec, 0, 1, 0, 3).is_empty());
}

#[test]
fn reference_single_trip_one_stop_hop() {
    let spec = NetworkSpec {
        n_stops: 2,
        routes: vec![RouteSpec {
            stop_sequence: vec![0, 1],
            trips: vec![TripSpec {
                first_dep: 10,
                leg_durations: vec![20],
                dwell_times: vec![0, 0],
            }],
        }],
        footpaths: vec![],
        query: query(0, 1, 0, 3),
    };
    assert_eq!(reference_solve(&spec, 0, 1, 0, 3), front(&[(30, 1)]));
}

#[test]
fn reference_walk_only_journey_is_dropped() {
    let spec = NetworkSpec {
        n_stops: 2,
        routes: vec![],
        footpaths: vec![FootpathSpec {
            from: 0,
            to: 1,
            walk_time: 5,
        }],
        query: query(0, 1, 100, 3),
    };
    assert!(reference_solve(&spec, 0, 1, 100, 3).is_empty());
}

#[test]
fn reference_walk_then_board_journey() {
    let spec = NetworkSpec {
        n_stops: 3,
        routes: vec![RouteSpec {
            stop_sequence: vec![1, 2],
            trips: vec![TripSpec {
                first_dep: 50,
                leg_durations: vec![20],
                dwell_times: vec![0, 0],
            }],
        }],
        footpaths: vec![FootpathSpec {
            from: 0,
            to: 1,
            walk_time: 5,
        }],
        query: query(0, 2, 0, 3),
    };
    assert_eq!(reference_solve(&spec, 0, 2, 0, 3), front(&[(70, 1)]));
}

#[test]
fn reference_pareto_front_two_options_one_dominated() {
    let route = |leg: u16| RouteSpec {
        stop_sequence: vec![0, 1],
        trips: vec![TripSpec {
            first_dep: 0,
            leg_durations: vec![leg],
            dwell_times: vec![0, 0],
        }],
    };
    let spec = NetworkSpec {
        n_stops: 2,
        routes: vec![route(100), route(80)],
        footpaths: vec![],
        query: query(0, 1, 0, 3),
    };
    assert_eq!(reference_solve(&spec, 0, 1, 0, 3), front(&[(80, 1)]));
}

#[test]
fn reference_transfer_trades_trips_for_time() {
    // Direct slow trip 0->2 arriving 200; fast two-trip path via 1 arriving 60.
    let spec = NetworkSpec {
        n_stops: 3,
        routes: vec![
            RouteSpec {
                stop_sequence: vec![0, 2],
                trips: vec![TripSpec {
                    first_dep: 0,
                    leg_durations: vec![200],
                    dwell_times: vec![0, 0],
                }],
            },
            RouteSpec {
                stop_sequence: vec![0, 1],
                trips: vec![TripSpec {
                    first_dep: 0,
                    leg_durations: vec![20],
                    dwell_times: vec![0, 0],
                }],
            },
            RouteSpec {
                stop_sequence: vec![1, 2],
                trips: vec![TripSpec {
                    first_dep: 30,
                    leg_durations: vec![30],
                    dwell_times: vec![0, 0],
                }],
            },
        ],
        footpaths: vec![],
        query: query(0, 2, 0, 3),
    };
    assert_eq!(
        reference_solve(&spec, 0, 2, 0, 3),
        front(&[(200, 1), (60, 2)])
    );
    assert_eq!(reference_solve(&spec, 0, 2, 0, 1), front(&[(200, 1)]));
}

#[test]
fn layer_bounds_grow() {
    let (a, b, c) = (layer1_bounds(), layer2_bounds(), layer3_bounds());
    assert!(!a.allow_footpaths && b.allow_footpaths && c.allow_footpaths);
    assert!(!b.allow_loops && c.allow_loops);
    assert_eq!((a.n_stops_max, b.n_stops_max, c.n_stops_max), (4, 5, 6));
}

#[test]
fn spec_render_single_route_two_stops_one_trip() {
    let spec = NetworkSpec {
        n_stops: 2,
        routes: vec![RouteSpec {
            stop_sequence: vec![0, 1],
            trips: vec![TripSpec {
                first_dep: 100,
                leg_durations: vec![20],
                dwell_times: vec![5, 0],
            }],
        }],
        footpaths: vec![],
        query: QuerySpec {
            ps: 0,
            pt: 1,
            tau: 0,
            max_transfers: 1,
        },
    };
    let tt = render(&spec);

    let _s0 = tt.stop_idx_of(&0u8);
    let _s1 = tt.stop_idx_of(&1u8);
    let r0 = tt.route_idx_of(&0u8);

    let routes_at_0 = tt.get_routes_serving_stop(_s0);
    assert_eq!(routes_at_0, &[(r0, 0)]);

    // Position 0 of route r0 corresponds to stop 0; position 1 to stop 1.
    let trip = tt
        .get_earliest_trip(r0, SecondOfDay(0), 0)
        .expect("trip exists");
    assert_eq!(tt.get_arrival_time(trip, 0), SecondOfDay(100));
    assert_eq!(tt.get_departure_time(trip, 0), SecondOfDay(105));
    assert_eq!(tt.get_arrival_time(trip, 1), SecondOfDay(125));
    assert_eq!(tt.get_departure_time(trip, 1), SecondOfDay(125));
}

#[test]
fn spec_render_emits_transitively_closed_footpaths() {
    let spec = NetworkSpec {
        n_stops: 3,
        routes: vec![],
        footpaths: vec![
            FootpathSpec {
                from: 0,
                to: 1,
                walk_time: 3,
            },
            FootpathSpec {
                from: 1,
                to: 2,
                walk_time: 4,
            },
        ],
        query: QuerySpec {
            ps: 0,
            pt: 2,
            tau: 0,
            max_transfers: 1,
        },
    };
    let tt = render(&spec);

    let s0 = tt.stop_idx_of(&0u8);
    let s1 = tt.stop_idx_of(&1u8);
    let s2 = tt.stop_idx_of(&2u8);

    let from_0: Vec<StopIdx> = tt.get_footpaths_from(s0).to_vec();
    assert!(from_0.contains(&s1), "direct A->B");
    assert!(from_0.contains(&s2), "transitive A->C must be present");
    assert_eq!(tt.get_transfer_time(s0, s2), Duration(7));
}

#[test]
fn render_route_positions_and_schedule() {
    let spec = NetworkSpec {
        n_stops: 2,
        routes: vec![RouteSpec {
            stop_sequence: vec![0, 1],
            trips: vec![TripSpec {
                first_dep: 100,
                leg_durations: vec![30],
                dwell_times: vec![0, 5],
            }],
        }],
        footpaths: vec![],
        query: query(0, 1, 0, 1),
    };
    let tt = render(&spec);
    assert_eq!(tt.n_stops(), 2);
    assert_eq!(tt.n_routes(), 1);
    let s0 = tt.stop_idx_of(&0);
    let s1 = tt.stop_idx_of(&1);
    let trip = tt.trip_idx_of(&0);
    assert_eq!(tt.get_departure_time(trip, 0), SecondOfDay(100));
    assert_eq!(tt.get_arrival_time(trip, 1), SecondOfDay(130));
    assert_eq!(tt.get_departure_time(trip, 1), SecondOfDay(135));
    assert_eq!(tt.get_stops_after(RouteIdx::new(0), 0), &[s0, s1]);
}

fn two_trip_line() -> NetworkSpec {
    let trip = |first_dep: u16| TripSpec {
        first_dep,
        leg_durations: vec![50],
        dwell_times: vec![0, 0],
    };
    NetworkSpec {
        n_stops: 2,
        routes: vec![RouteSpec {
            stop_sequence: vec![0, 1],
            trips: vec![trip(100), trip(200)],
        }],
        footpaths: vec![],
        query: query(0, 1, 0, 3),
    }
}

#[test]
fn reference_range_keeps_later_departures_that_arrive_later() {
    let spec = two_trip_line();
    let expected: BTreeSet<(u16, u16, u8)> = [(50u16, 150u16, 1u8), (150u16, 250u16, 1u8)]
        .into_iter()
        .collect();
    assert_eq!(reference_range_solve(&spec, 0, 1, &[150, 50], 3), expected);
}

#[test]
fn reference_range_drops_earlier_departure_with_same_arrival() {
    let spec = two_trip_line();
    let expected: BTreeSet<(u16, u16, u8)> = [(60u16, 150u16, 1u8)].into_iter().collect();
    assert_eq!(reference_range_solve(&spec, 0, 1, &[50, 60], 3), expected);
}

#[test]
fn reference_range_over_no_departures_is_empty() {
    let spec = two_trip_line();
    assert!(reference_range_solve(&spec, 0, 1, &[], 3).is_empty());
    assert!(reference_range_solve(&spec, 0, 1, &[250], 3).is_empty());
}

fn one_hop_with_walk(walk: Option<u16>) -> NetworkSpec {
    NetworkSpec {
        n_stops: 2,
        routes: vec![RouteSpec {
            stop_sequence: vec![0, 1],
            trips: vec![TripSpec {
                first_dep: 10,
                leg_durations: vec![20],
                dwell_times: vec![0, 0],
            }],
        }],
        footpaths: walk
            .map(|w| FootpathSpec {
                from: 0,
                to: 1,
                walk_time: w,
            })
            .into_iter()
            .collect(),
        query: query(0, 1, 0, 3),
    }
}

#[test]
fn walk_reference_single_ride() {
    let spec = one_hop_with_walk(None);
    let expected: BTreeSet<(u16, u16, u8)> = [(30u16, 0u16, 1u8)].into_iter().collect();
    assert_eq!(
        reference_solve_arrival_and_walk(&spec, &[(0, 0)], &[(1, 0)], 0, 3),
        expected
    );
}

#[test]
fn walk_reference_counts_target_walk_not_origin_walk() {
    let spec = one_hop_with_walk(None);
    let expected: BTreeSet<(u16, u16, u8)> = [(37u16, 7u16, 1u8)].into_iter().collect();
    assert_eq!(
        reference_solve_arrival_and_walk(&spec, &[(0, 5)], &[(1, 7)], 0, 3),
        expected
    );
}

#[test]
fn walk_reference_drops_walk_only_journeys() {
    let spec = one_hop_with_walk(Some(100));
    let expected: BTreeSet<(u16, u16, u8)> = [(30u16, 0u16, 1u8)].into_iter().collect();
    assert_eq!(
        reference_solve_arrival_and_walk(&spec, &[(0, 0)], &[(1, 0)], 0, 3),
        expected
    );
    // Too late for the trip: only walking remains, which is not emitted.
    assert!(reference_solve_arrival_and_walk(&spec, &[(0, 0)], &[(1, 0)], 11, 3).is_empty());
    // No trips allowed.
    assert!(reference_solve_arrival_and_walk(&spec, &[(0, 0)], &[(1, 0)], 0, 0).is_empty());
}

#[test]
fn walk_reference_threshold_drops_round_trip() {
    // A loop back to the start is matched by not moving at all.
    let spec = NetworkSpec {
        n_stops: 2,
        routes: vec![RouteSpec {
            stop_sequence: vec![0, 1, 0],
            trips: vec![TripSpec {
                first_dep: 10,
                leg_durations: vec![10, 10],
                dwell_times: vec![0, 0, 0],
            }],
        }],
        footpaths: vec![],
        query: query(0, 0, 0, 3),
    };
    assert!(reference_solve_arrival_and_walk(&spec, &[(0, 0)], &[(0, 0)], 0, 3).is_empty());
    let to_one: BTreeSet<(u16, u16, u8)> = [(20u16, 0u16, 1u8)].into_iter().collect();
    assert_eq!(
        reference_solve_arrival_and_walk(&spec, &[(0, 0)], &[(1, 0)], 0, 3),
        to_one
    );
}

#[test]
fn multi_reference_single_ride_and_thresholds() {
    let spec = one_hop_with_walk(None);
    let expected: BTreeSet<(u16, u8)> = [(30u16, 1u8)].into_iter().collect();
    assert_eq!(reference_solve_multi(&spec, &[(0, 0)], &[(1, 0)], 0, 3, false), expected);
    // The target's walk is added to the arrival.
    let expected: BTreeSet<(u16, u8)> = [(37u16, 1u8)].into_iter().collect();
    assert_eq!(reference_solve_multi(&spec, &[(0, 5)], &[(1, 7)], 0, 3, false), expected);
    // A slow walk does not prune the ride; a fast one does.
    let slow = one_hop_with_walk(Some(100));
    let expected: BTreeSet<(u16, u8)> = [(30u16, 1u8)].into_iter().collect();
    assert_eq!(reference_solve_multi(&slow, &[(0, 0)], &[(1, 0)], 0, 3, false), expected);
    let fast = one_hop_with_walk(Some(5));
    assert!(reference_solve_multi(&fast, &[(0, 0)], &[(1, 0)], 0, 3, false).is_empty());
    // Too late for the trip, or no trips allowed.
    assert!(reference_solve_multi(&spec, &[(0, 0)], &[(1, 0)], 11, 3, false).is_empty());
    assert!(reference_solve_multi(&spec, &[(0, 0)], &[(1, 0)], 0, 0, false).is_empty());
}
