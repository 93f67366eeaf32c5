use vulture::manual::SimpleTimetable;
use vulture::Duration;
use vulture::RaptorCache;
use vulture::SecondOfDay;
use vulture::Timetable;

#[test]
fn test_reboarding_picks_correct_boarding_stop() {

    #[derive(Debug, Clone, Copy, PartialEq, Eq, PartialOrd, Ord, Hash)]
    enum Stop {
        S,
        A,
        B,
        C,
        D,
    }

    #[derive(Debug, Clone, Copy, PartialEq, Eq, PartialOrd, Ord, Hash)]
    enum Route {
        R1,
        R2,
        R3,
    }

    #[derive(Debug, Clone, Copy, PartialEq, Eq, PartialOrd, Ord, Hash)]
    enum Trip {
        R1T1,
        R2T1,
        R3Late,
        R3Early,
    }

    let tt = SimpleTimetable::new()
        .route(
            Route::R1,
            &[Stop::S, Stop::A],
            &[(
                Trip::R1T1,
                &[
                    (SecondOfDay(0), SecondOfDay(0)),
                    (SecondOfDay(100), SecondOfDay(100)),
                ],
            )],
        )
        .route(
            Route::R2,
            &[Stop::S, Stop::B],
            &[(
                Trip::R2T1,
                &[
                    (SecondOfDay(0), SecondOfDay(0)),
                    (SecondOfDay(30), SecondOfDay(30)),
                ],
            )],
        )
        .route(
            Route::R3,
            &[Stop::A, Stop::B, Stop::C, Stop::D],
            &[
                (
                    Trip::R3Late,
                    &[
                        (SecondOfDay(105), SecondOfDay(105)),
                        (SecondOfDay(110), SecondOfDay(110)),
                        (SecondOfDay(120), SecondOfDay(120)),
                        (SecondOfDay(130), SecondOfDay(130)),
                    ],
                ),
                (
                    Trip::R3Early,
                    &[
                        (SecondOfDay(25), SecondOfDay(25)),
                        (SecondOfDay(30), SecondOfDay(30)),
                        (SecondOfDay(40), SecondOfDay(40)),
                        (SecondOfDay(50), SecondOfDay(50)),
                    ],
                ),
            ],
        );

    let journeys = tt
        .query()
        .from(&[(tt.stop_idx_of(&Stop::S), Duration(0))])
        .to(&[(tt.stop_idx_of(&Stop::D), Duration(0))])
        .max_transfers(3)
        .depart_at(SecondOfDay(0))
        .run();

    // The optimal journey: S->B via R2, then B->D via R3/Early, arriving at t=50
    assert!(!journeys.is_empty(), "should find at least one journey");

    let best = journeys.iter().min_by_key(|j| j.arrival()).unwrap();
    assert_eq!(best.arrival(), SecondOfDay(50));
    assert_eq!(best.plan, vec![(tt.route_idx_of(&Route::R2), tt.stop_idx_of(&Stop::B)), (tt.route_idx_of(&Route::R3), tt.stop_idx_of(&Stop::D))]);
}

#[test]
fn test_no_journey_disconnected_graph() {
    #[derive(Debug, Clone, Copy, PartialEq, Eq, PartialOrd, Ord, Hash)]
    enum Stop {
        A,
        B,
        C,
        D,
    }
    #[derive(Debug, Clone, Copy, PartialEq, Eq, PartialOrd, Ord, Hash)]
    enum Route {
        R1,
        R2,
    }
    #[derive(Debug, Clone, Copy, PartialEq, Eq, PartialOrd, Ord, Hash)]
    enum Trip {
        T1,
        T2,
    }

    let tt = SimpleTimetable::new()
        .route(
            Route::R1,
            &[Stop::A, Stop::B],
            &[(
                Trip::T1,
                &[
                    (SecondOfDay(0), SecondOfDay(0)),
                    (SecondOfDay(10), SecondOfDay(10)),
                ],
            )],
        )
        .route(
            Route::R2,
            &[Stop::C, Stop::D],
            &[(
                Trip::T2,
                &[
                    (SecondOfDay(0), SecondOfDay(0)),
                    (SecondOfDay(10), SecondOfDay(10)),
                ],
            )],
        );

    let journeys = tt
        .query()
        .from(&[(tt.stop_idx_of(&Stop::A), Duration(0))])
        .to(&[(tt.stop_idx_of(&Stop::D), Duration(0))])
        .max_transfers(3)
        .depart_at(SecondOfDay(0))
        .run();
    assert!(
        journeys.is_empty(),
        "disconnected graph should yield no journeys"
    );
}

#[test]
fn test_no_journey_missed_connection() {
    #[derive(Debug, Clone, Copy, PartialEq, Eq, PartialOrd, Ord, Hash)]
    enum Stop {
        A,
        B,
        C,
    }
    #[derive(Debug, Clone, Copy, PartialEq, Eq, PartialOrd, Ord, Hash)]
    enum Route {
        R1,
        R2,
    }
    #[derive(Debug, Clone, Copy, PartialEq, Eq, PartialOrd, Ord, Hash)]
    enum Trip {
        T1,
        T2,
    }

    let tt = SimpleTimetable::new()
        .route(
            Route::R1,
            &[Stop::A, Stop::B],
            &[(
                Trip::T1,
                &[
                    (SecondOfDay(0), SecondOfDay(0)),
                    (SecondOfDay(50), SecondOfDay(50)),
                ],
            )],
        )
        .route(
            Route::R2,
            &[Stop::B, Stop::C],
            &[(
                Trip::T2,
                &[
                    (SecondOfDay(0), SecondOfDay(30)),
                    (SecondOfDay(40), SecondOfDay(40)),
                ],
            )],
        );

    let journeys = tt
        .query()
        .from(&[(tt.stop_idx_of(&Stop::A), Duration(0))])
        .to(&[(tt.stop_idx_of(&Stop::C), Duration(0))])
        .max_transfers(3)
        .depart_at(SecondOfDay(0))
        .run();
    assert!(
        journeys.is_empty(),
        "missed connection should yield no journeys"
    );
}

#[test]
fn test_no_journey_late_departure() {
    #[derive(Debug, Clone, Copy, PartialEq, Eq, PartialOrd, Ord, Hash)]
    enum Stop {
        A,
        B,
    }
    #[derive(Debug, Clone, Copy, PartialEq, Eq, PartialOrd, Ord, Hash)]
    enum Route {
        R1,
    }
    #[derive(Debug, Clone, Copy, PartialEq, Eq, PartialOrd, Ord, Hash)]
    enum Trip {
        T1,
    }

    let tt = SimpleTimetable::new().route(
        Route::R1,
        &[Stop::A, Stop::B],
        &[(
            Trip::T1,
            &[
                (SecondOfDay(0), SecondOfDay(10)),
                (SecondOfDay(20), SecondOfDay(20)),
            ],
        )],
    );

    let journeys = tt
        .query()
        .from(&[(tt.stop_idx_of(&Stop::A), Duration(0))])
        .to(&[(tt.stop_idx_of(&Stop::B), Duration(0))])
        .max_transfers(3)
        .depart_at(SecondOfDay(100))
        .run();
    assert!(
        journeys.is_empty(),
        "late departure should yield no journeys"
    );
}

#[test]
fn test_no_journey_transfers_zero() {
    #[derive(Debug, Clone, Copy, PartialEq, Eq, PartialOrd, Ord, Hash)]
    enum Stop {
        A,
        B,
    }
    #[derive(Debug, Clone, Copy, PartialEq, Eq, PartialOrd, Ord, Hash)]
    enum Route {
        R1,
    }
    #[derive(Debug, Clone, Copy, PartialEq, Eq, PartialOrd, Ord, Hash)]
    enum Trip {
        T1,
    }

    let tt = SimpleTimetable::new().route(
        Route::R1,
        &[Stop::A, Stop::B],
        &[(
            Trip::T1,
            &[
                (SecondOfDay(0), SecondOfDay(0)),
                (SecondOfDay(10), SecondOfDay(10)),
            ],
        )],
    );

    let journeys = tt
        .query()
        .from(&[(tt.stop_idx_of(&Stop::A), Duration(0))])
        .to(&[(tt.stop_idx_of(&Stop::B), Duration(0))])
        .max_transfers(0)
        .depart_at(SecondOfDay(0))
        .run();
    assert!(journeys.is_empty(), "transfers=0 should yield no journeys");
}

#[test]
fn test_source_equals_target() {
    #[derive(Debug, Clone, Copy, PartialEq, Eq, PartialOrd, Ord, Hash)]
    enum Stop {
        A,
        B,
    }
    #[derive(Debug, Clone, Copy, PartialEq, Eq, PartialOrd, Ord, Hash)]
    enum Route {
        R1,
    }
    #[derive(Debug, Clone, Copy, PartialEq, Eq, PartialOrd, Ord, Hash)]
    enum Trip {
        T1,
    }

    let tt = SimpleTimetable::new().route(
        Route::R1,
        &[Stop::A, Stop::B],
        &[(
            Trip::T1,
            &[
                (SecondOfDay(0), SecondOfDay(0)),
                (SecondOfDay(10), SecondOfDay(10)),
            ],
        )],
    );

    let journeys = tt
        .query()
        .from(&[(tt.stop_idx_of(&Stop::A), Duration(0))])
        .to(&[(tt.stop_idx_of(&Stop::A), Duration(0))])
        .max_transfers(3)
        .depart_at(SecondOfDay(0))
        .run();
    assert!(
        journeys.is_empty(),
        "source == target should yield no journeys"
    );
}

#[test]
fn test_direct_journey_single_route() {
    #[derive(Debug, Clone, Copy, PartialEq, Eq, PartialOrd, Ord, Hash)]
    enum Stop {
        A,
        B,
        C,
    }
    #[derive(Debug, Clone, Copy, PartialEq, Eq, PartialOrd, Ord, Hash)]
    enum Route {
        R1,
    }
    #[derive(Debug, Clone, Copy, PartialEq, Eq, PartialOrd, Ord, Hash)]
    enum Trip {
        T1,
    }

    let tt = SimpleTimetable::new().route(
        Route::R1,
        &[Stop::A, Stop::B, Stop::C],
        &[(
            Trip::T1,
            &[
                (SecondOfDay(0), SecondOfDay(0)),
                (SecondOfDay(10), SecondOfDay(10)),
                (SecondOfDay(20), SecondOfDay(20)),
            ],
        )],
    );

    let journeys = tt
        .query()
        .from(&[(tt.stop_idx_of(&Stop::A), Duration(0))])
        .to(&[(tt.stop_idx_of(&Stop::C), Duration(0))])
        .max_transfers(3)
        .depart_at(SecondOfDay(0))
        .run();
    assert_eq!(journeys.len(), 1);
    assert_eq!(journeys[0].arrival(), SecondOfDay(20));
    assert_eq!(journeys[0].plan, vec![(tt.route_idx_of(&Route::R1), tt.stop_idx_of(&Stop::C))]);
}

#[test]
fn test_direct_journey_picks_fastest_route() {
    #[derive(Debug, Clone, Copy, PartialEq, Eq, PartialOrd, Ord, Hash)]
    enum Stop {
        A,
        B,
    }
    #[derive(Debug, Clone, Copy, PartialEq, Eq, PartialOrd, Ord, Hash)]
    enum Route {
        R1,
        R2,
    }
    #[derive(Debug, Clone, Copy, PartialEq, Eq, PartialOrd, Ord, Hash)]
    enum Trip {
        T1,
        T2,
    }

    let tt = SimpleTimetable::new()
        .route(
            Route::R1,
            &[Stop::A, Stop::B],
            &[(
                Trip::T1,
                &[
                    (SecondOfDay(0), SecondOfDay(0)),
                    (SecondOfDay(100), SecondOfDay(100)),
                ],
            )],
        )
        .route(
            Route::R2,
            &[Stop::A, Stop::B],
            &[(
                Trip::T2,
                &[
                    (SecondOfDay(0), SecondOfDay(0)),
                    (SecondOfDay(50), SecondOfDay(50)),
                ],
            )],
        );

    let journeys = tt
        .query()
        .from(&[(tt.stop_idx_of(&Stop::A), Duration(0))])
        .to(&[(tt.stop_idx_of(&Stop::B), Duration(0))])
        .max_transfers(3)
        .depart_at(SecondOfDay(0))
        .run();
    let best = journeys.iter().min_by_key(|j| j.arrival()).unwrap();
    assert_eq!(best.arrival(), SecondOfDay(50));
}

#[test]
fn test_exact_time_connection() {
    #[derive(Debug, Clone, Copy, PartialEq, Eq, PartialOrd, Ord, Hash)]
    enum Stop {
        A,
        B,
        C,
    }
    #[derive(Debug, Clone, Copy, PartialEq, Eq, PartialOrd, Ord, Hash)]
    enum Route {
        R1,
        R2,
    }
    #[derive(Debug, Clone, Copy, PartialEq, Eq, PartialOrd, Ord, Hash)]
    enum Trip {
        T1,
        T2,
    }

    let tt = SimpleTimetable::new()
        .route(
            Route::R1,
            &[Stop::A, Stop::B],
            &[(
                Trip::T1,
                &[
                    (SecondOfDay(0), SecondOfDay(0)),
                    (SecondOfDay(20), SecondOfDay(20)),
                ],
            )],
        )
        .route(
            Route::R2,
            &[Stop::B, Stop::C],
            &[(
                Trip::T2,
                &[
                    (SecondOfDay(0), SecondOfDay(20)),
                    (SecondOfDay(30), SecondOfDay(30)),
                ],
            )],
        );

    let journeys = tt
        .query()
        .from(&[(tt.stop_idx_of(&Stop::A), Duration(0))])
        .to(&[(tt.stop_idx_of(&Stop::C), Duration(0))])
        .max_transfers(3)
        .depart_at(SecondOfDay(0))
        .run();
    assert!(!journeys.is_empty(), "exact-time connection should work");
    let best = journeys.iter().min_by_key(|j| j.arrival()).unwrap();
    assert_eq!(best.arrival(), SecondOfDay(30));
    assert_eq!(
        best.plan,
        vec![(tt.route_idx_of(&Route::R1), tt.stop_idx_of(&Stop::B)), (tt.route_idx_of(&Route::R2), tt.stop_idx_of(&Stop::C))]
    );
}

#[test]
fn test_multi_trip_picks_earliest_catchable() {
    #[derive(Debug, Clone, Copy, PartialEq, Eq, PartialOrd, Ord, Hash)]
    enum Stop {
        A,
        B,
    }
    #[derive(Debug, Clone, Copy, PartialEq, Eq, PartialOrd, Ord, Hash)]
    enum Route {
        R1,
    }
    #[derive(Debug, Clone, Copy, PartialEq, Eq, PartialOrd, Ord, Hash)]
    enum Trip {
        T1,
        T2,
        T3,
    }

    let tt = SimpleTimetable::new().route(
        Route::R1,
        &[Stop::A, Stop::B],
        &[
            (
                Trip::T1,
                &[
                    (SecondOfDay(0), SecondOfDay(5)),
                    (SecondOfDay(15), SecondOfDay(15)),
                ],
            ),
            (
                Trip::T2,
                &[
                    (SecondOfDay(0), SecondOfDay(15)),
                    (SecondOfDay(25), SecondOfDay(25)),
                ],
            ),
            (
                Trip::T3,
                &[
                    (SecondOfDay(0), SecondOfDay(25)),
                    (SecondOfDay(35), SecondOfDay(35)),
                ],
            ),
        ],
    );

    // Query at tau=12: T1 departs A@5 (too early), T2 departs A@15 (catchable)
    let journeys = tt
        .query()
        .from(&[(tt.stop_idx_of(&Stop::A), Duration(0))])
        .to(&[(tt.stop_idx_of(&Stop::B), Duration(0))])
        .max_transfers(3)
        .depart_at(SecondOfDay(12))
        .run();
    assert_eq!(journeys.len(), 1);
    assert_eq!(journeys[0].arrival(), SecondOfDay(25)); // T2 arrives B@25
}

#[test]
fn test_two_transfer_journey() {
    #[derive(Debug, Clone, Copy, PartialEq, Eq, PartialOrd, Ord, Hash)]
    enum Stop {
        A,
        B,
        C,
        D,
    }
    #[derive(Debug, Clone, Copy, PartialEq, Eq, PartialOrd, Ord, Hash)]
    enum Route {
        R1,
        R2,
        R3,
    }
    #[derive(Debug, Clone, Copy, PartialEq, Eq, PartialOrd, Ord, Hash)]
    enum Trip {
        T1,
        T2,
        T3,
    }

    let tt = SimpleTimetable::new()
        .route(
            Route::R1,
            &[Stop::A, Stop::B],
            &[(
                Trip::T1,
                &[
                    (SecondOfDay(0), SecondOfDay(0)),
                    (SecondOfDay(10), SecondOfDay(10)),
                ],
            )],
        )
        .route(
            Route::R2,
            &[Stop::B, Stop::C],
            &[(
                Trip::T2,
                &[
                    (SecondOfDay(0), SecondOfDay(10)),
                    (SecondOfDay(20), SecondOfDay(20)),
                ],
            )],
        )
        .route(
            Route::R3,
            &[Stop::C, Stop::D],
            &[(
                Trip::T3,
                &[
                    (SecondOfDay(0), SecondOfDay(20)),
                    (SecondOfDay(30), SecondOfDay(30)),
                ],
            )],
        );

    let journeys = tt
        .query()
        .from(&[(tt.stop_idx_of(&Stop::A), Duration(0))])
        .to(&[(tt.stop_idx_of(&Stop::D), Duration(0))])
        .max_transfers(3)
        .depart_at(SecondOfDay(0))
        .run();
    assert!(!journeys.is_empty());
    let best = journeys.iter().min_by_key(|j| j.arrival()).unwrap();
    assert_eq!(best.arrival(), SecondOfDay(30));
    assert_eq!(
        best.plan,
        vec![(tt.route_idx_of(&Route::R1), tt.stop_idx_of(&Stop::B)), (tt.route_idx_of(&Route::R2), tt.stop_idx_of(&Stop::C)), (tt.route_idx_of(&Route::R3), tt.stop_idx_of(&Stop::D))]
    );
}

#[test]
fn test_pareto_optimal_fewer_transfers_vs_faster() {
    #[derive(Debug, Clone, Copy, PartialEq, Eq, PartialOrd, Ord, Hash)]
    enum Stop {
        A,
        B,
        D,
    }
    #[derive(Debug, Clone, Copy, PartialEq, Eq, PartialOrd, Ord, Hash)]
    enum Route {
        R1,
        R2,
        R3,
    }
    #[derive(Debug, Clone, Copy, PartialEq, Eq, PartialOrd, Ord, Hash)]
    enum Trip {
        T1,
        T2,
        T3,
    }

    let tt = SimpleTimetable::new()
        // Direct slow route A→D
        .route(
            Route::R1,
            &[Stop::A, Stop::D],
            &[(
                Trip::T1,
                &[
                    (SecondOfDay(0), SecondOfDay(0)),
                    (SecondOfDay(200), SecondOfDay(200)),
                ],
            )],
        )
        // Fast 2-leg: A→B via R2, B→D via R3
        .route(
            Route::R2,
            &[Stop::A, Stop::B],
            &[(
                Trip::T2,
                &[
                    (SecondOfDay(0), SecondOfDay(0)),
                    (SecondOfDay(40), SecondOfDay(40)),
                ],
            )],
        )
        .route(
            Route::R3,
            &[Stop::B, Stop::D],
            &[(
                Trip::T3,
                &[
                    (SecondOfDay(0), SecondOfDay(40)),
                    (SecondOfDay(100), SecondOfDay(100)),
                ],
            )],
        );

    let journeys = tt
        .query()
        .from(&[(tt.stop_idx_of(&Stop::A), Duration(0))])
        .to(&[(tt.stop_idx_of(&Stop::D), Duration(0))])
        .max_transfers(3)
        .depart_at(SecondOfDay(0))
        .run();
    assert_eq!(journeys.len(), 2, "should have 2 pareto-optimal journeys");

    let mut sorted = journeys.clone();
    sorted.sort_by_key(|j| j.arrival());
    // Faster journey (2 legs)
    assert_eq!(sorted[0].arrival(), SecondOfDay(100));
    assert_eq!(sorted[0].plan.len(), 2);
    // Slower direct journey (1 leg)
    assert_eq!(sorted[1].arrival(), SecondOfDay(200));
    assert_eq!(sorted[1].plan.len(), 1);
}

#[test]
fn test_footpath_enables_connection() {
    #[derive(Debug, Clone, Copy, PartialEq, Eq, PartialOrd, Ord, Hash)]
    enum Stop {
        A,
        B,
        C,
        D,
    }
    #[derive(Debug, Clone, Copy, PartialEq, Eq, PartialOrd, Ord, Hash)]
    enum Route {
        R1,
        R2,
    }
    #[derive(Debug, Clone, Copy, PartialEq, Eq, PartialOrd, Ord, Hash)]
    enum Trip {
        T1,
        T2,
    }

    let tt = SimpleTimetable::new()
        .route(
            Route::R1,
            &[Stop::A, Stop::B],
            &[(
                Trip::T1,
                &[
                    (SecondOfDay(0), SecondOfDay(0)),
                    (SecondOfDay(10), SecondOfDay(10)),
                ],
            )],
        )
        .route(
            Route::R2,
            &[Stop::C, Stop::D],
            &[(
                Trip::T2,
                &[
                    (SecondOfDay(0), SecondOfDay(20)),
                    (SecondOfDay(30), SecondOfDay(30)),
                ],
            )],
        )
        .footpath(Stop::B, Stop::C)
        .transfer_time(Stop::B, Stop::C, Duration(5));

    // Optimal: board R1 at A, alight at B (arr 10), walk B→C (arr 15),
    // board R2 at C (dep 20), alight at D (arr 30). Two boardings, with a
    // walk leg between them. Reconstruction traces back through the walk.
    let journeys = tt
        .query()
        .from(&[(tt.stop_idx_of(&Stop::A), Duration(0))])
        .to(&[(tt.stop_idx_of(&Stop::D), Duration(0))])
        .max_transfers(3)
        .depart_at(SecondOfDay(0))
        .run();
    assert_eq!(journeys.len(), 1, "expected one journey, got {journeys:?}");
    assert_eq!(journeys[0].arrival(), SecondOfDay(30));
    assert_eq!(
        journeys[0].plan,
        vec![(tt.route_idx_of(&Route::R1), tt.stop_idx_of(&Stop::B)), (tt.route_idx_of(&Route::R2), tt.stop_idx_of(&Stop::D))]
    );
}

#[test]
fn test_footpath_transfer_time_causes_miss() {
    #[derive(Debug, Clone, Copy, PartialEq, Eq, PartialOrd, Ord, Hash)]
    enum Stop {
        A,
        B,
        C,
        D,
    }
    #[derive(Debug, Clone, Copy, PartialEq, Eq, PartialOrd, Ord, Hash)]
    enum Route {
        R1,
        R2,
    }
    #[derive(Debug, Clone, Copy, PartialEq, Eq, PartialOrd, Ord, Hash)]
    enum Trip {
        T1,
        T2,
    }

    let tt = SimpleTimetable::new()
        .route(
            Route::R1,
            &[Stop::A, Stop::B],
            &[(
                Trip::T1,
                &[
                    (SecondOfDay(0), SecondOfDay(0)),
                    (SecondOfDay(50), SecondOfDay(50)),
                ],
            )],
        )
        .route(
            Route::R2,
            &[Stop::C, Stop::D],
            &[(
                Trip::T2,
                &[
                    (SecondOfDay(0), SecondOfDay(52)),
                    (SecondOfDay(60), SecondOfDay(60)),
                ],
            )],
        )
        .footpath(Stop::B, Stop::C)
        .transfer_time(Stop::B, Stop::C, Duration(5)); // 50+5=55 > 52

    let journeys = tt
        .query()
        .from(&[(tt.stop_idx_of(&Stop::A), Duration(0))])
        .to(&[(tt.stop_idx_of(&Stop::D), Duration(0))])
        .max_transfers(3)
        .depart_at(SecondOfDay(0))
        .run();
    assert!(
        journeys.is_empty(),
        "footpath transfer time should cause miss"
    );
}

#[test]
fn test_early_termination_no_improvement() {
    #[derive(Debug, Clone, Copy, PartialEq, Eq, PartialOrd, Ord, Hash)]
    enum Stop {
        A,
        B,
    }
    #[derive(Debug, Clone, Copy, PartialEq, Eq, PartialOrd, Ord, Hash)]
    enum Route {
        R1,
    }
    #[derive(Debug, Clone, Copy, PartialEq, Eq, PartialOrd, Ord, Hash)]
    enum Trip {
        T1,
    }

    let tt = SimpleTimetable::new().route(
        Route::R1,
        &[Stop::A, Stop::B],
        &[(
            Trip::T1,
            &[
                (SecondOfDay(0), SecondOfDay(0)),
                (SecondOfDay(10), SecondOfDay(10)),
            ],
        )],
    );

    let j1 = tt
        .query()
        .from(&[(tt.stop_idx_of(&Stop::A), Duration(0))])
        .to(&[(tt.stop_idx_of(&Stop::B), Duration(0))])
        .max_transfers(1)
        .depart_at(SecondOfDay(0))
        .run();
    let j100 = tt
        .query()
        .from(&[(tt.stop_idx_of(&Stop::A), Duration(0))])
        .to(&[(tt.stop_idx_of(&Stop::B), Duration(0))])
        .max_transfers(100)
        .depart_at(SecondOfDay(0))
        .run();

    assert_eq!(j1.len(), j100.len());
    assert_eq!(
        j1.iter().min_by_key(|j| j.arrival()).unwrap().arrival(),
        j100.iter().min_by_key(|j| j.arrival()).unwrap().arrival(),
    );
}

#[test]
fn test_dominance_prunes_slower_arrival() {
    #[derive(Debug, Clone, Copy, PartialEq, Eq, PartialOrd, Ord, Hash)]
    enum Stop {
        A,
        B,
    }
    #[derive(Debug, Clone, Copy, PartialEq, Eq, PartialOrd, Ord, Hash)]
    enum Route {
        R1,
        R2,
    }
    #[derive(Debug, Clone, Copy, PartialEq, Eq, PartialOrd, Ord, Hash)]
    enum Trip {
        T1,
        T2,
    }

    let tt = SimpleTimetable::new()
        .route(
            Route::R1,
            &[Stop::A, Stop::B],
            &[(
                Trip::T1,
                &[
                    (SecondOfDay(0), SecondOfDay(0)),
                    (SecondOfDay(50), SecondOfDay(50)),
                ],
            )],
        )
        .route(
            Route::R2,
            &[Stop::A, Stop::B],
            &[(
                Trip::T2,
                &[
                    (SecondOfDay(0), SecondOfDay(0)),
                    (SecondOfDay(100), SecondOfDay(100)),
                ],
            )],
        );

    let journeys = tt
        .query()
        .from(&[(tt.stop_idx_of(&Stop::A), Duration(0))])
        .to(&[(tt.stop_idx_of(&Stop::B), Duration(0))])
        .max_transfers(3)
        .depart_at(SecondOfDay(0))
        .run();
    // Both routes are discovered in round 1, so the slower one is dominated
    assert_eq!(journeys.len(), 1, "dominated journey should be pruned");
    assert_eq!(journeys[0].arrival(), SecondOfDay(50));
}

#[test]
fn test_raptor_with_cache_matches_fresh_run() {
    #[derive(Debug, Clone, Copy, PartialEq, Eq, PartialOrd, Ord, Hash)]
    enum Stop {
        A,
        B,
        C,
    }
    #[derive(Debug, Clone, Copy, PartialEq, Eq, PartialOrd, Ord, Hash)]
    enum Route {
        R1,
        R2,
    }
    #[derive(Debug, Clone, Copy, PartialEq, Eq, PartialOrd, Ord, Hash)]
    enum Trip {
        T1,
        T2,
    }

    let tt = SimpleTimetable::new()
        .route(
            Route::R1,
            &[Stop::A, Stop::B],
            &[(
                Trip::T1,
                &[
                    (SecondOfDay(0), SecondOfDay(0)),
                    (SecondOfDay(10), SecondOfDay(10)),
                ],
            )],
        )
        .route(
            Route::R2,
            &[Stop::B, Stop::C],
            &[(
                Trip::T2,
                &[
                    (SecondOfDay(15), SecondOfDay(15)),
                    (SecondOfDay(25), SecondOfDay(25)),
                ],
            )],
        );

    // Run several queries with varying parameters through one cache and
    // confirm each result matches a fresh-run baseline.
    let queries = [
        (3, SecondOfDay(0), Stop::A, Stop::C),
        (1, SecondOfDay(0), Stop::A, Stop::B),
        (5, SecondOfDay(5), Stop::A, Stop::C),
        (2, SecondOfDay(0), Stop::B, Stop::C),
    ];

    let mut cache: RaptorCache = RaptorCache::for_timetable(&tt);
    for &(transfers, depart, ps, pt) in &queries {
        let ps_idx = tt.stop_idx_of(&ps);
        let pt_idx = tt.stop_idx_of(&pt);
        let baseline = tt
            .query()
            .from(&[(ps_idx, Duration(0))])
            .to(&[(pt_idx, Duration(0))])
            .max_transfers(transfers as u8)
            .depart_at(depart)
            .run();
        let cached = tt
            .query()
            .from(&[(ps_idx, Duration(0))])
            .to(&[(pt_idx, Duration(0))])
            .max_transfers(transfers as u8)
            .depart_at(depart)
            .run_with_cache(&mut cache);
        assert_eq!(
            cached.len(),
            baseline.len(),
            "journey count differs at query {ps:?}->{pt:?}"
        );
        for (b, c) in baseline.iter().zip(cached.iter()) {
            assert_eq!(b.arrival(), c.arrival());
            assert_eq!(b.plan, c.plan);
        }
    }
}

#[test]
fn test_multi_source_picks_best_origin() {
    // Two parallel single-trip routes. R_fast goes A->C in 10. R_slow goes
    // B->C in 30 (departs same time but the trip itself takes longer).
    // Query "from {A, B} to C" should pick the journey via A (faster).

    #[derive(Debug, Clone, Copy, PartialEq, Eq, PartialOrd, Ord, Hash)]
    enum Stop {
        A,
        B,
        C,
    }
    #[derive(Debug, Clone, Copy, PartialEq, Eq, PartialOrd, Ord, Hash)]
    enum Route {
        RFast,
        RSlow,
    }
    #[derive(Debug, Clone, Copy, PartialEq, Eq, PartialOrd, Ord, Hash)]
    enum Trip {
        TFast,
        TSlow,
    }

    let tt = SimpleTimetable::new()
        .route(
            Route::RFast,
            &[Stop::A, Stop::C],
            &[(
                Trip::TFast,
                &[
                    (SecondOfDay(0), SecondOfDay(0)),
                    (SecondOfDay(10), SecondOfDay(10)),
                ],
            )],
        )
        .route(
            Route::RSlow,
            &[Stop::B, Stop::C],
            &[(
                Trip::TSlow,
                &[
                    (SecondOfDay(0), SecondOfDay(0)),
                    (SecondOfDay(30), SecondOfDay(30)),
                ],
            )],
        );

    let a = tt.stop_idx_of(&Stop::A);
    let b = tt.stop_idx_of(&Stop::B);
    let c = tt.stop_idx_of(&Stop::C);

    let journeys = tt
        .query()
        .from(&[(a, Duration(0)), (b, Duration(0))])
        .to(&[(c, Duration(0))])
        .max_transfers(3)
        .depart_at(SecondOfDay(0))
        .run();
    assert_eq!(journeys.len(), 1, "one Pareto-optimal journey expected");
    assert_eq!(journeys[0].arrival(), SecondOfDay(10));
    assert_eq!(
        journeys[0].origin, a,
        "should have started at Stop::A (the faster route)"
    );
    assert_eq!(journeys[0].target, c);
    assert_eq!(journeys[0].plan, vec![(tt.route_idx_of(&Route::RFast), tt.stop_idx_of(&Stop::C))]);
}

#[test]
fn test_multi_source_walk_offset_changes_best_origin() {
    // Same routes as above, but the user has a 30s walk to A and 0s to B.
    // The fast trip via A now effectively takes 30 + 10 = 40s of departure
    // delay + travel, while the slow trip via B takes 0 + 30 = 30s. So B
    // wins.

    #[derive(Debug, Clone, Copy, PartialEq, Eq, PartialOrd, Ord, Hash)]
    enum Stop {
        A,
        B,
        C,
    }
    #[derive(Debug, Clone, Copy, PartialEq, Eq, PartialOrd, Ord, Hash)]
    enum Route {
        RFast,
        RSlow,
    }
    #[derive(Debug, Clone, Copy, PartialEq, Eq, PartialOrd, Ord, Hash)]
    enum Trip {
        TFast,
        TSlow,
    }

    let tt = SimpleTimetable::new()
        // The slow trip needs to depart at 30 (so it leaves later than the
        // user is ready) for the algorithm to actually pick it cleanly.
        .route(
            Route::RFast,
            &[Stop::A, Stop::C],
            &[(
                Trip::TFast,
                &[
                    (SecondOfDay(30), SecondOfDay(30)),
                    (SecondOfDay(40), SecondOfDay(40)),
                ],
            )],
        )
        .route(
            Route::RSlow,
            &[Stop::B, Stop::C],
            &[(
                Trip::TSlow,
                &[
                    (SecondOfDay(0), SecondOfDay(0)),
                    (SecondOfDay(30), SecondOfDay(30)),
                ],
            )],
        );

    let a = tt.stop_idx_of(&Stop::A);
    let b = tt.stop_idx_of(&Stop::B);
    let c = tt.stop_idx_of(&Stop::C);

    // Walk 30s to A means the user reaches A at tau=30. By then TFast is
    // about to depart; arrival at C = 40.
    // Walk 0s to B means the user reaches B at tau=0. TSlow boards at 0,
    // arrives C at 30.
    let journeys = tt
        .query()
        .from(&[(a, Duration(30)), (b, Duration(0))])
        .to(&[(c, Duration(0))])
        .max_transfers(3)
        .depart_at(SecondOfDay(0))
        .run();
    let best = journeys.iter().min_by_key(|j| j.arrival()).unwrap();
    assert_eq!(best.arrival(), SecondOfDay(30));
    assert_eq!(
        best.origin, b,
        "should have started at Stop::B (closer + slow trip wins)"
    );
}

#[test]
fn test_multi_target_walk_offset_picks_best_target() {
    // Two targets, T1 reachable at 10 with walk 30 (effective 40), T2
    // reachable at 25 with walk 0 (effective 25). T2 should win.
    #[derive(Debug, Clone, Copy, PartialEq, Eq, PartialOrd, Ord, Hash)]
    enum Stop {
        A,
        T1,
        T2,
    }
    #[derive(Debug, Clone, Copy, PartialEq, Eq, PartialOrd, Ord, Hash)]
    enum Route {
        R1,
        R2,
    }
    #[derive(Debug, Clone, Copy, PartialEq, Eq, PartialOrd, Ord, Hash)]
    enum Trip {
        Tr1,
        Tr2,
    }

    let tt = SimpleTimetable::new()
        .route(
            Route::R1,
            &[Stop::A, Stop::T1],
            &[(
                Trip::Tr1,
                &[
                    (SecondOfDay(0), SecondOfDay(0)),
                    (SecondOfDay(10), SecondOfDay(10)),
                ],
            )],
        )
        .route(
            Route::R2,
            &[Stop::A, Stop::T2],
            &[(
                Trip::Tr2,
                &[
                    (SecondOfDay(0), SecondOfDay(0)),
                    (SecondOfDay(25), SecondOfDay(25)),
                ],
            )],
        );

    let a = tt.stop_idx_of(&Stop::A);
    let t1 = tt.stop_idx_of(&Stop::T1);
    let t2 = tt.stop_idx_of(&Stop::T2);

    let journeys = tt
        .query()
        .from(&[(a, Duration(0))])
        .to(&[(t1, Duration(30)), (t2, Duration(0))])
        .max_transfers(3)
        .depart_at(SecondOfDay(0))
        .run();
    let best = journeys.iter().min_by_key(|j| j.arrival()).unwrap();
    // best raw arrival at T1 = 10, +30 walk = 40 effective
    // best raw arrival at T2 = 25, +0 walk = 25 effective → wins
    assert_eq!(best.arrival(), SecondOfDay(25));
    assert_eq!(best.target, t2);
}
