use fixedbitset::FixedBitSet;
use vulture::algorithm::range::newly_active_stops_into;
use vulture::labels::ArrivalAndWalk;
use vulture::manual::SimpleTimetable;
use vulture::Duration;
use vulture::RaptorCache;
use vulture::SecondOfDay;
use vulture::Timetable;
use vulture::timetable::ClosedFootpaths;

#[test]
fn query_builder_single_departure() {

    #[derive(Debug, Clone, Copy, PartialEq, Eq, PartialOrd, Ord, Hash)]
    enum S {
        A,
        B,
        C,
    }
    #[derive(Debug, Clone, Copy, PartialEq, Eq, PartialOrd, Ord, Hash)]
    enum R {
        R1,
    }
    #[derive(Debug, Clone, Copy, PartialEq, Eq, PartialOrd, Ord, Hash)]
    enum Tr {
        T1,
    }

    let tt = SimpleTimetable::new().route(
        R::R1,
        &[S::A, S::B, S::C],
        &[(
            Tr::T1,
            &[
                (SecondOfDay(0), SecondOfDay(0)),
                (SecondOfDay(10), SecondOfDay(10)),
                (SecondOfDay(20), SecondOfDay(20)),
            ],
        )],
    );
    let a = tt.stop_idx_of(&S::A);
    let c = tt.stop_idx_of(&S::C);

    // 1. Bare typestate flow with all defaults except from/to/depart_at.
    let journeys = tt.query().from(a).to(c).depart_at(SecondOfDay(0)).run();
    assert_eq!(journeys.len(), 1);
    assert_eq!(journeys[0].arrival(), SecondOfDay(20));

    // 2. With max_transfers and a u8 literal (Into<Transfers>).
    let journeys = tt
        .query()
        .from(a)
        .to(c)
        .max_transfers(3)
        .depart_at(SecondOfDay(0))
        .run();
    assert_eq!(journeys.len(), 1);

    // 3. With explicit cache (run_with_cache).
    let mut cache = vulture::RaptorCache::for_timetable(&tt);
    let journeys = tt
        .query()
        .from(a)
        .to(c)
        .depart_at(SecondOfDay(0))
        .run_with_cache(&mut cache);
    assert_eq!(journeys.len(), 1);

    // 4. Custom label via query_with_label.
    let journeys: Vec<vulture::Journey<ArrivalAndWalk>> = tt
        .query_with_label::<ArrivalAndWalk>()
        .from(a)
        .to(c)
        .depart_at(SecondOfDay(0))
        .run();
    assert_eq!(journeys.len(), 1);
    assert_eq!(journeys[0].label.walk_time, Duration(0));
}

#[test]
fn query_builder_range_departure() {
    #[derive(Debug, Clone, Copy, PartialEq, Eq, PartialOrd, Ord, Hash)]
    enum S {
        A,
        B,
    }
    #[derive(Debug, Clone, Copy, PartialEq, Eq, PartialOrd, Ord, Hash)]
    enum R {
        R1,
    }
    #[derive(Debug, Clone, Copy, PartialEq, Eq, PartialOrd, Ord, Hash)]
    enum Tr {
        T1,
        T2,
        T3,
    }

    let tt = SimpleTimetable::new().route(
        R::R1,
        &[S::A, S::B],
        &[
            (
                Tr::T1,
                &[
                    (SecondOfDay(0), SecondOfDay(0)),
                    (SecondOfDay(10), SecondOfDay(10)),
                ],
            ),
            (
                Tr::T2,
                &[
                    (SecondOfDay(10), SecondOfDay(10)),
                    (SecondOfDay(20), SecondOfDay(20)),
                ],
            ),
            (
                Tr::T3,
                &[
                    (SecondOfDay(20), SecondOfDay(20)),
                    (SecondOfDay(30), SecondOfDay(30)),
                ],
            ),
        ],
    );
    let a = tt.stop_idx_of(&S::A);
    let b = tt.stop_idx_of(&S::B);

    let profile = tt
        .query()
        .from(a)
        .to(b)
        .depart_in_window(&[
            SecondOfDay(0),
            SecondOfDay(5),
            SecondOfDay(10),
            SecondOfDay(15),
            SecondOfDay(20),
        ])
        .run();

    let mut points: Vec<(SecondOfDay, SecondOfDay)> = profile
        .iter()
        .map(|p| (p.depart, p.journey.arrival()))
        .collect();
    points.sort();
    assert_eq!(
        points,
        vec![
            (SecondOfDay(0), SecondOfDay(10)),
            (SecondOfDay(10), SecondOfDay(20)),
            (SecondOfDay(20), SecondOfDay(30))
        ]
    );
}

#[test]
fn into_endpoints_accepts_natural_input_shapes() {
    // The single-stop call is the headline ergonomics win – `start` and
    // `end` go straight in, no slice-of-tuples wrapping.
    #[derive(Debug, Clone, Copy, PartialEq, Eq, PartialOrd, Ord, Hash)]
    enum S {
        A,
        B,
        C,
    }
    #[derive(Debug, Clone, Copy, PartialEq, Eq, PartialOrd, Ord, Hash)]
    enum R {
        R1,
    }
    #[derive(Debug, Clone, Copy, PartialEq, Eq, PartialOrd, Ord, Hash)]
    enum Tr {
        T1,
    }

    let tt = SimpleTimetable::new().route(
        R::R1,
        &[S::A, S::B, S::C],
        &[(
            Tr::T1,
            &[
                (SecondOfDay(0), SecondOfDay(0)),
                (SecondOfDay(10), SecondOfDay(10)),
                (SecondOfDay(20), SecondOfDay(20)),
            ],
        )],
    );
    let a = tt.stop_idx_of(&S::A);
    let b = tt.stop_idx_of(&S::B);
    let c = tt.stop_idx_of(&S::C);

    // 1. Bare StopIdx – the trivial case.
    let j = tt
        .query()
        .from(a)
        .to(c)
        .max_transfers(3)
        .depart_at(SecondOfDay(0))
        .run();
    assert_eq!(j.len(), 1);
    assert_eq!(j[0].arrival(), SecondOfDay(20));

    // 2. (StopIdx, Duration) pair as a single endpoint with explicit walk.
    //    Walk-time offset of 0 should match the bare-stop behaviour above.
    let j = tt
        .query()
        .from((a, Duration(0)))
        .to(c)
        .max_transfers(3)
        .depart_at(SecondOfDay(0))
        .run();
    assert_eq!(j[0].arrival(), SecondOfDay(20));

    // 3. Slice of stops (multi-source / multi-target with walk = 0).
    let stops = [a, b];
    let j = tt
        .query()
        .from(&stops[..])
        .to(c)
        .max_transfers(3)
        .depart_at(SecondOfDay(0))
        .run();
    assert_eq!(j[0].arrival(), SecondOfDay(20));

    // 4. Slice of (stop, duration) pairs – the v0.13 shape.
    let pairs = [(a, Duration(0))];
    let j = tt
        .query()
        .from(&pairs[..])
        .to(&[(c, Duration(0))][..])
        .max_transfers(3)
        .depart_at(SecondOfDay(0))
        .run();
    assert_eq!(j[0].arrival(), SecondOfDay(20));

    // 5. Owned Vec of (stop, duration) pairs.
    let owned = vec![(a, Duration(0))];
    let j = tt
        .query()
        .from(&owned)
        .to(c)
        .max_transfers(3)
        .depart_at(SecondOfDay(0))
        .run();
    assert_eq!(j[0].arrival(), SecondOfDay(20));

    // 6. Pre-built Endpoints.
    let mut ep = vulture::Endpoints::new();
    ep.push(a, Duration(0));
    let j = tt
        .query()
        .from(ep)
        .to(c)
        .max_transfers(3)
        .depart_at(SecondOfDay(0))
        .run();
    assert_eq!(j[0].arrival(), SecondOfDay(20));
}

#[test]
fn test_closed_path_dispatch_matches_dijkstra() {
    // The same scenario through the Dijkstra footpath pass and, wrapped
    // as transitively closed, through the single pass: identical journeys.
    #[derive(Debug, Clone, Copy, PartialEq, Eq, PartialOrd, Ord, Hash)]
    enum S {
        A,
        B,
        C,
        D,
    }
    #[derive(Debug, Clone, Copy, PartialEq, Eq, PartialOrd, Ord, Hash)]
    enum R {
        R1,
        R2,
    }
    #[derive(Debug, Clone, Copy, PartialEq, Eq, PartialOrd, Ord, Hash)]
    enum Tr {
        T1,
        T2,
    }

    // A→B by R1, walk B→C, C→D by R2. The walk is a single direct edge
    // so closure is trivially satisfied – both paths must agree.
    let inner = SimpleTimetable::new()
        .route(
            R::R1,
            &[S::A, S::B],
            &[(
                Tr::T1,
                &[
                    (SecondOfDay(0), SecondOfDay(0)),
                    (SecondOfDay(10), SecondOfDay(10)),
                ],
            )],
        )
        .route(
            R::R2,
            &[S::C, S::D],
            &[(
                Tr::T2,
                &[
                    (SecondOfDay(0), SecondOfDay(15)),
                    (SecondOfDay(25), SecondOfDay(25)),
                ],
            )],
        )
        .footpath(S::B, S::C)
        .transfer_time(S::B, S::C, Duration(3));

    let a = inner.stop_idx_of(&S::A);
    let d = inner.stop_idx_of(&S::D);

    let dijkstra = inner
        .query()
        .from(&[(a, Duration(0))])
        .to(&[(d, Duration(0))])
        .max_transfers(3)
        .depart_at(SecondOfDay(0))
        .run();
    let closed = ClosedFootpaths(inner)
        .query()
        .from(a)
        .to(d)
        .max_transfers(3)
        .depart_at(SecondOfDay(0))
        .run();

    assert_eq!(dijkstra.len(), closed.len(), "journey count must match");
    for (a, b) in dijkstra.iter().zip(closed.iter()) {
        assert_eq!(a.arrival(), b.arrival(), "arrival must match");
        assert_eq!(a.plan, b.plan, "plan must match");
    }
}

#[test]
fn arrival_and_walk_label_tracks_accumulated_walk_time() {

    #[derive(Debug, Clone, Copy, PartialEq, Eq, PartialOrd, Ord, Hash)]
    enum S {
        A,
        B,
        C,
    }
    #[derive(Debug, Clone, Copy, PartialEq, Eq, PartialOrd, Ord, Hash)]
    enum R {
        R1,
        R2,
    }
    #[derive(Debug, Clone, Copy, PartialEq, Eq, PartialOrd, Ord, Hash)]
    enum Tr {
        T1,
        T2,
    }

    // A→B by R1 (arr 10), walk B→C 7s, then C→D... actually just B→C:
    // we use a R2 from C to test. Walk B→C is 7s; final journey uses
    // 7s of walking.
    let tt = SimpleTimetable::new()
        .route(
            R::R1,
            &[S::A, S::B],
            &[(
                Tr::T1,
                &[
                    (SecondOfDay(0), SecondOfDay(0)),
                    (SecondOfDay(10), SecondOfDay(10)),
                ],
            )],
        )
        .route(
            R::R2,
            &[S::C],
            &[(Tr::T2, &[(SecondOfDay(20), SecondOfDay(20))])],
        )
        .footpath(S::B, S::C)
        .transfer_time(S::B, S::C, Duration(7));

    let a = tt.stop_idx_of(&S::A);
    let c = tt.stop_idx_of(&S::C);

    // Default ArrivalTime path
    let default_journeys = tt
        .query()
        .from(&[(a, Duration(0))])
        .to(&[(c, Duration(0))])
        .max_transfers(3)
        .depart_at(SecondOfDay(0))
        .run();
    assert!(!default_journeys.is_empty());
    assert_eq!(default_journeys[0].arrival(), SecondOfDay(17)); // 10 + 7

    // Public ArrivalAndWalk via the labeled query builder.
    let label_journeys: Vec<vulture::Journey<ArrivalAndWalk>> = tt
        .query_with_label::<ArrivalAndWalk>()
        .from(a)
        .to(c)
        .max_transfers(3)
        .depart_at(SecondOfDay(0))
        .run();
    assert_eq!(label_journeys.len(), default_journeys.len());
    assert_eq!(label_journeys[0].arrival(), SecondOfDay(17));
    assert_eq!(
        label_journeys[0].label.walk_time,
        Duration(7),
        "walk time tracked"
    );

    // Same via the labeled builder + cache.
    let mut cache = RaptorCache::<ArrivalAndWalk>::for_timetable(&tt);
    let cached = tt
        .query_with_label::<ArrivalAndWalk>()
        .from(a)
        .to(c)
        .max_transfers(3)
        .depart_at(SecondOfDay(0))
        .run_with_cache(&mut cache);
    assert_eq!(cached.len(), 1);
    assert_eq!(cached[0].label.walk_time, Duration(7));
}

#[test]
fn raptor_range_returns_pareto_profile_across_departures() {
    // R1 has three departures: T1 (0->10), T2 (10->20), T3 (20->30).
    // Querying departures [0, 5, 10, 15, 20]:
    // - depart=0  catches T1, arr=10
    // - depart=5  catches T2, arr=20 (no choice but to wait)
    // - depart=10 catches T2, arr=20 – strictly better than depart=5
    //   (later departure, same arrival) → depart=5 dominated, dropped.
    // - depart=15 catches T3, arr=30 (must wait)
    // - depart=20 catches T3, arr=30 – better than depart=15, drop it.
    // Profile: [(0, arr 10), (10, arr 20), (20, arr 30)].
    #[derive(Debug, Clone, Copy, PartialEq, Eq, PartialOrd, Ord, Hash)]
    enum S {
        A,
        B,
    }
    #[derive(Debug, Clone, Copy, PartialEq, Eq, PartialOrd, Ord, Hash)]
    enum R {
        R1,
    }
    #[derive(Debug, Clone, Copy, PartialEq, Eq, PartialOrd, Ord, Hash)]
    enum Tr {
        T1,
        T2,
        T3,
    }

    let tt = SimpleTimetable::new().route(
        R::R1,
        &[S::A, S::B],
        &[
            (
                Tr::T1,
                &[
                    (SecondOfDay(0), SecondOfDay(0)),
                    (SecondOfDay(10), SecondOfDay(10)),
                ],
            ),
            (
                Tr::T2,
                &[
                    (SecondOfDay(10), SecondOfDay(10)),
                    (SecondOfDay(20), SecondOfDay(20)),
                ],
            ),
            (
                Tr::T3,
                &[
                    (SecondOfDay(20), SecondOfDay(20)),
                    (SecondOfDay(30), SecondOfDay(30)),
                ],
            ),
        ],
    );

    let a = tt.stop_idx_of(&S::A);
    let b = tt.stop_idx_of(&S::B);

    let profile = tt
        .query()
        .from(&[(a, Duration(0))])
        .to(&[(b, Duration(0))])
        .max_transfers(3)
        .depart_in_window(&[
            SecondOfDay(0),
            SecondOfDay(5),
            SecondOfDay(10),
            SecondOfDay(15),
            SecondOfDay(20),
        ])
        .run();

    let mut points: Vec<(vulture::SecondOfDay, vulture::SecondOfDay)> = profile
        .iter()
        .map(|p| (p.depart, p.journey.arrival()))
        .collect();
    points.sort();

    assert_eq!(
        points,
        vec![
            (SecondOfDay(0), SecondOfDay(10)),
            (SecondOfDay(10), SecondOfDay(20)),
            (SecondOfDay(20), SecondOfDay(30))
        ]
    );
}

#[test]
fn arrival_and_walk_returns_pareto_front() {
    // Two routes reach two intermediate stops; both stops walk to the
    // target with different walk times. Path via X is faster but with
    // more walking; path via Y is slower but with less walking. Neither
    // dominates the other on (arrival, walk_time), so an
    // `ArrivalAndWalk` query should return both. An `ArrivalTime`
    // query returns only the arrival-min path.

    #[derive(Debug, Clone, Copy, PartialEq, Eq, PartialOrd, Ord, Hash)]
    enum S {
        A,
        X,
        Y,
        T,
    }
    #[derive(Debug, Clone, Copy, PartialEq, Eq, PartialOrd, Ord, Hash)]
    enum R {
        R1,
        R2,
    }
    #[derive(Debug, Clone, Copy, PartialEq, Eq, PartialOrd, Ord, Hash)]
    enum Tr {
        T1,
        T2,
    }

    // R1 arrives X at t=10; walk X->T is 5s   → (arr 15, walk 5).
    // R2 arrives Y at t=20; walk Y->T is 1s   → (arr 21, walk 1).
    let tt = SimpleTimetable::new()
        .route(
            R::R1,
            &[S::A, S::X],
            &[(
                Tr::T1,
                &[
                    (SecondOfDay(0), SecondOfDay(0)),
                    (SecondOfDay(10), SecondOfDay(10)),
                ],
            )],
        )
        .route(
            R::R2,
            &[S::A, S::Y],
            &[(
                Tr::T2,
                &[
                    (SecondOfDay(0), SecondOfDay(0)),
                    (SecondOfDay(20), SecondOfDay(20)),
                ],
            )],
        )
        .footpath(S::X, S::T)
        .transfer_time(S::X, S::T, Duration(5))
        .footpath(S::Y, S::T)
        .transfer_time(S::Y, S::T, Duration(1));

    let a = tt.stop_idx_of(&S::A);
    let t = tt.stop_idx_of(&S::T);

    // ArrivalTime: only the arrival-min path survives.
    let arrival_only = tt
        .query()
        .from(&[(a, Duration(0))])
        .to(&[(t, Duration(0))])
        .max_transfers(3)
        .depart_at(SecondOfDay(0))
        .run();
    assert_eq!(arrival_only.len(), 1);
    assert_eq!(arrival_only[0].arrival(), SecondOfDay(15));

    // ArrivalAndWalk: both Pareto-incomparable journeys are returned.
    let pareto: Vec<vulture::Journey<ArrivalAndWalk>> = tt
        .query_with_label::<ArrivalAndWalk>()
        .from(a)
        .to(t)
        .max_transfers(3)
        .depart_at(SecondOfDay(0))
        .run();
    assert_eq!(
        pareto.len(),
        2,
        "expected Pareto front of two journeys, got {}: {:?}",
        pareto.len(),
        pareto.iter().map(|j| j.label).collect::<Vec<_>>(),
    );
    let mut labels: Vec<_> = pareto.iter().map(|j| j.label).collect();
    labels.sort_by_key(|l| l.arrival);
    assert_eq!(labels[0].arrival, SecondOfDay(15));
    assert_eq!(labels[0].walk_time, Duration(5));
    assert_eq!(labels[1].arrival, SecondOfDay(21));
    assert_eq!(labels[1].walk_time, Duration(1));
}

#[test]
fn with_timing_recovers_per_leg_trip_and_times() {
    #[derive(Debug, Clone, Copy, PartialEq, Eq, PartialOrd, Ord, Hash)]
    enum S {
        A,
        B,
        C,
    }
    #[derive(Debug, Clone, Copy, PartialEq, Eq, PartialOrd, Ord, Hash)]
    enum R {
        R1,
        R2,
    }
    #[derive(Debug, Clone, Copy, PartialEq, Eq, PartialOrd, Ord, Hash)]
    enum Tr {
        T1Early,
        T1Late,
        T2,
    }

    // R1 has two trips: T1Early (0->10) and T1Late (50->60). R2 has one
    // trip from B to C (12->25). A query departing at 0 should ride
    // T1Early (boarding 0, alighting 10), then T2 (boarding 12, alighting
    // 25). Departing at 30 should ride T1Late (boarding 50, alighting 60)
    // – there's no T2 trip available afterwards, so no journey.
    let tt = SimpleTimetable::new()
        .route(
            R::R1,
            &[S::A, S::B],
            &[
                (
                    Tr::T1Early,
                    &[
                        (SecondOfDay(0), SecondOfDay(0)),
                        (SecondOfDay(10), SecondOfDay(10)),
                    ],
                ),
                (
                    Tr::T1Late,
                    &[
                        (SecondOfDay(50), SecondOfDay(50)),
                        (SecondOfDay(60), SecondOfDay(60)),
                    ],
                ),
            ],
        )
        .route(
            R::R2,
            &[S::B, S::C],
            &[(
                Tr::T2,
                &[
                    (SecondOfDay(12), SecondOfDay(12)),
                    (SecondOfDay(25), SecondOfDay(25)),
                ],
            )],
        );

    let a = tt.stop_idx_of(&S::A);
    let b = tt.stop_idx_of(&S::B);
    let c = tt.stop_idx_of(&S::C);

    let journeys = tt
        .query()
        .from(&[(a, Duration(0))])
        .to(&[(c, Duration(0))])
        .max_transfers(3)
        .depart_at(SecondOfDay(0))
        .run();
    assert_eq!(journeys.len(), 1);
    let j = &journeys[0];
    assert_eq!(j.arrival(), SecondOfDay(25));

    let timed = j
        .with_timing(&tt, SecondOfDay(0), Duration(0))
        .expect("plan must reconstruct");
    assert_eq!(timed.len(), 2);

    // Leg 1: A -> B on R1 catching T1Early.
    let l1 = &timed[0];
    assert_eq!(l1.route, tt.route_idx_of(&R::R1));
    assert_eq!(l1.board, a);
    assert_eq!(l1.alight, b);
    assert_eq!(l1.trip, tt.trip_idx_of(&Tr::T1Early));
    assert_eq!(l1.depart, SecondOfDay(0));
    assert_eq!(l1.arrive, SecondOfDay(10));

    // Leg 2: B -> C on R2 catching T2.
    let l2 = &timed[1];
    assert_eq!(l2.route, tt.route_idx_of(&R::R2));
    assert_eq!(l2.board, b);
    assert_eq!(l2.alight, c);
    assert_eq!(l2.trip, tt.trip_idx_of(&Tr::T2));
    assert_eq!(l2.depart, SecondOfDay(12));
    assert_eq!(l2.arrive, SecondOfDay(25));
}

#[test]
fn with_timing_handles_one_hop_walking_transfer() {
    // Journey: ride R1 from A to B (arrive 10), walk B->C (5s), ride R2
    // from C to D (depart 20, arrive 30). The plan is [(R1, B), (R2, D)];
    // with_timing should detect that C is a one-hop walk neighbour of B
    // serving R2 and use C as leg 2's `board`.
    #[derive(Debug, Clone, Copy, PartialEq, Eq, PartialOrd, Ord, Hash)]
    enum S {
        A,
        B,
        C,
        D,
    }
    #[derive(Debug, Clone, Copy, PartialEq, Eq, PartialOrd, Ord, Hash)]
    enum R {
        R1,
        R2,
    }
    #[derive(Debug, Clone, Copy, PartialEq, Eq, PartialOrd, Ord, Hash)]
    enum Tr {
        T1,
        T2,
    }

    let tt = SimpleTimetable::new()
        .route(
            R::R1,
            &[S::A, S::B],
            &[(
                Tr::T1,
                &[
                    (SecondOfDay(0), SecondOfDay(0)),
                    (SecondOfDay(10), SecondOfDay(10)),
                ],
            )],
        )
        .route(
            R::R2,
            &[S::C, S::D],
            &[(
                Tr::T2,
                &[
                    (SecondOfDay(20), SecondOfDay(20)),
                    (SecondOfDay(30), SecondOfDay(30)),
                ],
            )],
        )
        .footpath(S::B, S::C)
        .transfer_time(S::B, S::C, Duration(5));

    let a = tt.stop_idx_of(&S::A);
    let b = tt.stop_idx_of(&S::B);
    let c = tt.stop_idx_of(&S::C);
    let d = tt.stop_idx_of(&S::D);

    let journeys = tt
        .query()
        .from(&[(a, Duration(0))])
        .to(&[(d, Duration(0))])
        .max_transfers(3)
        .depart_at(SecondOfDay(0))
        .run();
    assert_eq!(journeys.len(), 1);
    let j = &journeys[0];

    let timed = j
        .with_timing(&tt, SecondOfDay(0), Duration(0))
        .expect("plan must reconstruct");
    assert_eq!(timed.len(), 2);

    let l1 = &timed[0];
    assert_eq!(l1.alight, b, "leg 1 alights at B");

    let l2 = &timed[1];
    assert_eq!(l2.board, c, "leg 2 boards at C, not B (walking transfer)");
    assert_eq!(l2.alight, d);
    assert_eq!(l2.depart, SecondOfDay(20));
    assert_eq!(l2.arrive, SecondOfDay(30));
}

#[test]
fn newly_active_stops_marks_only_in_window() {

    // Two routes, each with three trips at distinct departures.
    // Route 1 stops: A, B (trips depart A at 100, 200, 300).
    // Route 2 stops: C, D (trips depart C at 150, 250, 350).
    #[derive(Debug, Clone, Copy, PartialEq, Eq, PartialOrd, Ord, Hash)]
    enum S {
        A,
        B,
        C,
        D,
    }
    #[derive(Debug, Clone, Copy, PartialEq, Eq, PartialOrd, Ord, Hash)]
    enum R {
        R1,
        R2,
    }
    #[derive(Debug, Clone, Copy, PartialEq, Eq, PartialOrd, Ord, Hash)]
    enum Tr {
        T1,
        T2,
        T3,
        T4,
        T5,
        T6,
    }

    let tt = SimpleTimetable::new()
        .route(
            R::R1,
            &[S::A, S::B],
            &[
                (
                    Tr::T1,
                    &[
                        (SecondOfDay(100), SecondOfDay(100)),
                        (SecondOfDay(110), SecondOfDay(110)),
                    ],
                ),
                (
                    Tr::T2,
                    &[
                        (SecondOfDay(200), SecondOfDay(200)),
                        (SecondOfDay(210), SecondOfDay(210)),
                    ],
                ),
                (
                    Tr::T3,
                    &[
                        (SecondOfDay(300), SecondOfDay(300)),
                        (SecondOfDay(310), SecondOfDay(310)),
                    ],
                ),
            ],
        )
        .route(
            R::R2,
            &[S::C, S::D],
            &[
                (
                    Tr::T4,
                    &[
                        (SecondOfDay(150), SecondOfDay(150)),
                        (SecondOfDay(160), SecondOfDay(160)),
                    ],
                ),
                (
                    Tr::T5,
                    &[
                        (SecondOfDay(250), SecondOfDay(250)),
                        (SecondOfDay(260), SecondOfDay(260)),
                    ],
                ),
                (
                    Tr::T6,
                    &[
                        (SecondOfDay(350), SecondOfDay(350)),
                        (SecondOfDay(360), SecondOfDay(360)),
                    ],
                ),
            ],
        );

    let mut marked = FixedBitSet::with_capacity(tt.n_stops());

    // Window [180, 270): R1's T2 (200) and R2's T5 (250) qualify.
    // Stops marked: A and B (R1 reaches both via T2), C and D (R2 reaches both via T5).
    // T2 also has B at 210 and T5 has D at 260 – both fall in the window.
    newly_active_stops_into(&tt, SecondOfDay(180), SecondOfDay(270), &mut marked);
    assert!(marked.contains(tt.stop_idx_of(&S::A).idx()));
    assert!(marked.contains(tt.stop_idx_of(&S::B).idx()));
    assert!(marked.contains(tt.stop_idx_of(&S::C).idx()));
    assert!(marked.contains(tt.stop_idx_of(&S::D).idx()));

    // Empty window: nothing changes.
    let mut marked2 = FixedBitSet::with_capacity(tt.n_stops());
    newly_active_stops_into(&tt, SecondOfDay(500), SecondOfDay(500), &mut marked2);
    assert_eq!(marked2.count_ones(..), 0);

    // Window with no qualifying trip: nothing changes.
    let mut marked3 = FixedBitSet::with_capacity(tt.n_stops());
    newly_active_stops_into(&tt, SecondOfDay(120), SecondOfDay(140), &mut marked3);
    assert_eq!(marked3.count_ones(..), 0);

    // Boundary: dep == lo is included (lower bound is inclusive).
    // Window [200, 250): T2 has A=200 (hits lo, included) and B=210 (in window),
    // so A and B are marked. T5's C=250 hits hi exactly and is excluded; T4's
    // C=150 is below lo. Hence C and D must NOT be marked.
    let mut marked4 = FixedBitSet::with_capacity(tt.n_stops());
    newly_active_stops_into(&tt, SecondOfDay(200), SecondOfDay(250), &mut marked4);
    assert!(marked4.contains(tt.stop_idx_of(&S::A).idx()));
    assert!(marked4.contains(tt.stop_idx_of(&S::B).idx()));
    assert!(!marked4.contains(tt.stop_idx_of(&S::C).idx()));
    assert!(!marked4.contains(tt.stop_idx_of(&S::D).idx()));

    // Boundary: dep == hi is excluded (upper bound is exclusive).
    // Window [300, 350): T3 has A=300 (hits lo, included) and B=310 (in window),
    // so A and B are marked. T6's C=350 hits hi exactly and is excluded; T5's
    // C=250 is below lo. Hence C and D must NOT be marked.
    let mut marked5 = FixedBitSet::with_capacity(tt.n_stops());
    newly_active_stops_into(&tt, SecondOfDay(300), SecondOfDay(350), &mut marked5);
    assert!(marked5.contains(tt.stop_idx_of(&S::A).idx()));
    assert!(marked5.contains(tt.stop_idx_of(&S::B).idx()));
    assert!(!marked5.contains(tt.stop_idx_of(&S::C).idx()));
    assert!(!marked5.contains(tt.stop_idx_of(&S::D).idx()));

    // Preserves existing bits: pre-set A, then call with an empty window so
    // the helper performs no work. The pre-existing bit must still be set
    // afterwards (the helper only ever calls `insert`, never clears).
    let mut marked6 = FixedBitSet::with_capacity(tt.n_stops());
    marked6.insert(tt.stop_idx_of(&S::A).idx());
    newly_active_stops_into(&tt, SecondOfDay(500), SecondOfDay(500), &mut marked6);
    assert!(marked6.contains(tt.stop_idx_of(&S::A).idx()));
}
