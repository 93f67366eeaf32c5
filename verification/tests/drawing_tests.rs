use vulture::manual::SimpleTimetable;
use vulture::{Duration, RouteIdx, SecondOfDay, StopIdx, TripIdx};

#[test]
fn route_hops_and_walk_edges_list_the_network() {
    let tt = SimpleTimetable::new()
        .route(
            1u32,
            &['a', 'b', 'c'],
            &[
                (
                    10u32,
                    &[
                        (SecondOfDay(0), SecondOfDay(5)),
                        (SecondOfDay(20), SecondOfDay(25)),
                        (SecondOfDay(40), SecondOfDay(40)),
                    ][..],
                ),
                (
                    11u32,
                    &[
                        (SecondOfDay(100), SecondOfDay(105)),
                        (SecondOfDay(120), SecondOfDay(125)),
                        (SecondOfDay(140), SecondOfDay(140)),
                    ][..],
                ),
            ],
        )
        .route(2u32, &['c', 'd'], &[(12u32, &[(SecondOfDay(50), SecondOfDay(50)), (SecondOfDay(60), SecondOfDay(60))][..])])
        .footpath('b', 'd')
        .transfer_time('b', 'd', Duration(7))
        .footpath('a', 'c');

    let hops = tt.route_hops();
    assert_eq!(hops.len(), 3);
    assert_eq!((hops[0].0, hops[0].1, hops[0].2), (RouteIdx(0), StopIdx(0), StopIdx(1)));
    assert_eq!(
        hops[0].3,
        vec![(TripIdx(0), SecondOfDay(5), SecondOfDay(20)), (TripIdx(1), SecondOfDay(105), SecondOfDay(120))]
    );
    assert_eq!((hops[1].0, hops[1].1, hops[1].2), (RouteIdx(0), StopIdx(1), StopIdx(2)));
    assert_eq!(
        hops[1].3,
        vec![(TripIdx(0), SecondOfDay(25), SecondOfDay(40)), (TripIdx(1), SecondOfDay(125), SecondOfDay(140))]
    );
    assert_eq!((hops[2].0, hops[2].1, hops[2].2), (RouteIdx(1), StopIdx(2), StopIdx(3)));
    assert_eq!(hops[2].3, vec![(TripIdx(2), SecondOfDay(50), SecondOfDay(60))]);

    let walks = tt.walk_edges();
    assert_eq!(
        walks,
        vec![(StopIdx(0), StopIdx(2), Duration(1)), (StopIdx(1), StopIdx(3), Duration(7))]
    );
}
