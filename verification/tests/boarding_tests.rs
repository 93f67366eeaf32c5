use fixedbitset::FixedBitSet;
use vulture::algorithm::boarding::{reconstruct_journey, BoardingTree, Step};
use vulture::{RouteIdx, SecondOfDay, StopIdx};

fn origins(n: usize, set: &[usize]) -> FixedBitSet {
    let mut b = FixedBitSet::with_capacity(n);
    for &s in set {
        b.insert(s);
    }
    b
}

#[test]
fn reconstruct_single_ride_back_to_origin() {
    let mut tree = BoardingTree::new();
    tree.insert(
        (1, 5, 100),
        Step::Boarded { from: StopIdx(2), route: RouteIdx(7), parent_arrival: SecondOfDay(50) },
    );
    let r = reconstruct_journey(&tree, &origins(10, &[2]), StopIdx(5), SecondOfDay(100), 1);
    assert_eq!(r, Some((StopIdx(2), vec![(RouteIdx(7), StopIdx(5))])));
}

#[test]
fn reconstruct_walk_then_ride_keeps_the_round() {
    let mut tree = BoardingTree::new();
    tree.insert((1, 5, 100), Step::Walked { from: StopIdx(4), parent_arrival: SecondOfDay(90) });
    tree.insert(
        (1, 4, 90),
        Step::Boarded { from: StopIdx(2), route: RouteIdx(3), parent_arrival: SecondOfDay(40) },
    );
    let r = reconstruct_journey(&tree, &origins(10, &[2]), StopIdx(5), SecondOfDay(100), 1);
    assert_eq!(r, Some((StopIdx(2), vec![(RouteIdx(3), StopIdx(4))])));
}

#[test]
fn reconstruct_two_rides_in_travel_order() {
    let mut tree = BoardingTree::new();
    tree.insert(
        (2, 9, 200),
        Step::Boarded { from: StopIdx(5), route: RouteIdx(8), parent_arrival: SecondOfDay(100) },
    );
    tree.insert(
        (1, 5, 100),
        Step::Boarded { from: StopIdx(2), route: RouteIdx(7), parent_arrival: SecondOfDay(50) },
    );
    let r = reconstruct_journey(&tree, &origins(10, &[2]), StopIdx(9), SecondOfDay(200), 2);
    assert_eq!(
        r,
        Some((StopIdx(2), vec![(RouteIdx(7), StopIdx(5)), (RouteIdx(8), StopIdx(9))]))
    );
}

#[test]
fn reconstruct_fails_without_entry_or_origin() {
    let empty = BoardingTree::new();
    assert_eq!(
        reconstruct_journey(&empty, &origins(10, &[2]), StopIdx(5), SecondOfDay(100), 1),
        None
    );
    let mut tree = BoardingTree::new();
    tree.insert(
        (1, 5, 100),
        Step::Boarded { from: StopIdx(3), route: RouteIdx(7), parent_arrival: SecondOfDay(50) },
    );
    // The trace ends at stop 3, which is no origin.
    assert_eq!(
        reconstruct_journey(&tree, &origins(10, &[2]), StopIdx(5), SecondOfDay(100), 1),
        None
    );
    // A label the tree does not hold traces nothing.
    assert_eq!(
        reconstruct_journey(&tree, &origins(10, &[3]), StopIdx(5), SecondOfDay(99), 1),
        None
    );
}
