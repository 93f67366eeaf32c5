use vulture::algorithm::label_bag::LabelBag;
use vulture::label::Label;
use vulture::labels::ArrivalAndWalk;
use vulture::{Duration, SecondOfDay};

fn aw(arrival: u32, walk: u32) -> ArrivalAndWalk {
    ArrivalAndWalk { arrival: SecondOfDay(arrival), walk_time: Duration(walk) }
}

#[test]
fn label_bag_keeps_no_dominated_label() {
    let mut bag: LabelBag<ArrivalAndWalk> = LabelBag::new();
    assert!(bag.insert(aw(100, 10)));
    assert!(bag.insert(aw(90, 20)));
    // Dominated by (90, 20): refused.
    assert!(!bag.insert(aw(95, 25)));
    // Dominates both earlier labels: they leave.
    assert!(bag.insert(aw(80, 5)));
    assert_eq!(bag.items.len(), 1);
    for a in &bag.items {
        for b in &bag.items {
            if a.dominates(b) {
                assert_eq!((a.arrival, a.walk_time), (b.arrival, b.walk_time));
            }
        }
    }
}

#[test]
fn unreached_labels_arrive_last() {
    assert_eq!(vulture::ArrivalTime::unreached_label(), vulture::ArrivalTime(SecondOfDay(u32::MAX)));
    let w = ArrivalAndWalk::unreached_label();
    assert_eq!(w.arrival, SecondOfDay(u32::MAX));
    assert_eq!(w.walk_time, Duration(0));
    let f = vulture::labels::ArrivalAndFare::unreached_label();
    assert_eq!(f.arrival, SecondOfDay(u32::MAX));
    assert_eq!(f.fare, 0);
}
