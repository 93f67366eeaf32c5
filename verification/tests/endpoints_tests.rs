use vulture::{Duration, Endpoints, IntoEndpoints, StopIdx};

#[test]
fn from_stop_indices_assigns_zero_walk() {
    let e = Endpoints::from_stop_indices(&[3, 7, 11]);
    assert_eq!(e.len(), 3);
    let pairs: Vec<_> = e.as_slice().to_vec();
    assert_eq!(pairs[0], (StopIdx::new(3), Duration(0)));
    assert_eq!(pairs[1], (StopIdx::new(7), Duration(0)));
    assert_eq!(pairs[2], (StopIdx::new(11), Duration(0)));
}

#[test]
fn from_pairs_preserves_walk_offsets() {
    let e = Endpoints::from_pairs(&[(0, 0), (5, 60), (12, 240)]);
    assert_eq!(e.len(), 3);
    let pairs: Vec<_> = e.as_slice().to_vec();
    assert_eq!(pairs[0], (StopIdx::new(0), Duration(0)));
    assert_eq!(pairs[1], (StopIdx::new(5), Duration(60)));
    assert_eq!(pairs[2], (StopIdx::new(12), Duration(240)));
}

#[test]
fn from_stop_indices_empty_slice() {
    let e = Endpoints::from_stop_indices(&[]);
    assert!(e.is_empty());
}

#[test]
fn into_endpoints_shapes_agree() {
    let a = StopIdx::new(4);
    let b = StopIdx::new(9);
    let single = a.into_endpoints();
    assert_eq!(single.as_slice(), &[(a, Duration(0))]);
    let pair = (b, Duration(30)).into_endpoints();
    assert_eq!(pair.as_slice(), &[(b, Duration(30))]);
    let stops = vec![a, b];
    let from_vec = (&stops).into_endpoints();
    assert_eq!(from_vec.as_slice(), &[(a, Duration(0)), (b, Duration(0))]);
    let from_slice = (&stops[..]).into_endpoints();
    assert_eq!(from_slice.as_slice(), from_vec.as_slice());
    let pairs = [(a, Duration(5)), (b, Duration(6))];
    let from_pairs = (&pairs).into_endpoints();
    assert_eq!(from_pairs.as_slice(), &pairs[..]);
    let mut e = Endpoints::new();
    e.push(a, Duration(1));
    let copied = (&e).into_endpoints();
    assert_eq!(copied.as_slice(), e.as_slice());
}
