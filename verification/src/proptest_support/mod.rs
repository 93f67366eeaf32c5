//! Ground truth for property checks of the router: the description of a
//! generated network, brute-force reference solvers over it (one for
//! arrival and trips, single-departure and ranged, one for arrival, walking
//! time and trips), and the projections that reduce journey lists to
//! comparable Pareto fronts.

pub mod reference;
pub mod spec;
pub mod walk_reference;
pub mod multi_reference;

use std::collections::BTreeSet;

use vstd::prelude::*;

use crate::journey::Journey;
use crate::label::ArrivalTime;
use crate::labels::ArrivalAndWalk;

verus! {

broadcast use {vstd::std_specs::btree::group_btree_axioms, vstd::laws_cmp::group_laws_cmp};

/// The `(target stop, target walk, arrival, trip count)` point of a
/// journey.
pub open spec fn front_point(j: Journey<ArrivalTime>) -> (u32, u32, u16, u8) {
    (j.target.0, j.target_walk.0, j.label.0.0 as u16, j.plan@.len() as u8)
}

/// `q` beats `p`: same slot, no more trips, no later arrival, and a
/// different point.
pub open spec fn beats(q: (u32, u32, u16, u8), p: (u32, u32, u16, u8)) -> bool {
    &&& q.0 == p.0
    &&& q.1 == p.1
    &&& q.3 <= p.3
    &&& q.2 <= p.2
    &&& q != p
}

/// Arrivals fit `u16` and trip counts fit `u8`.
pub open spec fn fits_front(js: Seq<Journey<ArrivalTime>>) -> bool {
    forall|i: int| 0 <= i < js.len() ==> (#[trigger] js[i]).label.0.0 <= u16::MAX && js[i].plan@.len() <= u8::MAX
}

/// The per-slot Pareto front of `(arrival, trip count)`: the points of
/// the journeys that no other journey's point beats.
pub open spec fn raptor_front_spec(js: Seq<Journey<ArrivalTime>>) -> Set<(u32, u32, u16, u8)> {
    Set::new(
        |p: (u32, u32, u16, u8)|
            (exists|i: int| 0 <= i < js.len() && #[trigger] front_point(js[i]) == p) && !(exists|k: int|
                0 <= k < js.len() && beats(#[trigger] front_point(js[k]), p)),
    )
}

/// Projects journeys onto their per-`(target stop, target walk)` Pareto
/// front of `(arrival, trip count)`: within each slot, the points no other
/// point matches or beats on both counts. Output tuples are
/// `(target stop, target walk, arrival, trip count)`.
pub fn raptor_front(journeys: &[Journey]) -> (out: BTreeSet<(u32, u32, u16, u8)>)
    requires
        fits_front(journeys@),
    ensures
        out@ == raptor_front_spec(journeys@),
{
    let mut out: BTreeSet<(u32, u32, u16, u8)> = BTreeSet::new();
    let mut i: usize = 0;
    while i < journeys.len()
        invariant
            i <= journeys@.len(),
            fits_front(journeys@),
            forall|p: (u32, u32, u16, u8)| #[trigger] out@.contains(p) <==> (exists|a: int|
                0 <= a < i && #[trigger] front_point(journeys@[a]) == p) && raptor_front_spec(journeys@).contains(p),
        decreases journeys@.len() - i,
    {
        let p = point_of(&journeys[i]);
        let mut beaten = false;
        let mut k: usize = 0;
        while k < journeys.len()
            invariant
                k <= journeys@.len(),
                i < journeys@.len(),
                fits_front(journeys@),
                p == front_point(journeys@[i as int]),
                beaten <==> exists|b: int| 0 <= b < k && beats(#[trigger] front_point(journeys@[b]), p),
            decreases journeys@.len() - k,
        {
            let q = point_of(&journeys[k]);
            if q.0 == p.0 && q.1 == p.1 && q.3 <= p.3 && q.2 <= p.2 && !(q.2 == p.2 && q.3 == p.3) {
                beaten = true;
            }
            proof {
                assert(beaten <==> exists|b: int| 0 <= b < k + 1 && beats(#[trigger] front_point(journeys@[b]), p)) by {
                    if beats(q, p) {
                        assert(beats(front_point(journeys@[k as int]), p));
                    }
                }
            }
            k = k + 1;
        }
        if !beaten {
            out.insert(p);
        }
        proof {
            assert forall|x: (u32, u32, u16, u8)| #[trigger] out@.contains(x) <==> (exists|a: int|
                0 <= a < i + 1 && #[trigger] front_point(journeys@[a]) == x) && raptor_front_spec(journeys@).contains(x) by {
                if x == p {
                    assert(front_point(journeys@[i as int]) == x);
                }
            }
        }
        i = i + 1;
    }
    proof {
        assert forall|x: (u32, u32, u16, u8)| #[trigger] out@.contains(x) <==> raptor_front_spec(journeys@).contains(x) by {
            if raptor_front_spec(journeys@).contains(x) {
                let a = choose|a: int| 0 <= a < journeys@.len() && #[trigger] front_point(journeys@[a]) == x;
                assert(0 <= a < i);
            }
        }
        assert(out@ =~= raptor_front_spec(journeys@));
    }
    out
}

fn point_of(j: &Journey) -> (p: (u32, u32, u16, u8))
    requires
        j.label.0.0 <= u16::MAX,
        j.plan@.len() <= u8::MAX,
    ensures
        p == front_point(*j),
{
    (j.target.0, j.target_walk.0, j.label.0.0 as u16, j.plan.len() as u8)
}

/// The `(target stop, target walk, arrival, walk time, trip count)` point
/// of a journey.
pub open spec fn walk_point(j: Journey<ArrivalAndWalk>) -> (u32, u32, u16, u16, u8) {
    (j.target.0, j.target_walk.0, j.label.arrival.0 as u16, j.label.walk_time.0 as u16, j.plan@.len() as u8)
}

/// `q` is at least as good as `p` on all three criteria in the same slot,
/// and a different point.
pub open spec fn walk_beats(q: (u32, u32, u16, u16, u8), p: (u32, u32, u16, u16, u8)) -> bool {
    &&& q.0 == p.0
    &&& q.1 == p.1
    &&& q.2 <= p.2
    &&& q.3 <= p.3
    &&& q.4 <= p.4
    &&& q != p
}

/// Arrivals and walk times fit `u16`, trip counts fit `u8`.
pub open spec fn fits_walk_front(js: Seq<Journey<ArrivalAndWalk>>) -> bool {
    forall|i: int|
        0 <= i < js.len() ==> (#[trigger] js[i]).label.arrival.0 <= u16::MAX && js[i].label.walk_time.0
            <= u16::MAX && js[i].plan@.len() <= u8::MAX
}

/// The per-slot Pareto front of `(arrival, walk time, trip count)`.
pub open spec fn walk_front_spec(js: Seq<Journey<ArrivalAndWalk>>) -> Set<(u32, u32, u16, u16, u8)> {
    Set::new(
        |p: (u32, u32, u16, u16, u8)|
            (exists|i: int| 0 <= i < js.len() && #[trigger] walk_point(js[i]) == p) && !(exists|k: int|
                0 <= k < js.len() && walk_beats(#[trigger] walk_point(js[k]), p)),
    )
}

/// Projects `ArrivalAndWalk` journeys onto their per-`(target stop,
/// target walk)` three-criterion Pareto front of `(arrival, walk time,
/// trip count)`. Output tuples are `(target stop, target walk, arrival,
/// walk time, trip count)`.
pub fn arrival_and_walk_front(journeys: &[Journey<ArrivalAndWalk>]) -> (out: BTreeSet<
    (u32, u32, u16, u16, u8),
>)
    requires
        fits_walk_front(journeys@),
    ensures
        out@ == walk_front_spec(journeys@),
{
    let mut out: BTreeSet<(u32, u32, u16, u16, u8)> = BTreeSet::new();
    let mut i: usize = 0;
    while i < journeys.len()
        invariant
            i <= journeys@.len(),
            fits_walk_front(journeys@),
            forall|p: (u32, u32, u16, u16, u8)| #[trigger] out@.contains(p) <==> (exists|a: int|
                0 <= a < i && #[trigger] walk_point(journeys@[a]) == p) && walk_front_spec(journeys@).contains(p),
        decreases journeys@.len() - i,
    {
        let p = walk_point_of(&journeys[i]);
        let mut beaten = false;
        let mut k: usize = 0;
        while k < journeys.len()
            invariant
                k <= journeys@.len(),
                i < journeys@.len(),
                fits_walk_front(journeys@),
                p == walk_point(journeys@[i as int]),
                beaten <==> exists|b: int| 0 <= b < k && walk_beats(#[trigger] walk_point(journeys@[b]), p),
            decreases journeys@.len() - k,
        {
            let q = walk_point_of(&journeys[k]);
            if q.0 == p.0 && q.1 == p.1 && q.2 <= p.2 && q.3 <= p.3 && q.4 <= p.4 && !(q.2 == p.2 && q.3 == p.3
                && q.4 == p.4) {
                beaten = true;
            }
            proof {
                assert(beaten <==> exists|b: int| 0 <= b < k + 1 && walk_beats(#[trigger] walk_point(journeys@[b]), p)) by {
                    if walk_beats(q, p) {
                        assert(walk_beats(walk_point(journeys@[k as int]), p));
                    }
                }
            }
            k = k + 1;
        }
        if !beaten {
            out.insert(p);
        }
        proof {
            assert forall|x: (u32, u32, u16, u16, u8)| #[trigger] out@.contains(x) <==> (exists|a: int|
                0 <= a < i + 1 && #[trigger] walk_point(journeys@[a]) == x) && walk_front_spec(journeys@).contains(x) by {
                if x == p {
                    assert(walk_point(journeys@[i as int]) == x);
                }
            }
        }
        i = i + 1;
    }
    proof {
        assert forall|x: (u32, u32, u16, u16, u8)| #[trigger] out@.contains(x) <==> walk_front_spec(journeys@).contains(x) by {
            if walk_front_spec(journeys@).contains(x) {
                let a = choose|a: int| 0 <= a < journeys@.len() && #[trigger] walk_point(journeys@[a]) == x;
                assert(0 <= a < i);
            }
        }
        assert(out@ =~= walk_front_spec(journeys@));
    }
    out
}

fn walk_point_of(j: &Journey<ArrivalAndWalk>) -> (p: (u32, u32, u16, u16, u8))
    requires
        j.label.arrival.0 <= u16::MAX,
        j.label.walk_time.0 <= u16::MAX,
        j.plan@.len() <= u8::MAX,
    ensures
        p == walk_point(*j),
{
    (j.target.0, j.target_walk.0, j.label.arrival.0 as u16, j.label.walk_time.0 as u16, j.plan.len() as u8)
}

} // verus!
