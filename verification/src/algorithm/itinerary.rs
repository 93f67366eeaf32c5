//! Itineraries through a timetable: rides on trips and walks along
//! footpaths from an origin, and what it means for a label's arrival to be
//! one that such an itinerary achieves.

use vstd::prelude::*;

use crate::algorithm::label_bag::LabelBag;
use crate::ids::StopIdx;
use crate::label::Label;
use crate::time::{sat_add, Duration};
use crate::timetable::Timetable;

verus! {

/// One leg of an itinerary: ride `trip` from position `board` to position
/// `alight` of its route, or walk a direct footpath to stop `to`.
pub enum Leg {
    /// Ride a trip between two positions of its route.
    Ride { trip: u32, board: u32, alight: u32 },
    /// Walk a direct footpath.
    Walk { to: u32 },
}

/// Taking `leg` from stop `at.0` at time `at.1`: a ride boards at a
/// position of the trip's route that is this stop, on a departure no
/// earlier than the time, and arrives at the later alighting position at
/// the trip's arrival time; a walk follows a direct footpath and adds its
/// walking time (saturating). `None` when the leg cannot be taken.
pub open spec fn leg_step<T: Timetable>(tt: &T, at: (nat, u32), leg: Leg) -> Option<(nat, u32)> {
    match leg {
        Leg::Ride { trip, board, alight } => {
            let rs = tt.route_stops(tt.trip_route(trip as nat));
            if trip < tt.trip_count() && board < alight < rs.len() && rs[board as int].0 == at.0 && tt.dep_at(
                trip as nat,
                board as nat,
            ) >= at.1 {
                Some((rs[alight as int].0 as nat, tt.arr_at(trip as nat, alight as nat)))
            } else {
                None
            }
        },
        Leg::Walk { to } => {
            if tt.footpaths_at(at.0).contains(StopIdx(to)) {
                Some((to as nat, sat_add(at.1, tt.transfer_secs(at.0, to as nat))))
            } else {
                None
            }
        },
    }
}

/// Where and when `legs`, taken in order from `start`, end.
pub open spec fn run_legs<T: Timetable>(tt: &T, start: (nat, u32), legs: Seq<Leg>) -> Option<(nat, u32)>
    decreases legs.len(),
{
    if legs.len() == 0 {
        Some(start)
    } else {
        match run_legs(tt, start, legs.drop_last()) {
            Some(at) => leg_step(tt, at, legs.last()),
            None => None,
        }
    }
}

/// The number of rides among `legs`.
pub open spec fn rides(legs: Seq<Leg>) -> nat
    decreases legs.len(),
{
    if legs.len() == 0 {
        0
    } else {
        rides(legs.drop_last()) + if legs.last() is Ride {
            1nat
        } else {
            0nat
        }
    }
}

/// Stop `s` is reached at time `t` by an itinerary of at most `k` rides
/// that starts at one of the origins `os`, no earlier than `depart` plus
/// that origin's walk (saturating).
pub open spec fn reaches<T: Timetable>(
    tt: &T,
    os: Seq<(StopIdx, Duration)>,
    depart: u32,
    k: nat,
    s: nat,
    t: u32,
) -> bool {
    exists|o: int, t0: u32, legs: Seq<Leg>|
        0 <= o < os.len() && t0 >= sat_add(depart, os[o].1.0) && rides(legs) <= k && #[trigger] run_legs(
            tt,
            (os[o].0.0 as nat, t0),
            legs,
        ) == Some((s, t))
}

/// Every label of every round bag is reached by its arrival with at most
/// the round's number of rides.
pub open spec fn labels_sound<T: Timetable, L: Label>(
    tt: &T,
    os: Seq<(StopIdx, Duration)>,
    depart: u32,
    labels: Seq<Vec<LabelBag<L>>>,
) -> bool {
    forall|k: int, s: int, l: L|
        0 <= k < labels.len() && 0 <= s < labels[k]@.len() && #[trigger] labels[k]@[s].items@.contains(l) ==> reaches(
            tt,
            os,
            depart,
            k as nat,
            s as nat,
            l.arrival_of(),
        )
}

/// `b` has the shape of `a`, and every label of `b` was in the same bag of
/// `a` or is `l` at cell `(k, s)`.
pub open spec fn grew_by<L: Label>(a: Seq<Vec<LabelBag<L>>>, b: Seq<Vec<LabelBag<L>>>, k: int, s: int, l: L) -> bool {
    &&& b.len() == a.len()
    &&& forall|x: int| 0 <= x < a.len() ==> (#[trigger] b[x])@.len() == a[x]@.len()
    &&& forall|x: int, y: int, m: L|
        0 <= x < b.len() && 0 <= y < b[x]@.len() && #[trigger] b[x]@[y].items@.contains(m) ==> a[x]@[y].items@.contains(m) || (
        x == k && y == s && m == l)
}

/// Growing the bags by a reached label keeps them sound.
pub proof fn lemma_sound_grew<T: Timetable, L: Label>(
    tt: &T,
    os: Seq<(StopIdx, Duration)>,
    depart: u32,
    a: Seq<Vec<LabelBag<L>>>,
    b: Seq<Vec<LabelBag<L>>>,
    k: int,
    s: int,
    l: L,
)
    requires
        labels_sound(tt, os, depart, a),
        grew_by(a, b, k, s, l),
        reaches(tt, os, depart, k as nat, s as nat, l.arrival_of()),
    ensures
        labels_sound(tt, os, depart, b),
{
    assert forall|x: int, y: int, m: L|
        0 <= x < b.len() && 0 <= y < b[x]@.len() && #[trigger] b[x]@[y].items@.contains(m) implies reaches(
        tt,
        os,
        depart,
        x as nat,
        y as nat,
        m.arrival_of(),
    ) by {
        if a[x]@[y].items@.contains(m) {
        }
    }
}

/// A reached stop is reached with any larger ride allowance.
pub proof fn lemma_reaches_more<T: Timetable>(
    tt: &T,
    os: Seq<(StopIdx, Duration)>,
    depart: u32,
    k1: nat,
    k2: nat,
    s: nat,
    t: u32,
)
    requires
        reaches(tt, os, depart, k1, s, t),
        k1 <= k2,
    ensures
        reaches(tt, os, depart, k2, s, t),
{
    let (o, t0, legs) = choose|o: int, t0: u32, legs: Seq<Leg>|
        0 <= o < os.len() && t0 >= sat_add(depart, os[o].1.0) && rides(legs) <= k1 && #[trigger] run_legs(
            tt,
            (os[o].0.0 as nat, t0),
            legs,
        ) == Some((s, t));
    assert(run_legs(tt, (os[o].0.0 as nat, t0), legs) == Some((s, t)));
}

/// What is reached from a later departure is reached from an earlier one.
pub proof fn lemma_reaches_earlier<T: Timetable>(
    tt: &T,
    os: Seq<(StopIdx, Duration)>,
    d1: u32,
    d2: u32,
    k: nat,
    s: nat,
    t: u32,
)
    requires
        reaches(tt, os, d2, k, s, t),
        d1 <= d2,
    ensures
        reaches(tt, os, d1, k, s, t),
{
    let (o, t0, legs) = choose|o: int, t0: u32, legs: Seq<Leg>|
        0 <= o < os.len() && t0 >= sat_add(d2, os[o].1.0) && rides(legs) <= k && #[trigger] run_legs(
            tt,
            (os[o].0.0 as nat, t0),
            legs,
        ) == Some((s, t));
    assert(run_legs(tt, (os[o].0.0 as nat, t0), legs) == Some((s, t)));
}

/// Bags sound for a later departure are sound for an earlier one.
pub proof fn lemma_sound_earlier<T: Timetable, L: Label>(
    tt: &T,
    os: Seq<(StopIdx, Duration)>,
    d1: u32,
    d2: u32,
    labels: Seq<Vec<LabelBag<L>>>,
)
    requires
        labels_sound(tt, os, d2, labels),
        d1 <= d2,
    ensures
        labels_sound(tt, os, d1, labels),
{
    assert forall|k: int, s: int, l: L|
        0 <= k < labels.len() && 0 <= s < labels[k]@.len() && #[trigger] labels[k]@[s].items@.contains(l) implies reaches(
        tt,
        os,
        d1,
        k as nat,
        s as nat,
        l.arrival_of(),
    ) by {
        lemma_reaches_earlier(tt, os, d1, d2, k as nat, s as nat, l.arrival_of());
    }
}

/// An origin is reached at its departure plus walk, without riding.
pub proof fn lemma_reaches_seed<T: Timetable>(tt: &T, os: Seq<(StopIdx, Duration)>, depart: u32, o: int)
    requires
        0 <= o < os.len(),
    ensures
        reaches(tt, os, depart, 0, os[o].0.0 as nat, sat_add(depart, os[o].1.0)),
{
    let legs = Seq::<Leg>::empty();
    assert(run_legs(tt, (os[o].0.0 as nat, sat_add(depart, os[o].1.0)), legs) == Some(
        (os[o].0.0 as nat, sat_add(depart, os[o].1.0)),
    ));
}

/// Extending a reaching itinerary by one leg.
pub proof fn lemma_reaches_leg<T: Timetable>(
    tt: &T,
    os: Seq<(StopIdx, Duration)>,
    depart: u32,
    k: nat,
    s: nat,
    t: u32,
    leg: Leg,
    s2: nat,
    t2: u32,
)
    requires
        reaches(tt, os, depart, k, s, t),
        leg_step(tt, (s, t), leg) == Some((s2, t2)),
    ensures
        reaches(tt, os, depart, k + if leg is Ride { 1nat } else { 0nat }, s2, t2),
{
    let (o, t0, legs) = choose|o: int, t0: u32, legs: Seq<Leg>|
        0 <= o < os.len() && t0 >= sat_add(depart, os[o].1.0) && rides(legs) <= k && #[trigger] run_legs(
            tt,
            (os[o].0.0 as nat, t0),
            legs,
        ) == Some((s, t));
    let legs2 = legs.push(leg);
    assert(legs2.drop_last() =~= legs);
    assert(run_legs(tt, (os[o].0.0 as nat, t0), legs2) == Some((s2, t2)));
    assert(rides(legs2) == rides(legs) + if leg is Ride { 1nat } else { 0nat });
}

} // verus!
