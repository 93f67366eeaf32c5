//! A brute-force reference: the time-expanded graph of a generated network
//! and a label-setting search over it for the Pareto front of `(arrival,
//! trip count)`.

use std::collections::{BTreeMap, BTreeSet};

use vstd::prelude::*;
use vstd::set_lib::{lemma_int_range, lemma_len_subset, set_int_range};

use crate::pareto::{covers, pareto_sweep, ParetoItem};
use crate::proptest_support::spec::{close_footpaths, closed_walks, sat_add16, square_no_diag, NetworkSpec, RouteSpec, TripSpec};

verus! {

broadcast use {vstd::std_specs::btree::group_btree_axioms, vstd::laws_cmp::group_laws_cmp};

/// Arrival of `trip` at position `i` of its route: prefix sums of dwells
/// and legs from `first_dep`, saturating.
pub open spec fn arr_at(trip: TripSpec, i: nat) -> u16
    decreases i, 0nat,
{
    if i == 0 {
        trip.first_dep
    } else {
        sat_add16(dep_at(trip, (i - 1) as nat), trip.leg_durations@[i - 1])
    }
}

/// Departure of `trip` at position `i`: its arrival plus the dwell.
pub open spec fn dep_at(trip: TripSpec, i: nat) -> u16
    decreases i, 1nat,
{
    sat_add16(arr_at(trip, i), trip.dwell_times@[i as int])
}

/// `(stop, arrival, departure)` at each position of a trip of `route`.
pub open spec fn schedule(route: RouteSpec, trip: TripSpec) -> Seq<(u8, u16, u16)> {
    Seq::new(route.stop_sequence@.len(), |i: int| (route.stop_sequence@[i], arr_at(trip, i as nat), dep_at(trip, i as nat)))
}

/// The schedules of all trips of `routes`, route by route.
pub open spec fn all_schedules(routes: Seq<RouteSpec>) -> Seq<Seq<(u8, u16, u16)>>
    decreases routes.len(),
{
    if routes.len() == 0 {
        Seq::empty()
    } else {
        let r = routes.last();
        all_schedules(routes.drop_last()) + Seq::new(r.trips@.len(), |t: int| schedule(r, r.trips@[t]))
    }
}

/// The arrival and departure timepoints of a schedule, in order.
pub open spec fn sched_points(sched: Seq<(u8, u16, u16)>) -> Seq<(u8, u16)>
    decreases sched.len(),
{
    if sched.len() == 0 {
        Seq::empty()
    } else {
        let e = sched.last();
        sched_points(sched.drop_last()) + seq![(e.0, e.1), (e.0, e.2)]
    }
}

/// The timepoints of all schedules, in order.
pub open spec fn all_points(scheds: Seq<Seq<(u8, u16, u16)>>) -> Seq<(u8, u16)>
    decreases scheds.len(),
{
    if scheds.len() == 0 {
        Seq::empty()
    } else {
        all_points(scheds.drop_last()) + sched_points(scheds.last())
    }
}

/// The base timepoints: the query start, then every trip arrival and
/// departure.
pub open spec fn base_points(spec: NetworkSpec, ps: u8, tau: u16) -> Seq<(u8, u16)> {
    seq![(ps, tau)] + all_points(all_schedules(spec.routes@))
}

/// `(s, t)` is a node of the time-expanded graph: a base timepoint, or
/// one closed walk after a base timepoint at another stop.
pub open spec fn node_time(spec: NetworkSpec, ps: u8, tau: u16, s: u8, t: u16) -> bool {
    base_points(spec, ps, tau).contains((s, t)) || walked(spec, base_points(spec, ps, tau), s, t)
}

/// Every trip has a first stop, a dwell per stop and a leg per
/// consecutive stop pair.
pub open spec fn trips_readable(routes: Seq<RouteSpec>) -> bool {
    forall|r: int, t: int|
        #![trigger routes[r].trips@[t]]
        0 <= r < routes.len() && 0 <= t < routes[r].trips@.len() ==> {
            &&& routes[r].stop_sequence@.len() >= 1
            &&& routes[r].trips@[t].dwell_times@.len() >= routes[r].stop_sequence@.len()
            &&& routes[r].trips@[t].leg_durations@.len() + 1 >= routes[r].stop_sequence@.len()
        }
}

/// What a build reads without failing: readable trips; and when there
/// are stops at all, the start and every route stop are among them.
pub open spec fn preparable(spec: NetworkSpec, ps: u8) -> bool {
    &&& trips_readable(spec.routes@)
    &&& spec.n_stops > 0 ==> {
        &&& ps < spec.n_stops
        &&& forall|r: int, i: int|
            0 <= r < spec.routes@.len() && 0 <= i < spec.routes@[r].stop_sequence@.len()
                ==> #[trigger] spec.routes@[r].stop_sequence@[i] < spec.n_stops
    }
}

/// The time-expanded graph of a network for one query start.
pub struct Prep {
    /// Stop to the set of its relevant timepoints.
    pub nodes: BTreeMap<u8, BTreeSet<u16>>,
    /// Per trip, `(stop, arrival, departure)` at each position.
    pub trips: Vec<Vec<(u8, u16, u16)>>,
    /// The closed footpath matrix.
    pub footpaths: Vec<Vec<Option<u16>>>,
    /// Number of stops.
    pub n_stops: u8,
}

impl Prep {
    /// The graph's shape and contents: trips and footpaths as the spec
    /// gives them, and the nodes of each stop.
    pub open spec fn describes(&self, spec: NetworkSpec, ps: u8, tau: u16) -> bool {
        &&& self.n_stops == spec.n_stops
        &&& self.trips@.len() == all_schedules(spec.routes@).len()
        &&& forall|k: int| 0 <= k < self.trips@.len() ==> (#[trigger] self.trips@[k])@ == all_schedules(spec.routes@)[k]
        &&& self.footpaths@.len() == spec.n_stops
        &&& forall|i: int| 0 <= i < spec.n_stops ==> (#[trigger] self.footpaths@[i])@ == closed_walks(
            spec.n_stops as nat,
            spec.footpaths@,
        )[i]
        &&& forall|s: u8| #[trigger] self.nodes@.contains_key(s) <==> exists|t: u16| node_time(spec, ps, tau, s, t)
        &&& forall|s: u8, t: u16|
            self.nodes@.contains_key(s) ==> (#[trigger] self.nodes@[s]@.contains(t) <==> node_time(spec, ps, tau, s, t))
    }

    /// Builds the graph for a query starting at `ps` at `tau`: per-trip
    /// schedules by saturating prefix sums, the closed footpath matrix, and
    /// for each stop the timepoints at which something can happen there:
    /// the start, every trip arrival and departure, and every time one
    /// closed walk away from one of those.
    pub fn build(spec: &NetworkSpec, ps: u8, tau: u16) -> (p: Prep)
        requires
            preparable(*spec, ps),
        ensures
            p.describes(*spec, ps, tau),
    {
        let footpaths = close_footpaths(spec);
        let trips = build_schedules(spec);
        let ghost scheds = all_schedules(spec.routes@);
        let mut base: Vec<(u8, u16)> = Vec::new();
        base.push((ps, tau));
        let mut k: usize = 0;
        while k < trips.len()
            invariant
                k <= trips@.len(),
                trips@.len() == scheds.len(),
                forall|x: int| 0 <= x < trips@.len() ==> (#[trigger] trips@[x])@ == scheds[x],
                base@ == seq![(ps, tau)] + all_points(scheds.subrange(0, k as int)),
            decreases trips@.len() - k,
        {
            let sched = &trips[k];
            let ghost before = base@;
            let mut i: usize = 0;
            while i < sched.len()
                invariant
                    k < trips@.len(),
                    i <= sched@.len(),
                    sched@ == scheds[k as int],
                    base@ == before + sched_points(sched@.subrange(0, i as int)),
                decreases sched@.len() - i,
            {
                let (s, a, d) = sched[i];
                base.push((s, a));
                base.push((s, d));
                proof {
                    let sub = sched@.subrange(0, i + 1);
                    assert(sub.drop_last() =~= sched@.subrange(0, i as int));
                    assert(sub.last() == (s, a, d));
                    assert(base@ =~= before + sched_points(sub));
                }
                i = i + 1;
            }
            proof {
                assert(sched@.subrange(0, sched@.len() as int) =~= sched@);
                let sub = scheds.subrange(0, k + 1);
                assert(sub.drop_last() =~= scheds.subrange(0, k as int));
                assert(sub.last() == scheds[k as int]);
                assert(base@ =~= seq![(ps, tau)] + all_points(sub));
            }
            k = k + 1;
        }
        proof {
            assert(scheds.subrange(0, scheds.len() as int) =~= scheds);
        }
        assert(base@ == base_points(*spec, ps, tau));
        let mut nodes: BTreeMap<u8, BTreeSet<u16>> = BTreeMap::new();
        let mut j: usize = 0;
        while j < base.len()
            invariant
                j <= base@.len(),
                forall|s: u8| #[trigger] nodes@.contains_key(s) <==> exists|t: u16| base@.subrange(0, j as int).contains((s, t)),
                forall|s: u8, t: u16|
                    nodes@.contains_key(s) ==> (#[trigger] nodes@[s]@.contains(t) <==> base@.subrange(0, j as int).contains((s, t))),
            decreases base@.len() - j,
        {
            let (s, t) = base[j];
            let ghost old_nodes = nodes@;
            add_time(&mut nodes, s, t);
            proof {
                let pre = base@.subrange(0, j as int);
                let post = base@.subrange(0, j + 1);
                assert(post =~= pre.push((s, t)));
                assert forall|x: u8, u: u16| post.contains((x, u)) <==> pre.contains((x, u)) || (x == s && u == t) by {
                    if post.contains((x, u)) {
                        let q = choose|q: int| 0 <= q < post.len() && post[q] == (x, u);
                        if q < pre.len() {
                            assert(pre[q] == post[q]);
                        }
                    }
                    if pre.contains((x, u)) {
                        let q = choose|q: int| 0 <= q < pre.len() && pre[q] == (x, u);
                        assert(post[q] == pre[q]);
                    }
                    if x == s && u == t {
                        assert(post[j as int] == (x, u));
                    }
                }
                assert forall|x: u8| #[trigger] nodes@.contains_key(x) <==> exists|u: u16| post.contains((x, u)) by {
                    if x == s {
                        assert(post.contains((s, t)));
                    } else if nodes@.contains_key(x) {
                        assert(old_nodes.contains_key(x));
                        let u = choose|u: u16| pre.contains((x, u));
                        assert(post.contains((x, u)));
                    } else if exists|u: u16| post.contains((x, u)) {
                        let u = choose|u: u16| post.contains((x, u));
                        assert(pre.contains((x, u)));
                    }
                }
                assert forall|x: u8, u: u16| nodes@.contains_key(x) implies (#[trigger] nodes@[x]@.contains(u) <==> post.contains((x, u))) by {
                    if x != s {
                        assert(old_nodes.contains_key(x));
                        assert(nodes@[x] == old_nodes[x]);
                    } else if old_nodes.contains_key(s) {
                    } else {
                        if pre.contains((s, u)) {
                            assert(exists|w: u16| pre.contains((s, w)));
                        }
                    }
                }
            }
            j = j + 1;
        }
        proof {
            assert(base@.subrange(0, base@.len() as int) =~= base@);
        }
        let ghost cw = closed_walks(spec.n_stops as nat, spec.footpaths@);
        let ghost bp = base@;
        assert(bp == base_points(*spec, ps, tau));
        // One closed walk after each base timepoint.
        let mut b: usize = 0;
        while b < base.len()
            invariant
                b <= base@.len(),
                bp == base@,
                cw == closed_walks(spec.n_stops as nat, spec.footpaths@),
                footpaths@.len() == spec.n_stops,
                forall|i: int| 0 <= i < spec.n_stops ==> (#[trigger] footpaths@[i])@ == cw[i],
                forall|s: u8| #[trigger] nodes@.contains_key(s) <==> (exists|t: u16| bp.contains((s, t)))
                    || (exists|t: u16| walked(*spec, bp.subrange(0, b as int), s, t)),
                forall|s: u8, t: u16|
                    nodes@.contains_key(s) ==> (#[trigger] nodes@[s]@.contains(t) <==> bp.contains((s, t))
                        || walked(*spec, bp.subrange(0, b as int), s, t)),
            decreases base@.len() - b,
        {
            let (from, t) = base[b];
            let mut to: u8 = 0;
            while to < spec.n_stops
                invariant
                    b < bp.len(),
                    bp[b as int] == (from, t),
                    to <= spec.n_stops,
                    cw == closed_walks(spec.n_stops as nat, spec.footpaths@),
                    footpaths@.len() == spec.n_stops,
                    forall|i: int| 0 <= i < spec.n_stops ==> (#[trigger] footpaths@[i])@ == cw[i],
                    forall|s: u8| #[trigger] nodes@.contains_key(s) <==> (exists|t2: u16| bp.contains((s, t2)))
                        || (exists|t2: u16| walked(*spec, bp.subrange(0, b as int), s, t2))
                        || (exists|t2: u16| hop(*spec, from, t, s, t2) && s < to),
                    forall|s: u8, t2: u16|
                        nodes@.contains_key(s) ==> (#[trigger] nodes@[s]@.contains(t2) <==> bp.contains((s, t2))
                            || walked(*spec, bp.subrange(0, b as int), s, t2) || (hop(*spec, from, t, s, t2) && s < to)),
                decreases spec.n_stops - to,
            {
                let ghost old_nodes = nodes@;
                if to != from && from < spec.n_stops {
                    proof {
                        lemma_closed_square(*spec);
                    }
                    match footpaths[from as usize][to as usize] {
                        Some(walk) => {
                            match t.checked_add(walk) {
                                Some(arr) => {
                                    add_time(&mut nodes, to, arr);
                                    assert(hop(*spec, from, t, to, arr));
                                },
                                None => {},
                            }
                        },
                        None => {},
                    }
                }
                proof {
                    assert forall|x: u8| #[trigger] nodes@.contains_key(x) <==> (exists|t2: u16| bp.contains((x, t2)))
                        || (exists|t2: u16| walked(*spec, bp.subrange(0, b as int), x, t2))
                        || (exists|t2: u16| hop(*spec, from, t, x, t2) && x < to + 1) by {
                        if x != to {
                            if exists|t2: u16| hop(*spec, from, t, x, t2) && x < to + 1 {
                                let t2 = choose|t2: u16| hop(*spec, from, t, x, t2) && x < to + 1;
                                assert(hop(*spec, from, t, x, t2) && x < to);
                            }
                            if nodes@.contains_key(x) {
                                assert(old_nodes.contains_key(x));
                            }
                        } else {
                            if exists|t2: u16| hop(*spec, from, t, x, t2) && x < to + 1 {
                                let t2 = choose|t2: u16| hop(*spec, from, t, x, t2) && x < to + 1;
                                assert(footpaths@[from as int]@[to as int] == cw[from as int][to as int]);
                                assert(nodes@.contains_key(x));
                            }
                        }
                    }
                    assert forall|x: u8, t2: u16| nodes@.contains_key(x) implies (#[trigger] nodes@[x]@.contains(t2) <==> bp.contains((x, t2))
                        || walked(*spec, bp.subrange(0, b as int), x, t2) || (hop(*spec, from, t, x, t2) && x < to + 1)) by {
                        if x != to {
                            assert(old_nodes.contains_key(x));
                            assert(nodes@[x] == old_nodes[x]);
                        } else {
                            assert(footpaths@[from as int]@[to as int] == cw[from as int][to as int] || !(from < spec.n_stops));
                            if !old_nodes.contains_key(x) {
                                if bp.contains((x, t2)) {
                                    assert(exists|w: u16| bp.contains((x, w)));
                                }
                                if walked(*spec, bp.subrange(0, b as int), x, t2) {
                                    assert(exists|w: u16| walked(*spec, bp.subrange(0, b as int), x, w));
                                }
                            }
                        }
                    }
                }
                to = to + 1;
            }
            proof {
                let pre = bp.subrange(0, b as int);
                let post = bp.subrange(0, b + 1);
                assert forall|x: u8, t2: u16| walked(*spec, post, x, t2) <==> walked(*spec, pre, x, t2) || hop(*spec, from, t, x, t2) by {
                    if walked(*spec, post, x, t2) {
                        let q = choose|q: int| 0 <= q < post.len() && hop(*spec, #[trigger] post[q].0, post[q].1, x, t2);
                        if q < b {
                            assert(pre[q] == post[q]);
                        }
                    }
                    if walked(*spec, pre, x, t2) {
                        let q = choose|q: int| 0 <= q < pre.len() && hop(*spec, #[trigger] pre[q].0, pre[q].1, x, t2);
                        assert(post[q] == pre[q]);
                    }
                    if hop(*spec, from, t, x, t2) {
                        assert(post[b as int] == (from, t));
                    }
                }
                assert forall|x: u8| #[trigger] nodes@.contains_key(x) <==> (exists|t2: u16| bp.contains((x, t2)))
                    || (exists|t2: u16| walked(*spec, post, x, t2)) by {
                    if exists|t2: u16| walked(*spec, post, x, t2) {
                        let t2 = choose|t2: u16| walked(*spec, post, x, t2);
                        if hop(*spec, from, t, x, t2) {
                            assert(x < spec.n_stops);
                        }
                    }
                    if exists|t2: u16| walked(*spec, pre, x, t2) {
                        let t2 = choose|t2: u16| walked(*spec, pre, x, t2);
                        assert(walked(*spec, post, x, t2));
                    }
                    if exists|t2: u16| hop(*spec, from, t, x, t2) && x < spec.n_stops {
                        let t2 = choose|t2: u16| hop(*spec, from, t, x, t2) && x < spec.n_stops;
                        assert(walked(*spec, post, x, t2));
                    }
                }
            }
            b = b + 1;
        }
        proof {
            assert(bp.subrange(0, bp.len() as int) =~= bp);
            assert forall|x: u8| #[trigger] nodes@.contains_key(x) <==> exists|u: u16| node_time(*spec, ps, tau, x, u) by {
                if exists|u: u16| bp.contains((x, u)) {
                    let u = choose|u: u16| bp.contains((x, u));
                    assert(node_time(*spec, ps, tau, x, u));
                }
                if exists|u: u16| walked(*spec, bp, x, u) {
                    let u = choose|u: u16| walked(*spec, bp, x, u);
                    assert(node_time(*spec, ps, tau, x, u));
                }
            }
        }
        Prep { nodes, trips, footpaths, n_stops: spec.n_stops }
    }
}

proof fn lemma_closed_square(spec: NetworkSpec)
    ensures
        square_no_diag(closed_walks(spec.n_stops as nat, spec.footpaths@), spec.n_stops as nat),
{
    crate::proptest_support::spec::lemma_walks_square(spec.n_stops as nat, spec.footpaths@);
}

/// One closed walk from `(from, t)` arrives at `(s, t2)`.
pub open spec fn hop(spec: NetworkSpec, from: u8, t: u16, s: u8, t2: u16) -> bool {
    let cw = closed_walks(spec.n_stops as nat, spec.footpaths@);
    &&& from != s
    &&& from < spec.n_stops
    &&& s < spec.n_stops
    &&& cw[from as int][s as int] is Some
    &&& t + cw[from as int][s as int]->0 == t2
}

/// Some timepoint of `pts` reaches `(s, t2)` by one closed walk.
pub open spec fn walked(spec: NetworkSpec, pts: Seq<(u8, u16)>, s: u8, t2: u16) -> bool {
    exists|j: int| 0 <= j < pts.len() && hop(spec, #[trigger] pts[j].0, pts[j].1, s, t2)
}

/// Adds `t` to the timepoints of `s`.
fn add_time(nodes: &mut BTreeMap<u8, BTreeSet<u16>>, s: u8, t: u16)
    ensures
        final(nodes)@.dom() == old(nodes)@.dom().insert(s),
        forall|x: u8| x != s && old(nodes)@.contains_key(x) ==> #[trigger] final(nodes)@[x] == old(nodes)@[x],
        final(nodes)@[s]@ == (if old(nodes)@.contains_key(s) { old(nodes)@[s]@ } else { Set::empty() }).insert(t),
{
    let mut set = match nodes.get(&s) {
        Some(x) => x.clone(),
        None => BTreeSet::new(),
    };
    set.insert(t);
    nodes.insert(s, set);
}

/// The schedule of one trip of `route`.
fn trip_schedule(route: &RouteSpec, trip: &TripSpec) -> (v: Vec<(u8, u16, u16)>)
    requires
        route.stop_sequence@.len() >= 1,
        trip.dwell_times@.len() >= route.stop_sequence@.len(),
        trip.leg_durations@.len() + 1 >= route.stop_sequence@.len(),
    ensures
        v@ == schedule(*route, *trip),
{
    let n = route.stop_sequence.len();
    let mut v: Vec<(u8, u16, u16)> = Vec::new();
    let mut arr = trip.first_dep;
    let mut dep = arr.saturating_add(trip.dwell_times[0]);
    v.push((route.stop_sequence[0], arr, dep));
    let mut i: usize = 1;
    while i < n
        invariant
            1 <= i <= n,
            n == route.stop_sequence@.len(),
            trip.dwell_times@.len() >= n,
            trip.leg_durations@.len() + 1 >= n,
            dep == dep_at(*trip, (i - 1) as nat),
            v@ == schedule(*route, *trip).subrange(0, i as int),
        decreases n - i,
    {
        arr = dep.saturating_add(trip.leg_durations[i - 1]);
        assert(arr == arr_at(*trip, i as nat));
        dep = arr.saturating_add(trip.dwell_times[i]);
        v.push((route.stop_sequence[i], arr, dep));
        assert(v@ =~= schedule(*route, *trip).subrange(0, i + 1));
        i = i + 1;
    }
    assert(v@ =~= schedule(*route, *trip));
    v
}

/// The schedules of every trip, route by route.
fn build_schedules(spec: &NetworkSpec) -> (trips: Vec<Vec<(u8, u16, u16)>>)
    requires
        trips_readable(spec.routes@),
    ensures
        trips@.len() == all_schedules(spec.routes@).len(),
        forall|k: int| 0 <= k < trips@.len() ==> (#[trigger] trips@[k])@ == all_schedules(spec.routes@)[k],
{
    let mut trips: Vec<Vec<(u8, u16, u16)>> = Vec::new();
    let mut r: usize = 0;
    while r < spec.routes.len()
        invariant
            r <= spec.routes@.len(),
            trips_readable(spec.routes@),
            trips@.len() == all_schedules(spec.routes@.subrange(0, r as int)).len(),
            forall|k: int| 0 <= k < trips@.len() ==> (#[trigger] trips@[k])@ == all_schedules(spec.routes@.subrange(0, r as int))[k],
        decreases spec.routes@.len() - r,
    {
        let route = &spec.routes[r];
        let ghost before = all_schedules(spec.routes@.subrange(0, r as int));
        let ghost added = Seq::new(route.trips@.len(), |t: int| schedule(*route, route.trips@[t]));
        proof {
            let rs = spec.routes@.subrange(0, r + 1);
            assert(rs.drop_last() =~= spec.routes@.subrange(0, r as int));
            assert(rs.last() == *route);
            assert(all_schedules(rs) == before + added);
        }
        let mut t: usize = 0;
        while t < route.trips.len()
            invariant
                r < spec.routes@.len(),
                *route == spec.routes@[r as int],
                trips_readable(spec.routes@),
                t <= route.trips@.len(),
                added == Seq::new(route.trips@.len(), |x: int| schedule(*route, route.trips@[x])),
                trips@.len() == before.len() + t,
                forall|k: int| 0 <= k < before.len() ==> (#[trigger] trips@[k])@ == before[k],
                forall|k: int| before.len() <= k < trips@.len() ==> (#[trigger] trips@[k])@ == added[k - before.len()],
            decreases route.trips@.len() - t,
        {
            assert(spec.routes@[r as int].trips@[t as int] == route.trips@[t as int]);
            let v = trip_schedule(route, &route.trips[t]);
            trips.push(v);
            t = t + 1;
        }
        proof {
            assert forall|k: int| 0 <= k < trips@.len() implies (#[trigger] trips@[k])@ == all_schedules(spec.routes@.subrange(0, r + 1))[k] by {
                if k < before.len() {
                } else {
                }
            }
        }
        r = r + 1;
    }
    assert(spec.routes@.subrange(0, spec.routes@.len() as int) =~= spec.routes@);
    trips
}


/// A ride from `(s, t)` to `(s2, t2)`: some trip departs `s` at or after
/// `t` and reaches `s2` at `t2` at a later position.
pub open spec fn ride_edge(spec: NetworkSpec, s: u8, t: u16, s2: u8, t2: u16) -> bool {
    let sc = all_schedules(spec.routes@);
    exists|k: int, i: int, j: int|
        #![trigger sc[k][i], sc[k][j]]
        0 <= k < sc.len() && 0 <= i < j < sc[k].len() && sc[k][i].0 == s && sc[k][i].2 >= t && sc[k][j].0
            == s2 && sc[k][j].1 == t2
}

/// One edge of the time-expanded graph, on `(stop, time, trips)` states:
/// a closed walk (free, taken under 255 trips) or a ride (one trip, taken
/// under `max`).
pub open spec fn edge(spec: NetworkSpec, max: u8, a: (u8, u16, nat), b: (u8, u16, nat)) -> bool {
    ||| (a.2 < 255 && b.2 == a.2 && hop(spec, a.0, a.1, b.0, b.1))
    ||| (a.2 < max && b.2 == a.2 + 1 && ride_edge(spec, a.0, a.1, b.0, b.1))
}

/// Step `i` of `p` is an edge.
pub open spec fn step_ok(spec: NetworkSpec, max: u8, p: Seq<(u8, u16, nat)>, i: int) -> bool {
    edge(spec, max, p[i], p[i + 1])
}

/// `p` is a walk through the graph from `(ps, tau)` with no trips.
pub open spec fn is_path(spec: NetworkSpec, ps: u8, tau: u16, max: u8, p: Seq<(u8, u16, nat)>) -> bool {
    &&& p.len() > 0
    &&& p[0] == (ps, tau, 0nat)
    &&& forall|i: int| 0 <= i < p.len() - 1 ==> #[trigger] step_ok(spec, max, p, i)
}

/// `(s, t)` is reachable from `(ps, tau)` with `c` trips.
pub open spec fn reaches(spec: NetworkSpec, ps: u8, tau: u16, max: u8, s: u8, t: u16, c: nat) -> bool {
    exists|p: Seq<(u8, u16, nat)>| #[trigger] is_path(spec, ps, tau, max, p) && p.last() == (s, t, c)
}

/// `c` is the fewest trips with which `(s, t)` is reachable.
pub open spec fn fewest_trips(spec: NetworkSpec, ps: u8, tau: u16, max: u8, s: u8, t: u16, c: nat) -> bool {
    &&& reaches(spec, ps, tau, max, s, t, c)
    &&& forall|c2: nat| c2 < c ==> !#[trigger] reaches(spec, ps, tau, max, s, t, c2)
}

/// Reaching `pt` at `t` takes at fewest `k` trips, with `0 < k <= max`.
pub open spec fn ref_point(spec: NetworkSpec, ps: u8, pt: u8, tau: u16, max: u8, t: u16, k: u8) -> bool {
    fewest_trips(spec, ps, tau, max, pt, t, k as nat) && 0 < k <= max
}

/// The Pareto front of `(arrival, trips)` at `pt`: the points that no other
/// point matches or beats on both; empty when `ps == pt`.
pub open spec fn reference_front(spec: NetworkSpec, ps: u8, pt: u8, tau: u16, max: u8) -> Set<(u16, u8)> {
    if ps == pt {
        Set::empty()
    } else {
        Set::new(
            |p: (u16, u8)|
                ref_point(spec, ps, pt, tau, max, p.0, p.1) && !exists|q: (u16, u8)|
                    (#[trigger] ref_point(spec, ps, pt, tau, max, q.0, q.1)) && q.1 <= p.1 && q.0 <= p.0 && q != p,
        )
    }
}

/// Every edge out of `(s, t)` at `m` trips leads to a state `best` knows
/// at no more trips than the edge gives.
pub open spec fn closed_at(spec: NetworkSpec, max: u8, best: Map<(u8, u16), u8>, s: u8, t: u16, m: u8) -> bool {
    ||| m == 255
    ||| {
        &&& forall|s2: u8, t2: u16| #[trigger] hop(spec, s, t, s2, t2) ==> best.contains_key((s2, t2)) && best[(s2, t2)] <= m
        &&& m < max ==> forall|s2: u8, t2: u16|
            #[trigger] ride_edge(spec, s, t, s2, t2) ==> best.contains_key((s2, t2)) && best[(s2, t2)] <= m + 1
    }
}

/// Every known state is reachable at its recorded trip count.
pub open spec fn sound(spec: NetworkSpec, ps: u8, tau: u16, max: u8, best: Map<(u8, u16), u8>) -> bool {
    forall|k: (u8, u16)| #[trigger] best.contains_key(k) ==> reaches(spec, ps, tau, max, k.0, k.1, best[k] as nat)
}

/// Queue entries name known states at no fewer trips than recorded, and
/// under 255 trips.
pub open spec fn queue_ok(best: Map<(u8, u16), u8>, heap: Seq<(u16, u8, u8)>) -> bool {
    forall|i: int|
        0 <= i < heap.len() ==> best.contains_key((#[trigger] heap[i].2, heap[i].0)) && best[(heap[i].2, heap[i].0)]
            <= heap[i].1 && heap[i].1 < 255
}

/// The integer code of a queue entry.
pub open spec fn entry_code(t: u16, v: u8, s: u8) -> int {
    t * 65536 + v * 256 + s
}

proof fn lemma_entry_code(t: u16, v: u8, s: u8)
    ensures
        0 <= entry_code(t, v, s) < 4294967296,
        entry_code(t, v, s) % 256 == s,
        entry_code(t, v, s) / 65536 == t,
        (entry_code(t, v, s) / 256) % 256 == v,
{
    assert(0 <= entry_code(t, v, s) < 4294967296) by (nonlinear_arith)
        requires t < 65536, v < 256, s < 256;
    assert(entry_code(t, v, s) % 256 == s) by (nonlinear_arith)
        requires s < 256, v < 256, t < 65536;
    assert(entry_code(t, v, s) / 65536 == t) by (nonlinear_arith)
        requires s < 256, v < 256, t < 65536;
    assert((entry_code(t, v, s) / 256) % 256 == v) by (nonlinear_arith)
        requires s < 256, v < 256, t < 65536;
}

/// Records `(stop, t)` at `trips` unless known at no more; queues it when
/// that improves. A first sighting at 255 trips is recorded but not
/// queued.
fn relax(
    best: &mut BTreeMap<(u8, u16), u8>,
    heap: &mut Vec<(u16, u8, u8)>,
    stop: u8,
    t: u16,
    trips: u8,
) -> (pushed: bool)
    ensures
        pushed == (trips < (if old(best)@.contains_key((stop, t)) { old(best)@[(stop, t)] } else { 255u8 })),
        final(best)@ == old(best)@.insert(
            (stop, t),
            if pushed { trips } else if old(best)@.contains_key((stop, t)) { old(best)@[(stop, t)] } else { 255u8 },
        ),
        pushed ==> final(heap)@ == old(heap)@.push((t, trips, stop)),
        !pushed ==> final(heap)@ == old(heap)@,
{
    let entry = match best.get(&(stop, t)) {
        Some(v) => *v,
        None => 255u8,
    };
    if trips < entry {
        best.insert((stop, t), trips);
        heap.push((t, trips, stop));
        true
    } else {
        best.insert((stop, t), entry);
        false
    }
}

/// `b1` knows every state `b0` knows, at no more trips.
pub open spec fn ext(b0: Map<(u8, u16), u8>, b1: Map<(u8, u16), u8>) -> bool {
    forall|k: (u8, u16)| #[trigger] b0.contains_key(k) ==> b1.contains_key(k) && b1[k] <= b0[k]
}

/// Known states, each paired with every trip count at or above its
/// record, as codes; it only grows, and grows whenever a record improves.
pub open spec fn tokens(b: Map<(u8, u16), u8>) -> Set<int> {
    set_int_range(0, 4294967296).filter(
        |c: int| b.contains_key(((c % 256) as u8, (c / 65536) as u16)) && b[((c % 256) as u8, (c / 65536) as u16)] <= (c / 256) % 256,
    )
}

proof fn lemma_tokens_bound(b: Map<(u8, u16), u8>)
    ensures
        tokens(b).finite(),
        tokens(b).len() <= 4294967296,
{
    lemma_int_range(0, 4294967296);
    lemma_len_subset(tokens(b), set_int_range(0, 4294967296));
}

proof fn lemma_tokens_grow(b0: Map<(u8, u16), u8>, b1: Map<(u8, u16), u8>, key: (u8, u16), strict: bool)
    requires
        ext(b0, b1),
        strict ==> b1.contains_key(key) && (!b0.contains_key(key) || b1[key] < b0[key]),
    ensures
        tokens(b0).len() + (if strict { 1int } else { 0int }) <= tokens(b1).len(),
{
    lemma_tokens_bound(b0);
    lemma_tokens_bound(b1);
    assert(tokens(b0).subset_of(tokens(b1))) by {
        assert forall|c: int| tokens(b0).contains(c) implies tokens(b1).contains(c) by {
            assert(b0.contains_key(((c % 256) as u8, (c / 65536) as u16)));
        }
    }
    if strict {
        let c = entry_code(key.1, b1[key], key.0);
        lemma_entry_code(key.1, b1[key], key.0);
        assert(((c % 256) as u8, (c / 65536) as u16) == key);
        assert(tokens(b1).contains(c));
        assert(!tokens(b0).contains(c));
        assert(tokens(b0).insert(c).subset_of(tokens(b1)));
        lemma_len_subset(tokens(b0).insert(c), tokens(b1));
    } else {
        lemma_len_subset(tokens(b0), tokens(b1));
    }
}

/// Closure survives a map that only learns more.
proof fn lemma_closed_mono(spec: NetworkSpec, max: u8, b0: Map<(u8, u16), u8>, b1: Map<(u8, u16), u8>, s: u8, t: u16, m: u8)
    requires
        ext(b0, b1),
        closed_at(spec, max, b0, s, t, m),
    ensures
        closed_at(spec, max, b1, s, t, m),
{
    if m != 255 {
        assert forall|s2: u8, t2: u16| #[trigger] hop(spec, s, t, s2, t2) implies b1.contains_key((s2, t2)) && b1[(s2, t2)] <= m by {
            assert(b0.contains_key((s2, t2)));
        }
        if m < max {
            assert forall|s2: u8, t2: u16| #[trigger] ride_edge(spec, s, t, s2, t2) implies b1.contains_key((s2, t2)) && b1[(s2, t2)] <= m + 1 by {
                assert(b0.contains_key((s2, t2)));
            }
        }
    }
}

/// The search state's invariant, with the state `x` being expanded
/// exempt from "queued or closed".
pub open spec fn search_inv(
    spec: NetworkSpec,
    ps: u8,
    tau: u16,
    max: u8,
    best: Map<(u8, u16), u8>,
    heap: Seq<(u16, u8, u8)>,
    x: Option<(u8, u16)>,
) -> bool {
    &&& sound(spec, ps, tau, max, best)
    &&& queue_ok(best, heap)
    &&& forall|k: (u8, u16)|
        (#[trigger] best.contains_key(k)) && x != Some(k) ==> heap.contains((k.1, best[k], k.0)) || closed_at(
            spec,
            max,
            best,
            k.0,
            k.1,
            best[k],
        )
}

/// [`relax`] with the search invariant carried along.
fn relax_step(
    best: &mut BTreeMap<(u8, u16), u8>,
    heap: &mut Vec<(u16, u8, u8)>,
    stop: u8,
    t: u16,
    trips: u8,
    Ghost(spec): Ghost<NetworkSpec>,
    Ghost(ps): Ghost<u8>,
    Ghost(tau): Ghost<u16>,
    Ghost(max): Ghost<u8>,
    Ghost(x): Ghost<Option<(u8, u16)>>,
)
    requires
        search_inv(spec, ps, tau, max, old(best)@, old(heap)@, x),
        reaches(spec, ps, tau, max, stop, t, trips as nat),
        x == Some((stop, t)) ==> old(best)@.contains_key((stop, t)) && old(best)@[(stop, t)] <= trips,
    ensures
        search_inv(spec, ps, tau, max, final(best)@, final(heap)@, x),
        ext(old(best)@, final(best)@),
        final(best)@.contains_key((stop, t)),
        final(best)@[(stop, t)] <= trips,
        forall|k: (u8, u16)|
            #[trigger] old(best)@.contains_key(k) && (k != (stop, t) || old(best)@[k] <= trips) ==> final(best)@[k] == old(best)@[k],
        forall|e: (u16, u8, u8)| old(heap)@.contains(e) ==> #[trigger] final(heap)@.contains(e),
        final(heap)@.len() + 2 * (4294967296 - tokens(final(best)@).len()) <= old(heap)@.len() + 2 * (4294967296
            - tokens(old(best)@).len()),
{
    let ghost b0 = best@;
    let ghost h0 = heap@;
    let pushed = relax(best, heap, stop, t, trips);
    proof {
        let b1 = best@;
        let h1 = heap@;
        assert(ext(b0, b1));
        lemma_tokens_grow(b0, b1, (stop, t), pushed);
        assert forall|e: (u16, u8, u8)| h0.contains(e) implies #[trigger] h1.contains(e) by {
            if pushed {
                let i = choose|i: int| 0 <= i < h0.len() && h0[i] == e;
                assert(h1[i] == e);
            }
        }
        assert(sound(spec, ps, tau, max, b1)) by {
            assert forall|k: (u8, u16)| #[trigger] b1.contains_key(k) implies reaches(spec, ps, tau, max, k.0, k.1, b1[k] as nat) by {
                if k != (stop, t) {
                    assert(b0.contains_key(k));
                }
            }
        }
        assert(queue_ok(b1, h1)) by {
            assert forall|i: int| 0 <= i < h1.len() implies b1.contains_key((#[trigger] h1[i].2, h1[i].0)) && b1[(h1[i].2, h1[i].0)]
                <= h1[i].1 && h1[i].1 < 255 by {
                if i < h0.len() {
                    assert(h1[i] == h0[i]);
                    assert(b0.contains_key((h0[i].2, h0[i].0)));
                }
            }
        }
        assert forall|k: (u8, u16)|
            (#[trigger] b1.contains_key(k)) && x != Some(k) implies h1.contains((k.1, b1[k], k.0)) || closed_at(spec, max, b1, k.0, k.1, b1[k]) by {
            if k == (stop, t) {
                if pushed {
                    assert(h1[h1.len() - 1] == (t, trips, stop));
                } else if b0.contains_key(k) {
                    if h0.contains((k.1, b0[k], k.0)) {
                    } else {
                        lemma_closed_mono(spec, max, b0, b1, k.0, k.1, b0[k]);
                    }
                }
            } else {
                assert(b0.contains_key(k));
                if h0.contains((k.1, b0[k], k.0)) {
                } else {
                    lemma_closed_mono(spec, max, b0, b1, k.0, k.1, b0[k]);
                }
            }
        }
    }
}


/// The lexicographically least entry of a non-empty queue.
fn min_entry(heap: &Vec<(u16, u8, u8)>) -> (m: usize)
    requires
        heap@.len() > 0,
    ensures
        m < heap@.len(),
        forall|i: int| 0 <= i < heap@.len() ==> lex_le(heap@[m as int], #[trigger] heap@[i]),
{
    let mut m: usize = 0;
    let mut i: usize = 1;
    while i < heap.len()
        invariant
            1 <= i <= heap@.len(),
            m < i,
            forall|j: int| 0 <= j < i ==> lex_le(heap@[m as int], #[trigger] heap@[j]),
        decreases heap@.len() - i,
    {
        let (a, b) = (heap[i], heap[m]);
        if a.0 < b.0 || (a.0 == b.0 && (a.1 < b.1 || (a.1 == b.1 && a.2 < b.2))) {
            m = i;
        }
        i = i + 1;
    }
    m
}

/// `a` comes no later than `b` in `(time, trips, stop)` order.
pub open spec fn lex_le(a: (u16, u8, u8), b: (u16, u8, u8)) -> bool {
    a.0 < b.0 || (a.0 == b.0 && (a.1 < b.1 || (a.1 == b.1 && a.2 <= b.2)))
}

/// One more edge from a reachable state reaches its target.
proof fn lemma_reach_step(spec: NetworkSpec, ps: u8, tau: u16, max: u8, s: u8, t: u16, c: nat, s2: u8, t2: u16, ride: bool)
    requires
        reaches(spec, ps, tau, max, s, t, c),
        !ride ==> c < 255 && hop(spec, s, t, s2, t2),
        ride ==> c < max && ride_edge(spec, s, t, s2, t2),
    ensures
        reaches(spec, ps, tau, max, s2, t2, if ride { c + 1 } else { c }),
{
    let p = choose|p: Seq<(u8, u16, nat)>| #[trigger] is_path(spec, ps, tau, max, p) && p.last() == (s, t, c);
    let q = p.push((s2, t2, if ride { c + 1 } else { c }));
    assert forall|i: int| 0 <= i < q.len() - 1 implies #[trigger] step_ok(spec, max, q, i) by {
        if i < p.len() - 1 {
            assert(step_ok(spec, max, p, i));
        }
    }
    assert(is_path(spec, ps, tau, max, q));
}

/// Expands `(stop, t)` at `m` trips: relaxes every walk and, under `max`,
/// every ride out of it, which closes it.
fn expand(
    prep: &Prep,
    best: &mut BTreeMap<(u8, u16), u8>,
    heap: &mut Vec<(u16, u8, u8)>,
    stop: u8,
    t: u16,
    m: u8,
    max_trips: u8,
    Ghost(spec): Ghost<NetworkSpec>,
    Ghost(ps): Ghost<u8>,
    Ghost(tau): Ghost<u16>,
)
    requires
        prep.describes(spec, ps, tau),
        search_inv(spec, ps, tau, max_trips, old(best)@, old(heap)@, Some((stop, t))),
        old(best)@.contains_key((stop, t)),
        old(best)@[(stop, t)] == m,
        m < 255,
    ensures
        search_inv(spec, ps, tau, max_trips, final(best)@, final(heap)@, None),
        ext(old(best)@, final(best)@),
        final(heap)@.len() + 2 * (4294967296 - tokens(final(best)@).len()) <= old(heap)@.len() + 2 * (4294967296
            - tokens(old(best)@).len()),
{
    let ghost max = max_trips;
    let ghost x = Some((stop, t));
    let ghost b_start = best@;
    let ghost mu = heap@.len() + 2 * (4294967296 - tokens(best@).len());
    let ghost cw = closed_walks(spec.n_stops as nat, spec.footpaths@);
    let ghost sc = all_schedules(spec.routes@);
    proof {
        assert(reaches(spec, ps, tau, max, stop, t, m as nat));
        lemma_closed_square(spec);
    }
    let n = prep.n_stops;
    if stop < n {
        let mut to: u8 = 0;
        while to < n
            invariant
                n == spec.n_stops,
                stop < n,
                to <= n,
                m < 255,
                prep.describes(spec, ps, tau),
                cw == closed_walks(spec.n_stops as nat, spec.footpaths@),
                square_no_diag(cw, spec.n_stops as nat),
                search_inv(spec, ps, tau, max, best@, heap@, x),
                x == Some((stop, t)),
                ext(b_start, best@),
                best@.contains_key((stop, t)) && best@[(stop, t)] == m,
                reaches(spec, ps, tau, max, stop, t, m as nat),
                heap@.len() + 2 * (4294967296 - tokens(best@).len()) <= mu,
                forall|s2: u8, t2: u16|
                    s2 < to && #[trigger] hop(spec, stop, t, s2, t2) ==> best@.contains_key((s2, t2)) && best@[(s2, t2)] <= m,
            decreases n - to,
        {
            let ghost b0 = best@;
            if to != stop {
                assert(prep.footpaths@[stop as int]@ == cw[stop as int]);
                match prep.footpaths[stop as usize][to as usize] {
                    Some(w) => {
                        match t.checked_add(w) {
                            Some(arr) => {
                                proof {
                                    assert(x != Some((to, arr)));
                                    assert(hop(spec, stop, t, to, arr));
                                    lemma_reach_step(spec, ps, tau, max, stop, t, m as nat, to, arr, false);
                                }
                                relax_step(best, heap, to, arr, m, Ghost(spec), Ghost(ps), Ghost(tau), Ghost(max), Ghost(x));
                            },
                            None => {},
                        }
                    },
                    None => {},
                }
            }
            proof {
                assert forall|s2: u8, t2: u16|
                    s2 < to + 1 && #[trigger] hop(spec, stop, t, s2, t2) implies best@.contains_key((s2, t2)) && best@[(s2, t2)] <= m by {
                    if s2 < to {
                        assert(b0.contains_key((s2, t2)));
                    }
                }
            }
            to = to + 1;
        }
    }
    let ghost b_walked = best@;
    if m < max_trips {
        let mut k: usize = 0;
        while k < prep.trips.len()
            invariant
                k <= prep.trips@.len(),
                m < max,
                max == max_trips,
                m < 255,
                prep.describes(spec, ps, tau),
                sc == all_schedules(spec.routes@),
                search_inv(spec, ps, tau, max, best@, heap@, x),
                x == Some((stop, t)),
                ext(b_walked, best@),
                ext(b_start, best@),
                best@.contains_key((stop, t)) && best@[(stop, t)] == m,
                reaches(spec, ps, tau, max, stop, t, m as nat),
                heap@.len() + 2 * (4294967296 - tokens(best@).len()) <= mu,
                forall|kk: int, ii: int, jj: int|
                    #![trigger sc[kk][ii], sc[kk][jj]]
                    0 <= kk < k && 0 <= ii < jj < sc[kk].len() && sc[kk][ii].0 == stop && sc[kk][ii].2 >= t
                        ==> best@.contains_key((sc[kk][jj].0, sc[kk][jj].1)) && best@[(sc[kk][jj].0, sc[kk][jj].1)] <= m + 1,
            decreases prep.trips@.len() - k,
        {
            let sched = &prep.trips[k];
            assert(sched@ == sc[k as int]);
            let ghost b_k = best@;
            let mut i: usize = 0;
            while i < sched.len()
                invariant
                    k < prep.trips@.len(),
                    i <= sched@.len(),
                    sched@ == sc[k as int],
                    m < max,
                    max == max_trips,
                    m < 255,
                    prep.describes(spec, ps, tau),
                    sc == all_schedules(spec.routes@),
                    search_inv(spec, ps, tau, max, best@, heap@, x),
                x == Some((stop, t)),
                    ext(b_k, best@),
                    ext(b_walked, best@),
                    ext(b_start, best@),
                    best@.contains_key((stop, t)) && best@[(stop, t)] == m,
                    reaches(spec, ps, tau, max, stop, t, m as nat),
                    heap@.len() + 2 * (4294967296 - tokens(best@).len()) <= mu,
                    forall|kk: int, ii: int, jj: int|
                        #![trigger sc[kk][ii], sc[kk][jj]]
                        (0 <= kk < k || (kk == k && 0 <= ii < i)) && 0 <= ii < jj < sc[kk].len() && sc[kk][ii].0 == stop
                            && sc[kk][ii].2 >= t ==> best@.contains_key((sc[kk][jj].0, sc[kk][jj].1))
                            && best@[(sc[kk][jj].0, sc[kk][jj].1)] <= m + 1,
                decreases sched@.len() - i,
            {
                let (bs, _ba, bd) = sched[i];
                let ghost b_i = best@;
                if bs == stop && bd >= t {
                    let mut j: usize = i + 1;
                    while j < sched.len()
                        invariant
                            k < prep.trips@.len(),
                            i < j <= sched@.len(),
                            sched@ == sc[k as int],
                            sc[k as int][i as int].0 == stop,
                            sc[k as int][i as int].2 >= t,
                            m < max,
                            max == max_trips,
                            m < 255,
                            prep.describes(spec, ps, tau),
                            sc == all_schedules(spec.routes@),
                            search_inv(spec, ps, tau, max, best@, heap@, x),
                x == Some((stop, t)),
                            ext(b_i, best@),
                            ext(b_k, best@),
                            ext(b_walked, best@),
                            ext(b_start, best@),
                            best@.contains_key((stop, t)) && best@[(stop, t)] == m,
                            reaches(spec, ps, tau, max, stop, t, m as nat),
                            heap@.len() + 2 * (4294967296 - tokens(best@).len()) <= mu,
                            forall|jj: int|
                                i < jj < j ==> best@.contains_key((#[trigger] sc[k as int][jj].0, sc[k as int][jj].1))
                                    && best@[(sc[k as int][jj].0, sc[k as int][jj].1)] <= m + 1,
                        decreases sched@.len() - j,
                    {
                        let (a_stop, a_arr, _ad) = sched[j];
                        let ghost b_j = best@;
                        proof {
                            assert(ride_edge(spec, stop, t, a_stop, a_arr)) by {
                                let _ = sc[k as int][i as int];
                                let _ = sc[k as int][j as int];
                            }
                            lemma_reach_step(spec, ps, tau, max, stop, t, m as nat, a_stop, a_arr, true);
                            if x == Some((a_stop, a_arr)) {
                                assert(a_stop == stop && a_arr == t);
                            }
                        }
                        relax_step(best, heap, a_stop, a_arr, m + 1, Ghost(spec), Ghost(ps), Ghost(tau), Ghost(max), Ghost(x));
                        proof {
                            assert forall|jj: int|
                                i < jj < j + 1 implies best@.contains_key((#[trigger] sc[k as int][jj].0, sc[k as int][jj].1))
                                    && best@[(sc[k as int][jj].0, sc[k as int][jj].1)] <= m + 1 by {
                                if jj < j {
                                    assert(b_j.contains_key((sc[k as int][jj].0, sc[k as int][jj].1)));
                                }
                            }
                        }
                        j = j + 1;
                    }
                }
                proof {
                    assert forall|kk: int, ii: int, jj: int|
                        #![trigger sc[kk][ii], sc[kk][jj]]
                        (0 <= kk < k || (kk == k && 0 <= ii < i + 1)) && 0 <= ii < jj < sc[kk].len() && sc[kk][ii].0 == stop
                            && sc[kk][ii].2 >= t implies best@.contains_key((sc[kk][jj].0, sc[kk][jj].1))
                            && best@[(sc[kk][jj].0, sc[kk][jj].1)] <= m + 1 by {
                        if !(kk == k && ii == i) {
                            assert(b_i.contains_key((sc[kk][jj].0, sc[kk][jj].1)));
                        }
                    }
                }
                i = i + 1;
            }
            k = k + 1;
        }
    }
    proof {
        let b = best@;
        assert(closed_at(spec, max, b, stop, t, m)) by {
            assert forall|s2: u8, t2: u16| #[trigger] hop(spec, stop, t, s2, t2) implies b.contains_key((s2, t2)) && b[(s2, t2)] <= m by {
                assert(b_walked.contains_key((s2, t2)));
            }
            if m < max {
                assert forall|s2: u8, t2: u16| #[trigger] ride_edge(spec, stop, t, s2, t2) implies b.contains_key((s2, t2)) && b[(s2, t2)] <= m + 1 by {
                    let (kk, ii, jj) = choose|kk: int, ii: int, jj: int|
                        #![trigger sc[kk][ii], sc[kk][jj]]
                        0 <= kk < sc.len() && 0 <= ii < jj < sc[kk].len() && sc[kk][ii].0 == stop && sc[kk][ii].2 >= t && sc[kk][jj].0
                            == s2 && sc[kk][jj].1 == t2;
                    assert(prep.trips@[kk]@ == sc[kk]);
                }
            }
        }
    }
}

/// A closed search knows every state of a path at no more trips than
/// the path takes.
proof fn lemma_complete_path(spec: NetworkSpec, ps: u8, tau: u16, max: u8, best: Map<(u8, u16), u8>, p: Seq<(u8, u16, nat)>, i: int)
    requires
        search_inv(spec, ps, tau, max, best, Seq::empty(), None),
        best.contains_key((ps, tau)),
        best[(ps, tau)] == 0,
        is_path(spec, ps, tau, max, p),
        0 <= i < p.len(),
    ensures
        best.contains_key((p[i].0, p[i].1)) && best[(p[i].0, p[i].1)] <= p[i].2,
    decreases i,
{
    if i > 0 {
        lemma_complete_path(spec, ps, tau, max, best, p, i - 1);
        assert(step_ok(spec, max, p, i - 1));
        let a = p[i - 1];
        assert(best.contains_key((a.0, a.1)));
        assert(closed_at(spec, max, best, a.0, a.1, best[(a.0, a.1)]));
    }
}

/// A closed search knows every reachable state at no more trips than any
/// way of reaching it.
proof fn lemma_complete(spec: NetworkSpec, ps: u8, tau: u16, max: u8, best: Map<(u8, u16), u8>, s: u8, t: u16, c: nat)
    requires
        search_inv(spec, ps, tau, max, best, Seq::empty(), None),
        best.contains_key((ps, tau)),
        best[(ps, tau)] == 0,
        reaches(spec, ps, tau, max, s, t, c),
    ensures
        best.contains_key((s, t)) && best[(s, t)] <= c,
{
    let p = choose|p: Seq<(u8, u16, nat)>| #[trigger] is_path(spec, ps, tau, max, p) && p.last() == (s, t, c);
    lemma_complete_path(spec, ps, tau, max, best, p, p.len() - 1);
}

/// The points of [`reference_front`], as a list.
fn front_points(spec: &NetworkSpec, ps: u8, pt: u8, tau: u16, max_trips: u8) -> (out: Vec<(u16, u8)>)
    requires
        preparable(*spec, ps),
    ensures
        forall|p: (u16, u8)| #[trigger] out@.contains(p) <==> reference_front(*spec, ps, pt, tau, max_trips).contains(p),
{
    if ps == pt {
        let out: Vec<(u16, u8)> = Vec::new();
        return out;
    }
    let ghost max = max_trips;
    let prep = Prep::build(spec, ps, tau);
    let mut best: BTreeMap<(u8, u16), u8> = BTreeMap::new();
    let mut heap: Vec<(u16, u8, u8)> = Vec::new();
    best.insert((ps, tau), 0);
    heap.push((tau, 0, ps));
    proof {
        assert(is_path(*spec, ps, tau, max, seq![(ps, tau, 0nat)]));
        assert(seq![(ps, tau, 0nat)].last() == (ps, tau, 0nat));
        assert(heap@[0] == (tau, 0u8, ps));
        lemma_tokens_bound(best@);
    }
    while heap.len() > 0
        invariant
            prep.describes(*spec, ps, tau),
            search_inv(*spec, ps, tau, max, best@, heap@, None),
            best@.contains_key((ps, tau)),
            best@[(ps, tau)] == 0,
            max == max_trips,
        decreases heap@.len() + 2 * (4294967296 - tokens(best@).len()),
    {
        proof {
            lemma_tokens_bound(best@);
        }
        let ghost h0 = heap@;
        let idx = min_entry(&heap);
        let (t, trips, stop) = heap.remove(idx);
        proof {
            assert(h0[idx as int] == (t, trips, stop));
            assert(h0.remove(idx as int) == heap@);
            assert forall|e: (u16, u8, u8)| h0.contains(e) && e != (t, trips, stop) implies #[trigger] heap@.contains(e) by {
                let i = choose|i: int| 0 <= i < h0.len() && h0[i] == e;
                if i < idx {
                    assert(heap@[i] == e);
                } else {
                    assert(heap@[i - 1] == e);
                }
            }
            assert(queue_ok(best@, heap@)) by {
                assert forall|i: int| 0 <= i < heap@.len() implies best@.contains_key((#[trigger] heap@[i].2, heap@[i].0))
                    && best@[(heap@[i].2, heap@[i].0)] <= heap@[i].1 && heap@[i].1 < 255 by {
                    if i < idx {
                        assert(heap@[i] == h0[i]);
                    } else {
                        assert(heap@[i] == h0[i + 1]);
                    }
                }
            }
            assert(best@.contains_key((stop, t)) && trips < 255);
        }
        let current = match best.get(&(stop, t)) {
            Some(v) => *v,
            None => 255u8,
        };
        if current == trips {
            expand(&prep, &mut best, &mut heap, stop, t, trips, max_trips, Ghost(*spec), Ghost(ps), Ghost(tau));
            proof {
                assert(best@.contains_key((ps, tau)));
            }
        } else {
            proof {
                assert(search_inv(*spec, ps, tau, max, best@, heap@, None));
            }
        }
        proof {
            lemma_tokens_bound(best@);
        }
    }
    // Every reachable state is now known at its fewest trips.
    proof {
        assert(heap@ =~= Seq::<(u16, u8, u8)>::empty());
    }
    let mut pts: Vec<(u16, u8)> = Vec::new();
    let mut tt: u32 = 0;
    while tt <= 65535
        invariant
            tt <= 65536,
            search_inv(*spec, ps, tau, max, best@, Seq::empty(), None),
            best@.contains_key((ps, tau)),
            best@[(ps, tau)] == 0,
            max == max_trips,
            forall|p: (u16, u8)| pts@.contains(p) <==> (p.0 < tt && ref_point(*spec, ps, pt, tau, max, p.0, p.1)),
        decreases 65536 - tt,
    {
        let t = tt as u16;
        let ghost old_pts = pts@;
        match best.get(&(pt, t)) {
            Some(k) => {
                if *k > 0 && *k <= max_trips {
                    pts.push((t, *k));
                }
            },
            None => {},
        }
        proof {
            assert forall|k: u8| ref_point(*spec, ps, pt, tau, max, t, k) <==> best@.contains_key((pt, t)) && best@[(pt, t)] == k
                && 0 < k <= max by {
                if ref_point(*spec, ps, pt, tau, max, t, k) {
                    lemma_complete(*spec, ps, tau, max, best@, pt, t, k as nat);
                    if best@[(pt, t)] < k {
                        assert(reaches(*spec, ps, tau, max, pt, t, best@[(pt, t)] as nat));
                    }
                }
                if best@.contains_key((pt, t)) && best@[(pt, t)] == k && 0 < k <= max {
                    assert(reaches(*spec, ps, tau, max, pt, t, k as nat));
                    assert forall|c2: nat| c2 < k implies !#[trigger] reaches(*spec, ps, tau, max, pt, t, c2) by {
                        if reaches(*spec, ps, tau, max, pt, t, c2) {
                            lemma_complete(*spec, ps, tau, max, best@, pt, t, c2);
                        }
                    }
                }
            }
            assert forall|p: (u16, u8)| pts@.contains(p) <==> (p.0 < tt + 1 && ref_point(*spec, ps, pt, tau, max, p.0, p.1)) by {
                if pts@.contains(p) && !old_pts.contains(p) {
                    assert(pts@.last() == p);
                }
                if old_pts.contains(p) {
                    let i = choose|i: int| 0 <= i < old_pts.len() && old_pts[i] == p;
                    assert(pts@[i] == p);
                }
                if p.0 == t && ref_point(*spec, ps, pt, tau, max, p.0, p.1) {
                    assert(pts@.last() == p);
                }
            }
        }
        tt = tt + 1;
    }
    let mut out: Vec<(u16, u8)> = Vec::new();
    let mut a: usize = 0;
    while a < pts.len()
        invariant
            a <= pts@.len(),
            ps != pt,
            forall|p: (u16, u8)| pts@.contains(p) <==> ref_point(*spec, ps, pt, tau, max, p.0, p.1),
            forall|p: (u16, u8)| #[trigger] out@.contains(p) <==> pts@.subrange(0, a as int).contains(p)
                && reference_front(*spec, ps, pt, tau, max).contains(p),
        decreases pts@.len() - a,
    {
        let p = pts[a];
        let mut beaten = false;
        let mut b: usize = 0;
        while b < pts.len()
            invariant
                a < pts@.len(),
                b <= pts@.len(),
                p == pts@[a as int],
                beaten <==> exists|q: int| 0 <= q < b && #[trigger] pts@[q].1 <= p.1 && pts@[q].0 <= p.0 && pts@[q] != p,
            decreases pts@.len() - b,
        {
            let q = pts[b];
            if q.1 <= p.1 && q.0 <= p.0 && !(q.0 == p.0 && q.1 == p.1) {
                beaten = true;
            }
            b = b + 1;
        }
        let ghost prev = out@;
        if !beaten {
            out.push(p);
        }
        proof {
            assert(pts@.contains(p));
            assert forall|x: (u16, u8)| #[trigger] out@.contains(x) <==> prev.contains(x) || (!beaten && x == p) by {
                if prev.contains(x) {
                    let i = choose|i: int| 0 <= i < prev.len() && prev[i] == x;
                    assert(out@[i] == x);
                }
                if !beaten && x == p {
                    assert(out@[out@.len() - 1] == x);
                }
            }
            assert forall|x: (u16, u8)| #[trigger] out@.contains(x) <==> pts@.subrange(0, a + 1).contains(x)
                && reference_front(*spec, ps, pt, tau, max).contains(x) by {
                let pre = pts@.subrange(0, a as int);
                let post = pts@.subrange(0, a + 1);
                if post.contains(x) && !pre.contains(x) {
                    let i = choose|i: int| 0 <= i < post.len() && post[i] == x;
                    if i < a {
                        assert(pre[i] == x);
                    }
                }
                if pre.contains(x) {
                    let i = choose|i: int| 0 <= i < pre.len() && pre[i] == x;
                    assert(post[i] == x);
                }
                if x == p {
                    assert(post[a as int] == p);
                    if beaten {
                        let q = choose|q: int| 0 <= q < pts@.len() && #[trigger] pts@[q].1 <= p.1 && pts@[q].0 <= p.0 && pts@[q] != p;
                        assert(pts@.contains(pts@[q]));
                        assert(ref_point(*spec, ps, pt, tau, max, pts@[q].0, pts@[q].1));
                    } else {
                        if exists|q: (u16, u8)| (#[trigger] ref_point(*spec, ps, pt, tau, max, q.0, q.1)) && q.1 <= p.1 && q.0 <= p.0 && q != p {
                            let q = choose|q: (u16, u8)| (#[trigger] ref_point(*spec, ps, pt, tau, max, q.0, q.1)) && q.1 <= p.1 && q.0 <= p.0 && q != p;
                            assert(pts@.contains(q));
                            let i = choose|i: int| 0 <= i < pts@.len() && pts@[i] == q;
                            assert(pts@[i].1 <= p.1);
                        }
                    }
                }
            }
        }
        a = a + 1;
    }
    proof {
        assert(pts@.subrange(0, pts@.len() as int) =~= pts@);
        assert forall|x: (u16, u8)| #[trigger] out@.contains(x) <==> reference_front(*spec, ps, pt, tau, max).contains(x) by {
            if reference_front(*spec, ps, pt, tau, max).contains(x) {
                assert(pts@.contains(x));
            }
        }
    }
    out
}

/// The brute-force ground truth: the Pareto front of `(arrival, trips)`
/// at `pt` for a rider leaving `ps` at `tau`, with at most `max_trips`
/// trips. It searches the time-expanded graph (a closed walk is a free
/// edge, riding one trip from any stop of it to any later stop costs one
/// trip) keeping the fewest trips per `(stop, time)`; journeys without a
/// trip, and `ps == pt`, are not counted.
pub fn reference_solve(spec: &NetworkSpec, ps: u8, pt: u8, tau: u16, max_trips: u8) -> (out: BTreeSet<(u16, u8)>)
    requires
        preparable(*spec, ps),
    ensures
        out@ == reference_front(*spec, ps, pt, tau, max_trips),
{
    let points = front_points(spec, ps, pt, tau, max_trips);
    let out = set_of(&points);
    assert(out@ =~= reference_front(*spec, ps, pt, tau, max_trips));
    out
}

/// The set of the items of `v`.
fn set_of<T: Copy + Ord>(v: &Vec<T>) -> (out: BTreeSet<T>)
    requires
        vstd::laws_cmp::obeys_cmp::<T>(),
    ensures
        forall|x: T| #[trigger] out@.contains(x) <==> v@.contains(x),
{
    let mut out: BTreeSet<T> = BTreeSet::new();
    let ghost mut seen: Seq<T> = Seq::empty();
    let mut k: usize = 0;
    while k < v.len()
        invariant
            k <= v@.len(),
            seen.len() == k,
            vstd::laws_cmp::obeys_cmp::<T>(),
            forall|i: int| 0 <= i < k ==> seen[i] == v@[i],
            forall|x: T| #[trigger] out@.contains(x) <==> seen.contains(x),
        decreases v@.len() - k,
    {
        let item = v[k];
        let ghost prev = seen;
        out.insert(item);
        proof {
            seen = seen.push(item);
            assert forall|x: T| #[trigger] out@.contains(x) <==> seen.contains(x) by {
                if prev.contains(x) {
                    let i = choose|i: int| 0 <= i < prev.len() && prev[i] == x;
                    assert(seen[i] == x);
                }
                if seen.contains(x) && x != item {
                    let i = choose|i: int| 0 <= i < seen.len() && seen[i] == x;
                    assert(prev[i] == x);
                }
                assert(seen[seen.len() - 1] == item);
            }
        }
        k = k + 1;
    }
    assert(seen =~= v@);
    out
}

/// A range-query candidate `(departure, arrival, trips)`: a departure of
/// the list, and a point of the reference front for it.
pub open spec fn range_candidate(spec: NetworkSpec, ps: u8, pt: u8, departures: Seq<u16>, max: u8, x: (u16, u16, u8)) -> bool {
    departures.contains(x.0) && reference_front(spec, ps, pt, x.0, max).contains((x.1, x.2))
}

/// `y` leaves no earlier, arrives no later and takes no more trips than `x`.
pub open spec fn range_dominates(y: (u16, u16, u8), x: (u16, u16, u8)) -> bool {
    y.0 >= x.0 && y.1 <= x.1 && y.2 <= x.2
}

/// The Pareto profile over a list of departures: the candidates that no
/// other candidate dominates.
pub open spec fn reference_range_front(spec: NetworkSpec, ps: u8, pt: u8, departures: Seq<u16>, max: u8) -> Set<(u16, u16, u8)> {
    Set::new(
        |x: (u16, u16, u8)|
            range_candidate(spec, ps, pt, departures, max, x) && !exists|y: (u16, u16, u8)|
                #[trigger] range_candidate(spec, ps, pt, departures, max, y) && y != x && range_dominates(y, x),
    )
}

impl ParetoItem for (u16, u16, u8) {
    /// Later departure first, then fewer trips, then earlier arrival.
    open spec fn key_le(&self, other: &Self) -> bool {
        ||| self.0 > other.0
        ||| self.0 == other.0 && self.2 < other.2
        ||| self.0 == other.0 && self.2 == other.2 && self.1 <= other.1
    }

    open spec fn pdom(&self, other: &Self) -> bool {
        range_dominates(*self, *other)
    }

    proof fn lemma_key_total(a: &Self, b: &Self) {
    }

    proof fn lemma_key_transitive(a: &Self, b: &Self, c: &Self) {
    }

    proof fn lemma_pdom_reflexive(a: &Self) {
    }

    proof fn lemma_pdom_transitive(a: &Self, b: &Self, c: &Self) {
    }

    fn key_le_exec(&self, other: &Self) -> (r: bool) {
        self.0 > other.0 || (self.0 == other.0 && (self.2 < other.2 || (self.2 == other.2 && self.1 <= other.1)))
    }

    fn pdom_exec(&self, other: &Self) -> (r: bool) {
        self.0 >= other.0 && self.1 <= other.1 && self.2 <= other.2
    }
}

/// Range-query ground truth: the reference front once per departure, then
/// the Pareto profile of all `(departure, arrival, trips)` points over
/// later departure, earlier arrival and fewer trips.
pub fn reference_range_solve(spec: &NetworkSpec, ps: u8, pt: u8, departures: &[u16], max_trips: u8) -> (out: BTreeSet<(u16, u16, u8)>)
    requires
        preparable(*spec, ps),
    ensures
        out@ == reference_range_front(*spec, ps, pt, departures@, max_trips),
{
    let mut all: Vec<(u16, u16, u8)> = Vec::new();
    let mut d: usize = 0;
    while d < departures.len()
        invariant
            d <= departures@.len(),
            preparable(*spec, ps),
            forall|x: (u16, u16, u8)| #[trigger] all@.contains(x) <==> departures@.subrange(0, d as int).contains(x.0)
                && reference_front(*spec, ps, pt, x.0, max_trips).contains((x.1, x.2)),
        decreases departures@.len() - d,
    {
        let tau = departures[d];
        let front = front_points(spec, ps, pt, tau, max_trips);
        let ghost before = all@;
        let mut j: usize = 0;
        while j < front.len()
            invariant
                j <= front@.len(),
                forall|q: (u16, u8)| #[trigger] front@.contains(q) <==> reference_front(*spec, ps, pt, tau, max_trips).contains(q),
                forall|x: (u16, u16, u8)| #[trigger] all@.contains(x) <==> before.contains(x) || (x.0 == tau
                    && front@.subrange(0, j as int).contains((x.1, x.2))),
            decreases front@.len() - j,
        {
            let ghost prev = all@;
            let p = front[j];
            all.push((tau, p.0, p.1));
            proof {
                assert forall|x: (u16, u16, u8)| #[trigger] all@.contains(x) <==> before.contains(x) || (x.0 == tau
                    && front@.subrange(0, j + 1).contains((x.1, x.2))) by {
                    let s = front@;
                    if all@.contains(x) && !prev.contains(x) {
                        let i = choose|i: int| 0 <= i < all@.len() && all@[i] == x;
                        assert(i == prev.len());
                        assert(x == (tau, p.0, p.1));
                        assert(s.subrange(0, j + 1)[j as int] == (x.1, x.2));
                    }
                    if prev.contains(x) {
                        let i = choose|i: int| 0 <= i < prev.len() && prev[i] == x;
                        assert(all@[i] == x);
                    }
                    if x.0 == tau && s.subrange(0, j + 1).contains((x.1, x.2)) {
                        let i = choose|i: int| 0 <= i < j + 1 && #[trigger] s.subrange(0, j + 1)[i] == (x.1, x.2);
                        if i < j {
                            assert(s.subrange(0, j as int)[i] == (x.1, x.2));
                        } else {
                            assert(all@[all@.len() - 1] == x);
                        }
                    }
                }
            }
            j = j + 1;
        }
        proof {
            let s = front@;
            assert forall|x: (u16, u16, u8)| #[trigger] all@.contains(x) <==> departures@.subrange(0, d + 1).contains(x.0)
                && reference_front(*spec, ps, pt, x.0, max_trips).contains((x.1, x.2)) by {
                let pre = departures@.subrange(0, d as int);
                let post = departures@.subrange(0, d + 1);
                assert(s.subrange(0, s.len() as int) =~= s);
                if pre.contains(x.0) {
                    let i = choose|i: int| 0 <= i < pre.len() && pre[i] == x.0;
                    assert(post[i] == x.0);
                }
                if post.contains(x.0) && x.0 != tau {
                    let i = choose|i: int| 0 <= i < post.len() && post[i] == x.0;
                    assert(pre[i] == x.0);
                }
                assert(post[d as int] == tau);
            }
        }
        d = d + 1;
    }
    let kept = pareto_sweep(all);
    let out = set_of(&kept);
    proof {
        let cands = all@;
        assert(departures@.subrange(0, departures@.len() as int) =~= departures@);
        assert(kept@.subrange(0, kept@.len() as int) =~= kept@);
        assert forall|x: (u16, u16, u8)| #[trigger] out@.contains(x) <==> reference_range_front(*spec, ps, pt, departures@, max_trips).contains(x) by {
            if out@.contains(x) {
                let i = choose|i: int| 0 <= i < kept@.len() && kept@[i] == x;
                assert(cands.contains(x));
                if exists|y: (u16, u16, u8)| #[trigger] range_candidate(*spec, ps, pt, departures@, max_trips, y) && y != x && range_dominates(y, x) {
                    let y = choose|y: (u16, u16, u8)| #[trigger] range_candidate(*spec, ps, pt, departures@, max_trips, y) && y != x && range_dominates(y, x);
                    assert(cands.contains(y));
                    let j = choose|j: int| 0 <= j < cands.len() && cands[j] == y;
                    assert(covers(kept@, cands[j]));
                    let m = choose|m: int| 0 <= m < kept@.len() && (#[trigger] kept@[m]).pdom(&cands[j]);
                    assert(kept@[m].pdom(&kept@[i]));
                    assert(m != i);
                }
            }
            if reference_range_front(*spec, ps, pt, departures@, max_trips).contains(x) {
                assert(cands.contains(x));
                let j = choose|j: int| 0 <= j < cands.len() && cands[j] == x;
                assert(covers(kept@, cands[j]));
                let m = choose|m: int| 0 <= m < kept@.len() && (#[trigger] kept@[m]).pdom(&cands[j]);
                assert(cands.contains(kept@[m]));
                assert(range_candidate(*spec, ps, pt, departures@, max_trips, kept@[m]));
                assert(kept@[m] == x);
                assert(kept@.subrange(0, kept@.len() as int)[m] == x);
            }
        }
        assert(out@ =~= reference_range_front(*spec, ps, pt, departures@, max_trips));
    }
    out
}

} // verus!
