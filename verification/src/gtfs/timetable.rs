//! [`GtfsTimetable`]: the dense tables a GTFS feed is turned into, and the
//! [`Timetable`] they implement.

use std::collections::HashMap;

use vstd::prelude::*;

use crate::ids::{RouteIdx, StopIdx, TripIdx};
use crate::manual::{pair_key, pair_key_exec};
use crate::time::{Duration, SecondOfDay};
use crate::timetable::Timetable;

verus! {

broadcast use vstd::std_specs::hash::group_hash_axioms;

/// The walking time assumed between two stops when the feed gives none.
pub open spec fn default_transfer_secs() -> u32 {
    300
}

/// A timetable for one service day of a GTFS feed.
///
/// Each route is a sub-group of trips of one GTFS route that share a stop
/// sequence and do not overtake one another; its trips are ordered by
/// departure. Times are seconds since midnight; a missing arrival time is
/// `u32::MAX`.
pub struct GtfsTimetable {
    /// The GTFS `stop_id` of each stop.
    pub stop_ids: Vec<String>,
    /// The GTFS `route_id` of each route (several routes may share one).
    pub route_ids: Vec<String>,
    /// The GTFS `trip_id` of each trip.
    pub trip_ids: Vec<String>,
    /// Per trip, its position in the feed's trips.
    pub trip_source: Vec<u32>,
    /// Per stop, the routes serving it with the earliest position on each.
    pub routes_for_stop: Vec<Vec<(RouteIdx, u32)>>,
    /// Per route, its stop sequence.
    pub stops_for_route: Vec<Vec<StopIdx>>,
    /// Per route, its trips in departure order.
    pub trips_for_route: Vec<Vec<TripIdx>>,
    /// `arrival_times[route][position][k]`: arrival of the route's `k`-th trip.
    pub arrival_times: Vec<Vec<Vec<u32>>>,
    /// `departure_times[route][position][k]`: departure of the route's `k`-th trip.
    pub departure_times: Vec<Vec<Vec<u32>>>,
    /// Per trip, its route and its rank among the route's trips.
    pub route_for_trip: Vec<(RouteIdx, usize)>,
    /// Per stop, the stops one transfer away.
    pub footpaths_for_stops: Vec<Vec<StopIdx>>,
    /// `pair_key(from, to)` to the feed's minimum transfer time.
    pub transfer_times: HashMap<u64, u32>,
    /// Whether the footpaths are declared transitively closed.
    pub transfers_closed: bool,
    /// Per stop, its child platforms, each with no walk.
    pub station_children: Vec<Vec<(StopIdx, Duration)>>,
}

impl GtfsTimetable {
    /// The representation invariant: the tables agree in size, indices are
    /// in range, routes and trips point at each other, and every departure
    /// row is sorted.
    pub open spec fn inv(&self) -> bool {
        let ns = self.stop_ids@.len();
        let nr = self.stops_for_route@.len();
        let nt = self.trip_ids@.len();
        &&& ns < u32::MAX
        &&& nr < u32::MAX
        &&& nt < u32::MAX
        &&& self.routes_for_stop@.len() == ns
        &&& self.footpaths_for_stops@.len() == ns
        &&& self.station_children@.len() == ns
        &&& self.route_ids@.len() == nr
        &&& self.trips_for_route@.len() == nr
        &&& self.departure_times@.len() == nr
        &&& self.arrival_times@.len() == nr
        &&& self.route_for_trip@.len() == nt
        &&& self.trip_source@.len() == nt
        &&& forall|r: int| 0 <= r < nr ==> (#[trigger] self.stops_for_route@[r])@.len() < u32::MAX
        &&& forall|r: int, i: int|
            0 <= r < nr && 0 <= i < self.stops_for_route@[r]@.len() ==> (#[trigger] self.stops_for_route@[r]@[i]).0 < ns
        &&& forall|r: int| 0 <= r < nr ==> (#[trigger] self.departure_times@[r])@.len() == self.stops_for_route@[r]@.len()
        &&& forall|r: int| 0 <= r < nr ==> (#[trigger] self.arrival_times@[r])@.len() == self.stops_for_route@[r]@.len()
        &&& forall|r: int, p: int|
            0 <= r < nr && 0 <= p < self.stops_for_route@[r]@.len() ==> (#[trigger] self.departure_times@[r]@[p])@.len()
                == self.trips_for_route@[r]@.len()
        &&& forall|r: int, p: int|
            0 <= r < nr && 0 <= p < self.stops_for_route@[r]@.len() ==> (#[trigger] self.arrival_times@[r]@[p])@.len()
                == self.trips_for_route@[r]@.len()
        &&& forall|r: int, p: int, a: int, b: int|
            0 <= r < nr && 0 <= p < self.stops_for_route@[r]@.len() && 0 <= a <= b < self.trips_for_route@[r]@.len()
                ==> #[trigger] self.departure_times@[r]@[p]@[a] <= #[trigger] self.departure_times@[r]@[p]@[b]
        &&& forall|t: int|
            0 <= t < nt ==> {
                let (r, k) = #[trigger] self.route_for_trip@[t];
                &&& r.0 < nr
                &&& k < self.trips_for_route@[r.0 as int]@.len()
                &&& self.trips_for_route@[r.0 as int]@[k as int] == TripIdx(t as u32)
            }
        &&& forall|r: int, k: int|
            0 <= r < nr && 0 <= k < self.trips_for_route@[r]@.len() ==> (#[trigger] self.trips_for_route@[r]@[k]).0 < nt
                && self.route_for_trip@[self.trips_for_route@[r]@[k].0 as int] == (RouteIdx(r as u32), k as usize)
        &&& forall|s: int, i: int|
            0 <= s < ns && 0 <= i < self.routes_for_stop@[s]@.len() ==> {
                let (r, p) = #[trigger] self.routes_for_stop@[s]@[i];
                &&& r.0 < nr
                &&& p < self.stops_for_route@[r.0 as int]@.len()
                &&& self.stops_for_route@[r.0 as int]@[p as int].0 == s
            }
        &&& forall|s: int, i: int|
            0 <= s < ns && 0 <= i < self.footpaths_for_stops@[s]@.len() ==> (#[trigger] self.footpaths_for_stops@[s]@[i]).0
                < ns
    }

    /// The first index `k` of a sorted departure row with `row[k] >= at`
    /// (the row's length when there is none).
    pub open spec fn first_at_or_after(row: Seq<u32>, at: u32) -> int
        decreases row.len(),
    {
        if row.len() == 0 {
            0
        } else if row[0] >= at {
            0
        } else {
            1 + Self::first_at_or_after(row.drop_first(), at)
        }
    }

    /// The number of trips that run on the service day.
    pub fn n_trips(&self) -> (r: usize)
        ensures
            r == self.trip_ids@.len(),
    {
        self.trip_ids.len()
    }

    /// The GTFS `stop_id` of `stop`.
    pub fn stop_id(&self, stop: StopIdx) -> (r: &str)
        requires
            stop.0 < self.stop_ids@.len(),
        ensures
            r@ == self.stop_ids@[stop.0 as int]@,
    {
        self.stop_ids[stop.0 as usize].as_str()
    }

    /// The GTFS `route_id` of `route`.
    pub fn route_id(&self, route: RouteIdx) -> (r: &str)
        requires
            route.0 < self.route_ids@.len(),
        ensures
            r@ == self.route_ids@[route.0 as int]@,
    {
        self.route_ids[route.0 as usize].as_str()
    }

    /// The GTFS `trip_id` of `trip`.
    pub fn trip_id(&self, trip: TripIdx) -> (r: &str)
        requires
            trip.0 < self.trip_ids@.len(),
        ensures
            r@ == self.trip_ids@[trip.0 as int]@,
    {
        self.trip_ids[trip.0 as usize].as_str()
    }

    /// The stop whose GTFS `stop_id` is `id` (the first, should ids repeat).
    pub fn stop_idx(&self, id: &str) -> (r: Option<StopIdx>)
        requires
            self.inv(),
        ensures
            r matches Some(x) ==> first_named(self.stop_ids@, id@, x.0 as int),
            r is None ==> none_named(self.stop_ids@, id@),
    {
        match find_named(&self.stop_ids, id) {
            Some(i) => Some(StopIdx(i as u32)),
            None => None,
        }
    }

    /// The first route made from the GTFS route `id`.
    pub fn route_idx(&self, id: &str) -> (r: Option<RouteIdx>)
        requires
            self.inv(),
        ensures
            r matches Some(x) ==> first_named(self.route_ids@, id@, x.0 as int),
            r is None ==> none_named(self.route_ids@, id@),
    {
        match find_named(&self.route_ids, id) {
            Some(i) => Some(RouteIdx(i as u32)),
            None => None,
        }
    }

    /// The trip whose GTFS `trip_id` is `id`.
    pub fn trip_idx(&self, id: &str) -> (r: Option<TripIdx>)
        requires
            self.inv(),
        ensures
            r matches Some(x) ==> first_named(self.trip_ids@, id@, x.0 as int),
            r is None ==> none_named(self.trip_ids@, id@),
    {
        match find_named(&self.trip_ids, id) {
            Some(i) => Some(TripIdx(i as u32)),
            None => None,
        }
    }

    /// Every route made from the GTFS route `id`, in index order.
    pub fn routes_for_gtfs_id(&self, id: &str) -> (r: Vec<RouteIdx>)
        requires
            self.inv(),
        ensures
            forall|i: int| 0 <= i < r@.len() ==> (#[trigger] r@[i]).0 < self.route_ids@.len() && self.route_ids@[r@[i].0 as int]@
                == id@,
            forall|i: int, j: int| 0 <= i < j < r@.len() ==> (#[trigger] r@[i]).0 < (#[trigger] r@[j]).0,
            forall|q: int| 0 <= q < self.route_ids@.len() && (#[trigger] self.route_ids@[q])@ == id@ ==> r@.contains(
                RouteIdx(q as u32),
            ),
    {
        let key = id.to_owned();
        let mut out: Vec<RouteIdx> = Vec::new();
        let mut q: usize = 0;
        while q < self.route_ids.len()
            invariant
                self.inv(),
                key@ == id@,
                q <= self.route_ids@.len(),
                forall|i: int| 0 <= i < out@.len() ==> (#[trigger] out@[i]).0 < q && self.route_ids@[out@[i].0 as int]@ == id@,
                forall|i: int, j: int| 0 <= i < j < out@.len() ==> (#[trigger] out@[i]).0 < (#[trigger] out@[j]).0,
                forall|x: int| 0 <= x < q && (#[trigger] self.route_ids@[x])@ == id@ ==> out@.contains(RouteIdx(x as u32)),
            decreases self.route_ids@.len() - q,
        {
            if self.route_ids[q] == key {
                let ghost o0 = out@;
                out.push(RouteIdx(q as u32));
                proof {
                    assert(out@[o0.len() as int] == RouteIdx(q as u32));
                    assert forall|x: int| 0 <= x < q + 1 && (#[trigger] self.route_ids@[x])@ == id@ implies out@.contains(
                        RouteIdx(x as u32),
                    ) by {
                        if x < q {
                            let w = choose|w: int| 0 <= w < o0.len() && o0[w] == RouteIdx(x as u32);
                            assert(out@[w] == o0[w]);
                        }
                    }
                }
            }
            q = q + 1;
        }
        out
    }

    /// The child platforms of the parent station `parent_id`, each with no
    /// walk; empty when `parent_id` is no stop or has no children.
    pub fn station_stops(&self, parent_id: &str) -> (r: &[(StopIdx, Duration)])
        requires
            self.inv(),
        ensures
            forall|i: int| first_named(self.stop_ids@, parent_id@, i) ==> r@ == self.station_children@[i]@,
            none_named(self.stop_ids@, parent_id@) ==> r@.len() == 0,
    {
        match find_named(&self.stop_ids, parent_id) {
            Some(i) => {
                proof {
                    assert forall|j: int| first_named(self.stop_ids@, parent_id@, j) implies j == i by {
                        if j < i {
                            assert(self.stop_ids@[j]@ != parent_id@);
                        }
                        if j > i {
                            assert(self.stop_ids@[i as int]@ != parent_id@);
                        }
                    }
                }
                self.station_children[i].as_slice()
            },
            None => &[],
        }
    }

    /// Declares the footpath relation transitively closed, so queries relax
    /// walks in a single pass.
    pub fn assert_footpaths_closed(self) -> (r: Self)
        ensures
            r.transfers_closed,
            r.stop_ids == self.stop_ids,
            r.stops_for_route == self.stops_for_route,
            r.trips_for_route == self.trips_for_route,
            r.departure_times == self.departure_times,
            r.arrival_times == self.arrival_times,
            r.footpaths_for_stops == self.footpaths_for_stops,
            self.inv() ==> r.inv(),
    {
        GtfsTimetable { transfers_closed: true, ..self }
    }
}

/// The contents of footpath rows.
pub open spec fn rows_of(rows: Seq<Vec<StopIdx>>) -> Seq<Seq<StopIdx>> {
    rows.map_values(|r: Vec<StopIdx>| r@)
}

/// Walking edges applied in order to footpath rows and transfer times: an
/// edge between two different stops whose pair has no transfer time yet
/// appends its target to its source's row and records its walk; any other
/// edge changes nothing.
pub open spec fn walks_added(rows: Seq<Seq<StopIdx>>, times: Map<u64, u32>, edges: Seq<(StopIdx, StopIdx, u32)>) -> (
    Seq<Seq<StopIdx>>,
    Map<u64, u32>,
)
    decreases edges.len(),
{
    if edges.len() == 0 {
        (rows, times)
    } else {
        let (r0, t0) = walks_added(rows, times, edges.drop_last());
        let (from, to, walk) = edges.last();
        if from != to && !t0.contains_key(pair_key(from.0, to.0)) {
            (r0.update(from.0 as int, r0[from.0 as int].push(to)), t0.insert(pair_key(from.0, to.0), walk))
        } else {
            (r0, t0)
        }
    }
}

/// Adding walking footpaths keeps every transfer time already recorded:
/// a pair with a time before keeps exactly that time after.
pub proof fn lemma_walks_keep_recorded_times(
    rows: Seq<Seq<StopIdx>>,
    times: Map<u64, u32>,
    edges: Seq<(StopIdx, StopIdx, u32)>,
    key: u64,
)
    requires
        times.contains_key(key),
    ensures
        walks_added(rows, times, edges).1.contains_key(key),
        walks_added(rows, times, edges).1[key] == times[key],
    decreases edges.len(),
{
    if edges.len() > 0 {
        lemma_walks_keep_recorded_times(rows, times, edges.drop_last(), key);
    }
}

/// After adding walking footpaths, every edge between two different stops
/// has its pair timed.
pub proof fn lemma_walks_time_every_pair(
    rows: Seq<Seq<StopIdx>>,
    times: Map<u64, u32>,
    edges: Seq<(StopIdx, StopIdx, u32)>,
    i: int,
)
    requires
        0 <= i < edges.len(),
        edges[i].0 != edges[i].1,
    ensures
        walks_added(rows, times, edges).1.contains_key(pair_key(edges[i].0.0, edges[i].1.0)),
    decreases edges.len(),
{
    let prefix = edges.drop_last();
    if i < edges.len() - 1 {
        assert(prefix[i] == edges[i]);
        lemma_walks_time_every_pair(rows, times, prefix, i);
    }
}

/// `a` and `b` agree on everything but the footpaths, transfer times and
/// closure flag.
pub open spec fn same_but_walks(a: GtfsTimetable, b: GtfsTimetable) -> bool {
    &&& a.stop_ids == b.stop_ids
    &&& a.route_ids == b.route_ids
    &&& a.trip_ids == b.trip_ids
    &&& a.trip_source == b.trip_source
    &&& a.routes_for_stop == b.routes_for_stop
    &&& a.stops_for_route == b.stops_for_route
    &&& a.trips_for_route == b.trips_for_route
    &&& a.arrival_times == b.arrival_times
    &&& a.departure_times == b.departure_times
    &&& a.route_for_trip == b.route_for_trip
    &&& a.station_children == b.station_children
}

impl GtfsTimetable {
    /// Adds walking footpaths: for each `(from, to, walk)` in order, between
    /// two different stops whose pair has no transfer time yet, `to` joins
    /// the footpaths of `from` with `walk` as the transfer time; edges
    /// between a stop and itself, and pairs the feed (or an earlier edge)
    /// already timed, are skipped. Edges added this way need not be
    /// transitively closed, so the closure flag is cleared.
    pub fn add_walking_footpaths(self, edges: &[(StopIdx, StopIdx, u32)]) -> (r: Self)
        requires
            self.inv(),
            forall|i: int| 0 <= i < edges@.len() ==> (#[trigger] edges@[i]).0.0 < self.stop_ids@.len() && edges@[i].1.0
                < self.stop_ids@.len(),
        ensures
            r.inv(),
            !r.transfers_closed,
            same_but_walks(r, self),
            (rows_of(r.footpaths_for_stops@), r.transfer_times@) == walks_added(
                rows_of(self.footpaths_for_stops@),
                self.transfer_times@,
                edges@,
            ),
    {
        let ghost orig = self;
        let mut tt = self;
        tt.transfers_closed = false;
        let mut i: usize = 0;
        while i < edges.len()
            invariant
                i <= edges@.len(),
                orig.inv(),
                tt.inv(),
                !tt.transfers_closed,
                same_but_walks(tt, orig),
                forall|j: int| 0 <= j < edges@.len() ==> (#[trigger] edges@[j]).0.0 < orig.stop_ids@.len() && edges@[j].1.0
                    < orig.stop_ids@.len(),
                (rows_of(tt.footpaths_for_stops@), tt.transfer_times@) == walks_added(
                    rows_of(orig.footpaths_for_stops@),
                    orig.transfer_times@,
                    edges@.subrange(0, i as int),
                ),
            decreases edges@.len() - i,
        {
            let (from, to, walk) = edges[i];
            let ghost rows0 = rows_of(tt.footpaths_for_stops@);
            let ghost fp0 = tt.footpaths_for_stops@;
            if from.0 != to.0 {
                let k = pair_key_exec(from, to);
                if !tt.transfer_times.contains_key(&k) {
                    tt.footpaths_for_stops[from.0 as usize].push(to);
                    tt.transfer_times.insert(k, walk);
                    proof {
                        assert(rows_of(tt.footpaths_for_stops@) =~= rows0.update(from.0 as int, rows0[from.0 as int].push(to)));
                        let ns = tt.stop_ids@.len();
                        assert forall|s: int, j: int|
                            0 <= s < ns && 0 <= j < tt.footpaths_for_stops@[s]@.len() implies (
                            #[trigger] tt.footpaths_for_stops@[s]@[j]).0 < ns by {
                            if s != from.0 as int {
                                assert(tt.footpaths_for_stops@[s] == fp0[s]);
                            } else if j < fp0[s]@.len() {
                                assert(tt.footpaths_for_stops@[s]@[j] == fp0[s]@[j]);
                            }
                        }
                    }
                }
            }
            proof {
                assert(edges@.subrange(0, i + 1).drop_last() =~= edges@.subrange(0, i as int));
                assert(edges@.subrange(0, i + 1).last() == edges@[i as int]);
            }
            i = i + 1;
        }
        proof {
            assert(edges@.subrange(0, edges@.len() as int) =~= edges@);
        }
        tt
    }
}

/// `names[i]` is the first entry holding `id`.
pub open spec fn first_named(names: Seq<String>, id: Seq<char>, i: int) -> bool {
    &&& 0 <= i < names.len()
    &&& names[i]@ == id
    &&& forall|k: int| 0 <= k < i ==> (#[trigger] names[k])@ != id
}

/// No entry of `names` holds `id`.
pub open spec fn none_named(names: Seq<String>, id: Seq<char>) -> bool {
    forall|k: int| 0 <= k < names.len() ==> (#[trigger] names[k])@ != id
}

/// The first index of `names` holding `id`, by a scan.
fn find_named(names: &Vec<String>, id: &str) -> (r: Option<usize>)
    requires
        names@.len() < u32::MAX,
    ensures
        r matches Some(i) ==> first_named(names@, id@, i as int),
        r is None ==> none_named(names@, id@),
{
    let key = id.to_owned();
    let mut i: usize = 0;
    while i < names.len()
        invariant
            key@ == id@,
            i <= names@.len(),
            forall|k: int| 0 <= k < i ==> (#[trigger] names@[k])@ != id@,
        decreases names@.len() - i,
    {
        if names[i] == key {
            return Some(i);
        }
        i = i + 1;
    }
    None
}

impl Timetable for GtfsTimetable {
    open spec fn stop_count(&self) -> nat {
        self.stop_ids@.len()
    }

    open spec fn route_count(&self) -> nat {
        self.stops_for_route@.len()
    }

    open spec fn trip_count(&self) -> nat {
        self.trip_ids@.len()
    }

    open spec fn route_stops(&self, route: nat) -> Seq<StopIdx> {
        self.stops_for_route@[route as int]@
    }

    open spec fn routes_at(&self, stop: nat) -> Seq<(RouteIdx, u32)> {
        self.routes_for_stop@[stop as int]@
    }

    open spec fn footpaths_at(&self, stop: nat) -> Seq<StopIdx> {
        self.footpaths_for_stops@[stop as int]@
    }

    open spec fn trip_route(&self, trip: nat) -> nat {
        self.route_for_trip@[trip as int].0.0 as nat
    }

    open spec fn dep_at(&self, trip: nat, pos: nat) -> u32 {
        let (r, k) = self.route_for_trip@[trip as int];
        self.departure_times@[r.0 as int]@[pos as int]@[k as int]
    }

    open spec fn arr_at(&self, trip: nat, pos: nat) -> u32 {
        let (r, k) = self.route_for_trip@[trip as int];
        self.arrival_times@[r.0 as int]@[pos as int]@[k as int]
    }

    open spec fn earliest_trip(&self, route: nat, at: u32, pos: nat) -> Option<nat> {
        let row = self.departure_times@[route as int]@[pos as int]@;
        let k = Self::first_at_or_after(row, at);
        if k < row.len() {
            Some(self.trips_for_route@[route as int]@[k].0 as nat)
        } else {
            None
        }
    }

    open spec fn transfer_secs(&self, from: nat, to: nat) -> u32 {
        if from <= u32::MAX && to <= u32::MAX && self.transfer_times@.contains_key(pair_key(from as u32, to as u32)) {
            self.transfer_times@[pair_key(from as u32, to as u32)]
        } else {
            default_transfer_secs()
        }
    }

    open spec fn well_formed(&self) -> bool {
        self.inv()
    }

    /// Every trip picks up everywhere.
    open spec fn may_board(&self, trip: nat, pos: nat) -> bool {
        true
    }

    /// Every trip drops off everywhere.
    open spec fn may_alight(&self, trip: nat, pos: nat) -> bool {
        true
    }

    /// Every trip is accessible.
    open spec fn trip_accessible(&self, trip: nat) -> bool {
        true
    }

    /// Every stop is accessible.
    open spec fn stop_accessible(&self, stop: nat) -> bool {
        true
    }

    /// Footpaths are declared closed by the flag.
    open spec fn declares_closed(&self) -> bool {
        self.transfers_closed
    }

    proof fn lemma_shape(&self) {
        assert forall|t: nat| #![trigger self.trip_route(t)] t < self.trip_count() implies self.trip_route(t)
            < self.route_count() by {
            let (r, k) = self.route_for_trip@[t as int];
        }
        assert forall|s: nat, i: int| #![trigger self.routes_at(s)[i]]
            s < self.stop_count() && 0 <= i < self.routes_at(s).len() implies {
                let (r, p) = self.routes_at(s)[i];
                &&& r.0 < self.route_count()
                &&& p < self.route_stops(r.0 as nat).len()
                &&& self.route_stops(r.0 as nat)[p as int].0 == s
            } by {
            let (r, p) = self.routes_for_stop@[s as int]@[i];
        }
    }

    fn n_stops(&self) -> (r: usize) {
        self.stop_ids.len()
    }

    fn n_routes(&self) -> (r: usize) {
        self.stops_for_route.len()
    }

    fn get_routes_serving_stop(&self, stop: StopIdx) -> (r: &[(RouteIdx, u32)]) {
        self.routes_for_stop[stop.0 as usize].as_slice()
    }

    fn get_stops_after(&self, route: RouteIdx, pos: u32) -> (r: &[StopIdx]) {
        let stops = self.stops_for_route[route.0 as usize].as_slice();
        vstd::slice::slice_subrange(stops, pos as usize, stops.len())
    }

    fn stop_at(&self, route: RouteIdx, pos: u32) -> (r: StopIdx) {
        self.stops_for_route[route.0 as usize][pos as usize]
    }

    fn get_earliest_trip(&self, route: RouteIdx, at: SecondOfDay, pos: u32) -> (r: Option<TripIdx>) {
        let ghost r_ = route.0 as int;
        let row = &self.departure_times[route.0 as usize][pos as usize];
        let trips = &self.trips_for_route[route.0 as usize];
        let k = partition_point(row, at.0);
        proof {
            assert forall|u: nat|
                u < self.trip_count() && self.trip_route(u) == route.0 implies (self.route_for_trip@[u as int].1 < row@.len()
                    && #[trigger] self.dep_at(u, pos as nat) == row@[self.route_for_trip@[u as int].1 as int]) by {
                let (rr, kk) = self.route_for_trip@[u as int];
            }
        }
        if k < trips.len() {
            let t = trips[k];
            proof {
                assert(self.route_for_trip@[t.0 as int] == (RouteIdx(route.0), k));
                assert forall|u: nat|
                    u < self.trip_count() && self.trip_route(u) == route.0 && #[trigger] self.dep_at(u, pos as nat) >= at.0 implies self.dep_at(
                    t.0 as nat,
                    pos as nat,
                ) <= self.dep_at(u, pos as nat) by {
                    let kk = self.route_for_trip@[u as int].1;
                    assert(self.dep_at(u, pos as nat) == row@[kk as int]);
                    if (kk as int) < k {
                        assert(row@[kk as int] < at.0);
                    }
                }
            }
            Some(t)
        } else {
            proof {
                assert forall|u: nat| u < self.trip_count() && self.trip_route(u) == route.0 implies #[trigger] self.dep_at(
                    u,
                    pos as nat,
                ) < at.0 by {
                    let kk = self.route_for_trip@[u as int].1;
                    assert(self.dep_at(u, pos as nat) == row@[kk as int]);
                }
            }
            None
        }
    }

    fn get_arrival_time(&self, trip: TripIdx, pos: u32) -> (r: SecondOfDay) {
        let (route, k) = self.route_for_trip[trip.0 as usize];
        SecondOfDay(self.arrival_times[route.0 as usize][pos as usize][k])
    }

    fn get_departure_time(&self, trip: TripIdx, pos: u32) -> (r: SecondOfDay) {
        let (route, k) = self.route_for_trip[trip.0 as usize];
        SecondOfDay(self.departure_times[route.0 as usize][pos as usize][k])
    }

    fn get_footpaths_from(&self, stop: StopIdx) -> (r: &[StopIdx]) {
        self.footpaths_for_stops[stop.0 as usize].as_slice()
    }

    fn get_transfer_time(&self, from: StopIdx, to: StopIdx) -> (r: Duration) {
        let k = pair_key_exec(from, to);
        match self.transfer_times.get(&k) {
            Some(d) => Duration(*d),
            None => Duration(300),
        }
    }

    fn footpaths_are_transitively_closed(&self) -> (r: bool) {
        self.transfers_closed
    }

    fn pickup_allowed(&self, trip: TripIdx, pos: u32) -> (r: bool) {
        true
    }

    fn drop_off_allowed(&self, trip: TripIdx, pos: u32) -> (r: bool) {
        true
    }

    fn trip_wheelchair_accessible(&self, trip: TripIdx) -> (r: bool) {
        assert(self.trip_accessible(trip.0 as nat));
        true
    }

    fn stop_wheelchair_accessible(&self, stop: StopIdx) -> (r: bool) {
        true
    }
}

/// The first index of the sorted `row` holding a value `>= at`, by
/// binary search.
fn partition_point(row: &Vec<u32>, at: u32) -> (k: usize)
    requires
        forall|a: int, b: int| 0 <= a <= b < row@.len() ==> #[trigger] row@[a] <= #[trigger] row@[b],
    ensures
        k <= row@.len(),
        k == GtfsTimetable::first_at_or_after(row@, at),
        forall|j: int| 0 <= j < k ==> #[trigger] row@[j] < at,
        forall|j: int| k <= j < row@.len() ==> #[trigger] row@[j] >= at,
{
    let mut lo: usize = 0;
    let mut hi: usize = row.len();
    while lo < hi
        invariant
            lo <= hi <= row@.len(),
            forall|a: int, b: int| 0 <= a <= b < row@.len() ==> #[trigger] row@[a] <= #[trigger] row@[b],
            forall|j: int| 0 <= j < lo ==> #[trigger] row@[j] < at,
            forall|j: int| hi <= j < row@.len() ==> #[trigger] row@[j] >= at,
        decreases hi - lo,
    {
        let mid = lo + (hi - lo) / 2;
        if row[mid] < at {
            lo = mid + 1;
        } else {
            hi = mid;
        }
    }
    proof {
        lemma_first_at_or_after(row@, at, lo as int);
    }
    lo
}

proof fn lemma_first_at_or_after(row: Seq<u32>, at: u32, k: int)
    requires
        0 <= k <= row.len(),
        forall|j: int| 0 <= j < k ==> #[trigger] row[j] < at,
        forall|j: int| k <= j < row.len() ==> #[trigger] row[j] >= at,
    ensures
        GtfsTimetable::first_at_or_after(row, at) == k,
    decreases row.len(),
{
    if row.len() > 0 {
        if k > 0 {
            assert(row[0] < at);
            let rest = row.drop_first();
            assert forall|j: int| 0 <= j < k - 1 implies #[trigger] rest[j] < at by {
                assert(rest[j] == row[j + 1]);
            }
            assert forall|j: int| k - 1 <= j < rest.len() implies #[trigger] rest[j] >= at by {
                assert(rest[j] == row[j + 1]);
            }
            lemma_first_at_or_after(rest, at, k - 1);
        } else {
            assert(row[0] >= at);
        }
    }
}

} // verus!
