//! [`Timetable`]: the adapter trait that plugs a transit network into the
//! algorithm, together with the well-formedness the algorithm relies on.

use vstd::prelude::*;

use crate::algorithm::per_call::{all_fit, all_sound, run_per_call_query};
use crate::cache::RaptorCache;
use crate::endpoints::Endpoints;
use crate::journey::Journey;
use crate::pareto::is_swept_front;
use crate::ids::{RouteIdx, StopIdx, TripIdx};
use crate::label::{ArrivalTime, Label};
use crate::query::{NeedsDeparture, Query};
use crate::time::{Duration, SecondOfDay, Transfers};

verus! {

/// A route-based transit network.
///
/// Identifiers are dense indices. The spec functions describe the network
/// as mathematical sequences; every exec accessor returns what they say.
/// Trips of one route share the route's stop sequence; the algorithm
/// relies on trips of a route not overtaking one another, which is a
/// property of the data that adapters establish when they build routes.
pub trait Timetable {
    /// Number of stops; stop indices are `0..stop_count()`.
    spec fn stop_count(&self) -> nat;

    /// Number of routes; route indices are `0..route_count()`.
    spec fn route_count(&self) -> nat;

    /// Number of trip slots; trip indices are `0..trip_count()`.
    spec fn trip_count(&self) -> nat;

    /// The stop sequence of `route`.
    spec fn route_stops(&self, route: nat) -> Seq<StopIdx>;

    /// The routes serving `stop`, each with the earliest position of the
    /// stop on it.
    spec fn routes_at(&self, stop: nat) -> Seq<(RouteIdx, u32)>;

    /// The direct walking edges out of `stop`.
    spec fn footpaths_at(&self, stop: nat) -> Seq<StopIdx>;

    /// The route `trip` runs on.
    spec fn trip_route(&self, trip: nat) -> nat;

    /// Departure time of `trip` at position `pos` of its route.
    spec fn dep_at(&self, trip: nat, pos: nat) -> u32;

    /// Arrival time of `trip` at position `pos` of its route.
    spec fn arr_at(&self, trip: nat, pos: nat) -> u32;

    /// The trip [`Timetable::get_earliest_trip`] picks for `(route, at,
    /// pos)`: one of the route's trips with the earliest departure at `pos`
    /// that is not before `at`, or `None` when there is none.
    spec fn earliest_trip(&self, route: nat, at: u32, pos: nat) -> Option<nat>;

    /// Walking time in seconds from `from` to `to`, as
    /// [`Timetable::get_transfer_time`] reports it.
    spec fn transfer_secs(&self, from: nat, to: nat) -> u32;

    /// The adapter's own well-formedness predicate.
    spec fn well_formed(&self) -> bool;

    /// Passengers may board trip `trip` at position `pos`.
    spec fn may_board(&self, trip: nat, pos: nat) -> bool;

    /// Passengers may alight from trip `trip` at position `pos`.
    spec fn may_alight(&self, trip: nat, pos: nat) -> bool;

    /// Trip `trip` is wheelchair-accessible.
    spec fn trip_accessible(&self, trip: nat) -> bool;

    /// Stop `stop` is wheelchair-accessible.
    spec fn stop_accessible(&self, stop: nat) -> bool;

    /// The footpath relation is declared transitively closed.
    spec fn declares_closed(&self) -> bool;

    /// Well-formedness gives the shape facts the algorithm relies on:
    /// counts fit in `u32`, every stop, route and position that the
    /// accessors hand out is in range, and every trip runs on an existing
    /// route.
    proof fn lemma_shape(&self)
        requires
            self.well_formed(),
        ensures
            self.stop_count() <= u32::MAX,
            self.route_count() <= u32::MAX,
            self.trip_count() <= u32::MAX,
            forall|r: nat| #![trigger self.route_stops(r)]
                r < self.route_count() ==> self.route_stops(r).len() <= u32::MAX,
            forall|r: nat, i: int| #![trigger self.route_stops(r)[i]]
                r < self.route_count() && 0 <= i < self.route_stops(r).len()
                    ==> self.route_stops(r)[i].0 < self.stop_count(),
            forall|s: nat, i: int| #![trigger self.routes_at(s)[i]]
                s < self.stop_count() && 0 <= i < self.routes_at(s).len() ==> {
                    let (r, p) = self.routes_at(s)[i];
                    &&& r.0 < self.route_count()
                    &&& p < self.route_stops(r.0 as nat).len()
                    &&& self.route_stops(r.0 as nat)[p as int].0 == s
                },
            forall|s: nat, i: int| #![trigger self.footpaths_at(s)[i]]
                s < self.stop_count() && 0 <= i < self.footpaths_at(s).len()
                    ==> self.footpaths_at(s)[i].0 < self.stop_count(),
            forall|t: nat| #![trigger self.trip_route(t)]
                t < self.trip_count() ==> self.trip_route(t) < self.route_count(),
    ;

    /// Number of stops.
    fn n_stops(&self) -> (r: usize)
        ensures
            r == self.stop_count(),
    ;

    /// Number of routes.
    fn n_routes(&self) -> (r: usize)
        ensures
            r == self.route_count(),
    ;

    /// The routes serving `stop`, each paired with the earliest position of
    /// `stop` on that route.
    fn get_routes_serving_stop(&self, stop: StopIdx) -> (r: &[(RouteIdx, u32)])
        requires
            self.well_formed(),
            stop.0 < self.stop_count(),
        ensures
            r@ == self.routes_at(stop.0 as nat),
    ;

    /// The route's stop sequence from position `pos` onwards.
    fn get_stops_after(&self, route: RouteIdx, pos: u32) -> (r: &[StopIdx])
        requires
            self.well_formed(),
            route.0 < self.route_count(),
            pos <= self.route_stops(route.0 as nat).len(),
        ensures
            r@ == self.route_stops(route.0 as nat).subrange(
                pos as int,
                self.route_stops(route.0 as nat).len() as int,
            ),
    ;

    /// The stop at position `pos` of `route`.
    fn stop_at(&self, route: RouteIdx, pos: u32) -> (r: StopIdx)
        requires
            self.well_formed(),
            route.0 < self.route_count(),
            pos < self.route_stops(route.0 as nat).len(),
        ensures
            r == self.route_stops(route.0 as nat)[pos as int],
    ;

    /// The earliest trip of `route` that departs position `pos` at or after
    /// `at`, or `None` when there is none.
    fn get_earliest_trip(&self, route: RouteIdx, at: SecondOfDay, pos: u32) -> (r: Option<TripIdx>)
        requires
            self.well_formed(),
            route.0 < self.route_count(),
            pos < self.route_stops(route.0 as nat).len(),
        ensures
            match r {
                Some(t) => self.earliest_trip(route.0 as nat, at.0, pos as nat) == Some(t.0 as nat),
                None => self.earliest_trip(route.0 as nat, at.0, pos as nat) is None,
            },
            r matches Some(t) ==> t.0 < self.trip_count() && self.trip_route(t.0 as nat)
                == route.0 && self.dep_at(t.0 as nat, pos as nat) >= at.0,
            r matches Some(t) ==> forall|u: nat|
                u < self.trip_count() && self.trip_route(u) == route.0 && #[trigger] self.dep_at(
                    u,
                    pos as nat,
                ) >= at.0 ==> self.dep_at(t.0 as nat, pos as nat) <= self.dep_at(u, pos as nat),
            r is None ==> forall|u: nat|
                u < self.trip_count() && self.trip_route(u) == route.0 ==> #[trigger] self.dep_at(
                    u,
                    pos as nat,
                ) < at.0,
    ;

    /// Arrival time of `trip` at position `pos` of its route.
    fn get_arrival_time(&self, trip: TripIdx, pos: u32) -> (r: SecondOfDay)
        requires
            self.well_formed(),
            trip.0 < self.trip_count(),
            pos < self.route_stops(self.trip_route(trip.0 as nat)).len(),
        ensures
            r.0 == self.arr_at(trip.0 as nat, pos as nat),
    ;

    /// Departure time of `trip` at position `pos` of its route.
    fn get_departure_time(&self, trip: TripIdx, pos: u32) -> (r: SecondOfDay)
        requires
            self.well_formed(),
            trip.0 < self.trip_count(),
            pos < self.route_stops(self.trip_route(trip.0 as nat)).len(),
        ensures
            r.0 == self.dep_at(trip.0 as nat, pos as nat),
    ;

    /// Whether a passenger may board `trip` at `pos`.
    fn pickup_allowed(&self, trip: TripIdx, pos: u32) -> (r: bool)
        ensures
            r == self.may_board(trip.0 as nat, pos as nat),
    ;

    /// Whether a passenger may alight from `trip` at `pos`.
    fn drop_off_allowed(&self, trip: TripIdx, pos: u32) -> (r: bool)
        ensures
            r == self.may_alight(trip.0 as nat, pos as nat),
    ;

    /// Whether `trip` is wheelchair-accessible.
    fn trip_wheelchair_accessible(&self, trip: TripIdx) -> (r: bool)
        ensures
            r == self.trip_accessible(trip.0 as nat),
    ;

    /// Whether `stop` is wheelchair-accessible.
    fn stop_wheelchair_accessible(&self, stop: StopIdx) -> (r: bool)
        ensures
            r == self.stop_accessible(stop.0 as nat),
    ;

    /// Like [`Timetable::get_earliest_trip`], but when
    /// `require_wheelchair_accessible` holds, skips trips that
    /// [`Timetable::trip_wheelchair_accessible`] rejects by probing again
    /// one second after each rejected departure.
    fn earliest_accessible_trip(
        &self,
        route: RouteIdx,
        at: SecondOfDay,
        pos: u32,
        require_wheelchair_accessible: bool,
    ) -> (r: Option<TripIdx>)
        requires
            self.well_formed(),
            route.0 < self.route_count(),
            pos < self.route_stops(route.0 as nat).len(),
        ensures
            r matches Some(t) ==> t.0 < self.trip_count() && self.trip_route(t.0 as nat)
                == route.0 && self.dep_at(t.0 as nat, pos as nat) >= at.0,
            !require_wheelchair_accessible ==> (r matches Some(t) ==> forall|u: nat|
                u < self.trip_count() && self.trip_route(u) == route.0 && #[trigger] self.dep_at(
                    u,
                    pos as nat,
                ) >= at.0 ==> self.dep_at(t.0 as nat, pos as nat) <= self.dep_at(u, pos as nat)),
            !require_wheelchair_accessible ==> match r {
                Some(t) => self.earliest_trip(route.0 as nat, at.0, pos as nat) == Some(t.0 as nat),
                None => self.earliest_trip(route.0 as nat, at.0, pos as nat) is None,
            },
            !require_wheelchair_accessible ==> (r is None ==> forall|u: nat|
                u < self.trip_count() && self.trip_route(u) == route.0 ==> #[trigger] self.dep_at(
                    u,
                    pos as nat,
                ) < at.0),
    {
        if !require_wheelchair_accessible {
            return self.get_earliest_trip(route, at, pos);
        }
        let mut probe = at;
        loop
            invariant
                self.well_formed(),
                route.0 < self.route_count(),
                pos < self.route_stops(route.0 as nat).len(),
                probe.0 >= at.0,
                require_wheelchair_accessible,
            decreases u32::MAX - probe.0,
        {
            let trip = match self.get_earliest_trip(route, probe, pos) {
                Some(t) => t,
                None => return None,
            };
            if self.trip_wheelchair_accessible(trip) {
                return Some(trip);
            }
            let dep = self.get_departure_time(trip, pos);
            if dep.0 == u32::MAX {
                // No later departure exists to probe for.
                return None;
            }
            probe = SecondOfDay(dep.0 + 1);
        }
    }

    /// The direct walking edges out of `stop`.
    fn get_footpaths_from(&self, stop: StopIdx) -> (r: &[StopIdx])
        requires
            self.well_formed(),
            stop.0 < self.stop_count(),
        ensures
            r@ == self.footpaths_at(stop.0 as nat),
    ;

    /// Walking time from `from` to `to`.
    fn get_transfer_time(&self, from: StopIdx, to: StopIdx) -> (r: Duration)
        ensures
            r.0 == self.transfer_secs(from.0 as nat, to.0 as nat),
    ;

    /// Whether the footpath relation is declared transitively closed, which
    /// lets the algorithm relax walks in one pass.
    fn footpaths_are_transitively_closed(&self) -> (r: bool)
        ensures
            r == self.declares_closed(),
    ;

    /// A query on this timetable with [`ArrivalTime`] labels: no origins
    /// or targets yet, at most ten trips, no wheelchair restriction.
    fn query(&self) -> (r: Query<'_, Self, ArrivalTime, NeedsDeparture>)
        where
            Self: Sized,
        ensures
            r.tt == self,
            r.origins.stops@.len() == 0,
            r.targets.stops@.len() == 0,
            r.max_transfers.0 == 10,
            !r.require_wheelchair_accessible,
    {
        Query {
            tt: self,
            origins: Endpoints::new(),
            targets: Endpoints::new(),
            max_transfers: Transfers(10),
            require_wheelchair_accessible: false,
            ctx: ArrivalTime::default_ctx(),
            mode: NeedsDeparture,
        }
    }

    /// Like [`Timetable::query`] with labels of type `L`, whose context
    /// starts as [`Label::default_ctx`].
    fn query_with_label<L: Label>(&self) -> (r: Query<'_, Self, L, NeedsDeparture>)
        where
            Self: Sized,
        ensures
            r.tt == self,
            r.origins.stops@.len() == 0,
            r.targets.stops@.len() == 0,
            r.max_transfers.0 == 10,
            !r.require_wheelchair_accessible,
    {
        Query {
            tt: self,
            origins: Endpoints::new(),
            targets: Endpoints::new(),
            max_transfers: Transfers(10),
            require_wheelchair_accessible: false,
            ctx: L::default_ctx(),
            mode: NeedsDeparture,
        }
    }
}


/// A timetable that answers every question as `T` does but declares its
/// footpath relation transitively closed, so queries on it relax walks in
/// a single pass. For networks whose footpaths are known to be closed.
pub struct ClosedFootpaths<T>(pub T);

impl<T: Timetable> Timetable for ClosedFootpaths<T> {
    open spec fn stop_count(&self) -> nat {
        self.0.stop_count()
    }

    open spec fn route_count(&self) -> nat {
        self.0.route_count()
    }

    open spec fn trip_count(&self) -> nat {
        self.0.trip_count()
    }

    open spec fn route_stops(&self, route: nat) -> Seq<StopIdx> {
        self.0.route_stops(route)
    }

    open spec fn routes_at(&self, stop: nat) -> Seq<(RouteIdx, u32)> {
        self.0.routes_at(stop)
    }

    open spec fn footpaths_at(&self, stop: nat) -> Seq<StopIdx> {
        self.0.footpaths_at(stop)
    }

    open spec fn trip_route(&self, trip: nat) -> nat {
        self.0.trip_route(trip)
    }

    open spec fn dep_at(&self, trip: nat, pos: nat) -> u32 {
        self.0.dep_at(trip, pos)
    }

    open spec fn arr_at(&self, trip: nat, pos: nat) -> u32 {
        self.0.arr_at(trip, pos)
    }

    open spec fn earliest_trip(&self, route: nat, at: u32, pos: nat) -> Option<nat> {
        self.0.earliest_trip(route, at, pos)
    }

    open spec fn transfer_secs(&self, from: nat, to: nat) -> u32 {
        self.0.transfer_secs(from, to)
    }

    open spec fn well_formed(&self) -> bool {
        self.0.well_formed()
    }

    open spec fn may_board(&self, trip: nat, pos: nat) -> bool {
        self.0.may_board(trip, pos)
    }

    open spec fn may_alight(&self, trip: nat, pos: nat) -> bool {
        self.0.may_alight(trip, pos)
    }

    open spec fn trip_accessible(&self, trip: nat) -> bool {
        self.0.trip_accessible(trip)
    }

    open spec fn stop_accessible(&self, stop: nat) -> bool {
        self.0.stop_accessible(stop)
    }

    /// The wrapper declares its footpaths closed.
    open spec fn declares_closed(&self) -> bool {
        true
    }

    proof fn lemma_shape(&self) {
        self.0.lemma_shape();
    }

    fn n_stops(&self) -> (r: usize) {
        self.0.n_stops()
    }

    fn n_routes(&self) -> (r: usize) {
        self.0.n_routes()
    }

    fn get_routes_serving_stop(&self, stop: StopIdx) -> (r: &[(RouteIdx, u32)]) {
        self.0.get_routes_serving_stop(stop)
    }

    fn get_stops_after(&self, route: RouteIdx, pos: u32) -> (r: &[StopIdx]) {
        self.0.get_stops_after(route, pos)
    }

    fn stop_at(&self, route: RouteIdx, pos: u32) -> (r: StopIdx) {
        self.0.stop_at(route, pos)
    }

    fn get_earliest_trip(&self, route: RouteIdx, at: SecondOfDay, pos: u32) -> (r: Option<TripIdx>) {
        self.0.get_earliest_trip(route, at, pos)
    }

    fn get_arrival_time(&self, trip: TripIdx, pos: u32) -> (r: SecondOfDay) {
        self.0.get_arrival_time(trip, pos)
    }

    fn get_departure_time(&self, trip: TripIdx, pos: u32) -> (r: SecondOfDay) {
        self.0.get_departure_time(trip, pos)
    }

    fn pickup_allowed(&self, trip: TripIdx, pos: u32) -> (r: bool) {
        self.0.pickup_allowed(trip, pos)
    }

    fn drop_off_allowed(&self, trip: TripIdx, pos: u32) -> (r: bool) {
        self.0.drop_off_allowed(trip, pos)
    }

    fn trip_wheelchair_accessible(&self, trip: TripIdx) -> (r: bool) {
        let r = self.0.trip_wheelchair_accessible(trip);
        assert(self.trip_accessible(trip.0 as nat) == self.0.trip_accessible(trip.0 as nat));
        r
    }

    fn stop_wheelchair_accessible(&self, stop: StopIdx) -> (r: bool) {
        self.0.stop_wheelchair_accessible(stop)
    }

    fn get_footpaths_from(&self, stop: StopIdx) -> (r: &[StopIdx]) {
        self.0.get_footpaths_from(stop)
    }

    fn get_transfer_time(&self, from: StopIdx, to: StopIdx) -> (r: Duration) {
        self.0.get_transfer_time(from, to)
    }

    fn footpaths_are_transitively_closed(&self) -> (r: bool) {
        true
    }
}


/// The one-call arrival-time query on any timetable.
pub trait Raptor: Timetable + Sized {
    /// An arrival-time query from `origins` to `targets` leaving at `tau`
    /// with at most `transfers` trips, with a fresh cache: the Pareto
    /// front on (trips, arrival), fewest trips first.
    fn raptor(
        &self,
        transfers: usize,
        tau: SecondOfDay,
        origins: &[(StopIdx, Duration)],
        targets: &[(StopIdx, Duration)],
    ) -> (r: Vec<Journey>)
        requires
            self.well_formed(),
            (transfers + 1) * 100 <= usize::MAX,
            forall|i: int| 0 <= i < origins@.len() ==> (#[trigger] origins@[i]).0.0 < self.stop_count(),
            forall|i: int| 0 <= i < targets@.len() ==> (#[trigger] targets@[i]).0.0 < self.stop_count(),
        ensures
            exists|cands: Seq<Journey>|
                #[trigger] is_swept_front(cands, r@) && all_fit(self, origins@, targets@, transfers as nat, cands)
                    && all_sound(self, origins@, tau.0, transfers as nat, cands),
    ;

    /// [`Raptor::raptor`] reusing `cache`, which must be sized for this
    /// timetable; the cache is reset first.
    fn raptor_with_cache(
        &self,
        cache: &mut RaptorCache,
        transfers: usize,
        tau: SecondOfDay,
        origins: &[(StopIdx, Duration)],
        targets: &[(StopIdx, Duration)],
    ) -> (r: Vec<Journey>)
        requires
            self.well_formed(),
            old(cache).n_stops == self.stop_count(),
            old(cache).n_routes == self.route_count(),
            old(cache).dims_ok(),
            (transfers + 1) * 100 <= usize::MAX,
            forall|i: int| 0 <= i < origins@.len() ==> (#[trigger] origins@[i]).0.0 < self.stop_count(),
            forall|i: int| 0 <= i < targets@.len() ==> (#[trigger] targets@[i]).0.0 < self.stop_count(),
        ensures
            final(cache).ready(self, transfers as nat),
            exists|cands: Seq<Journey>|
                #[trigger] is_swept_front(cands, r@) && all_fit(self, origins@, targets@, transfers as nat, cands)
                    && all_sound(self, origins@, tau.0, transfers as nat, cands),
    ;
}

impl<T: Timetable> Raptor for T {
    fn raptor(
        &self,
        transfers: usize,
        tau: SecondOfDay,
        origins: &[(StopIdx, Duration)],
        targets: &[(StopIdx, Duration)],
    ) -> (r: Vec<Journey>) {
        let mut cache = RaptorCache::<ArrivalTime>::for_timetable(self);
        self.raptor_with_cache(&mut cache, transfers, tau, origins, targets)
    }

    fn raptor_with_cache(
        &self,
        cache: &mut RaptorCache,
        transfers: usize,
        tau: SecondOfDay,
        origins: &[(StopIdx, Duration)],
        targets: &[(StopIdx, Duration)],
    ) -> (r: Vec<Journey>) {
        run_per_call_query(self, &(), cache, transfers, tau, origins, targets, false)
    }
}

} // verus!
