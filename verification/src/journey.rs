//! [`Journey`]: what a query returns, a sequence of `(route, alight stop)`
//! steps plus the label at the target; [`Journey::with_timing`] recovers
//! the trip and the times of each leg from the timetable.

use vstd::prelude::*;

use crate::ids::{RouteIdx, StopIdx, TripIdx};
use crate::label::{ArrivalTime, Label};
use crate::pareto::{covers, is_swept_front, ParetoItem};
use crate::time::{sat_add, Duration, SecondOfDay};
use crate::timetable::Timetable;

verus! {

/// A journey found by a query.
///
/// `origin` is the origin stop it starts from and `target` the target stop
/// it reaches, each picked from the query's endpoint sets; `target_walk` is
/// the walk offset of that target, already folded into `label`. Each step
/// of `plan` means "ride this route until this stop"; the first step
/// boards at `origin`, each later one at (or one walk away from) the stop
/// where the previous step alighted.
#[derive(Debug, Clone)]
pub struct Journey<L: Label = ArrivalTime> {
    /// The origin stop the journey starts from.
    pub origin: StopIdx,
    /// The target stop the journey ends at.
    pub target: StopIdx,
    /// The walk offset of `target` in the query's target set.
    pub target_walk: Duration,
    /// The `(route, alight stop)` steps.
    pub plan: Vec<(RouteIdx, StopIdx)>,
    /// The label at the target, walk offset included.
    pub label: L,
}

/// One transit leg of a [`Journey`] with its timing.
#[derive(Debug, Clone, Copy, PartialEq, Eq)]
pub struct TimedLeg {
    /// The route boarded.
    pub route: RouteIdx,
    /// Stop where the rider boards.
    pub board: StopIdx,
    /// Stop where the rider alights.
    pub alight: StopIdx,
    /// The trip ridden: the earliest one departing `board` at or after the
    /// rider is there.
    pub trip: TripIdx,
    /// Departure time at `board`.
    pub depart: SecondOfDay,
    /// Arrival time at `alight`.
    pub arrive: SecondOfDay,
}

/// Why [`Journey::with_timing`] could not match a plan against a
/// timetable. Each variant carries the zero-based leg where it stopped.
#[non_exhaustive]
#[derive(Debug, Clone, Copy, PartialEq, Eq)]
pub enum TimingError {
    /// Neither the current stop nor any of its direct footpath neighbours
    /// is served by the route the leg wants to board.
    NoBoardingStop {
        /// Zero-based plan index.
        leg: usize,
        /// The route the leg wanted to board.
        route: RouteIdx,
        /// The stop the rider was at.
        from_stop: StopIdx,
    },
    /// No trip of the route departs the boarding position at or after the
    /// rider is ready.
    NoCatchableTrip {
        /// Zero-based plan index.
        leg: usize,
        /// The route boarded.
        route: RouteIdx,
        /// Boarding position within the route.
        board_pos: u32,
        /// When the rider was ready to board.
        at: SecondOfDay,
    },
    /// The route does not reach the claimed alight stop after the
    /// boarding position.
    UnreachableAlight {
        /// Zero-based plan index.
        leg: usize,
        /// The route boarded.
        route: RouteIdx,
        /// Boarding position within the route.
        board_pos: u32,
        /// The stop the plan claimed.
        alight: StopIdx,
    },
}

/// The position paired with the first entry of `served` whose route is
/// `route`.
pub open spec fn first_pos_of(served: Seq<(RouteIdx, u32)>, route: RouteIdx) -> Option<u32>
    decreases served.len(),
{
    if served.len() == 0 {
        None
    } else if served[0].0 == route {
        Some(served[0].1)
    } else {
        first_pos_of(served.drop_first(), route)
    }
}

/// The offset of the first occurrence of `x` in `s`.
pub open spec fn first_index_of(s: Seq<StopIdx>, x: StopIdx) -> Option<nat>
    decreases s.len(),
{
    if s.len() == 0 {
        None
    } else if s[0] == x {
        Some(0)
    } else {
        match first_index_of(s.drop_first(), x) {
            Some(i) => Some(i + 1),
            None => None,
        }
    }
}

/// The first of `nbrs` that `route` serves, with its position on the
/// route and the walk from `from`.
pub open spec fn neighbour_boarding<T: Timetable>(
    tt: &T,
    from: StopIdx,
    nbrs: Seq<StopIdx>,
    route: RouteIdx,
) -> Option<(StopIdx, u32, u32)>
    decreases nbrs.len(),
{
    if nbrs.len() == 0 {
        None
    } else {
        match first_pos_of(tt.routes_at(nbrs[0].0 as nat), route) {
            Some(p) => Some((nbrs[0], p, tt.transfer_secs(from.0 as nat, nbrs[0].0 as nat))),
            None => neighbour_boarding(tt, from, nbrs.drop_first(), route),
        }
    }
}

/// Where a rider at `from` boards `route`: at `from` itself when the
/// route serves it, else at the first direct footpath neighbour it serves;
/// with the boarding position and the walk to get there.
pub open spec fn boarding_spec<T: Timetable>(tt: &T, from: StopIdx, route: RouteIdx) -> Option<
    (StopIdx, u32, u32),
> {
    match first_pos_of(tt.routes_at(from.0 as nat), route) {
        Some(p) => Some((from, p, 0u32)),
        None => neighbour_boarding(tt, from, tt.footpaths_at(from.0 as nat), route),
    }
}

/// The timed legs of `plan` from step `i` on, for a rider at `stop` at
/// time `time`, or the first failure.
pub open spec fn timing_spec<T: Timetable>(
    tt: &T,
    plan: Seq<(RouteIdx, StopIdx)>,
    i: nat,
    stop: StopIdx,
    time: u32,
) -> Result<Seq<TimedLeg>, TimingError>
    decreases plan.len() - i,
{
    if i >= plan.len() {
        Ok(Seq::empty())
    } else {
        let (route, alight) = plan[i as int];
        match boarding_spec(tt, stop, route) {
            None => Err(TimingError::NoBoardingStop { leg: i as usize, route, from_stop: stop }),
            Some((board, bpos, walk)) => {
                let ready = sat_add(time, walk);
                match tt.earliest_trip(route.0 as nat, ready, bpos as nat) {
                    None => Err(
                        TimingError::NoCatchableTrip {
                            leg: i as usize,
                            route,
                            board_pos: bpos,
                            at: SecondOfDay(ready),
                        },
                    ),
                    Some(trip) => {
                        let stops = tt.route_stops(route.0 as nat);
                        match first_index_of(stops.subrange(bpos as int, stops.len() as int), alight) {
                            None => Err(
                                TimingError::UnreachableAlight {
                                    leg: i as usize,
                                    route,
                                    board_pos: bpos,
                                    alight,
                                },
                            ),
                            Some(off) => {
                                let leg = TimedLeg {
                                    route,
                                    board,
                                    alight,
                                    trip: TripIdx(trip as u32),
                                    depart: SecondOfDay(tt.dep_at(trip, bpos as nat)),
                                    arrive: SecondOfDay(tt.arr_at(trip, (bpos + off) as nat)),
                                };
                                match timing_spec(tt, plan, i + 1, alight, leg.arrive.0) {
                                    Ok(rest) => Ok(seq![leg] + rest),
                                    Err(e) => Err(e),
                                }
                            },
                        }
                    },
                }
            },
        }
    }
}

/// `prefix` followed by what `rest` gives.
pub open spec fn then_legs(prefix: Seq<TimedLeg>, rest: Result<Seq<TimedLeg>, TimingError>) -> Result<
    Seq<TimedLeg>,
    TimingError,
> {
    match rest {
        Ok(r) => Ok(prefix + r),
        Err(e) => Err(e),
    }
}

/// Where the rider is before leg `j` of `plan`: the origin, or the stop
/// the previous leg alights at.
pub open spec fn stop_before(origin: StopIdx, plan: Seq<(RouteIdx, StopIdx)>, j: int) -> StopIdx {
    if j == 0 {
        origin
    } else {
        plan[j - 1].1
    }
}

/// When the rider is there: the start time, or the previous leg's arrival.
pub open spec fn time_before(t0: u32, legs: Seq<TimedLeg>, j: int) -> u32 {
    if j == 0 {
        t0
    } else {
        legs[j - 1].arrive.0
    }
}

/// The walk from `from` to `to` before boarding: none when boarding where
/// the rider is, else the transfer time of the footpath.
pub open spec fn walk_secs<T: Timetable>(tt: &T, from: StopIdx, to: StopIdx) -> u32 {
    if from == to {
        0
    } else {
        tt.transfer_secs(from.0 as nat, to.0 as nat)
    }
}

/// Leg `j` of `legs` is a real ride of step `j` of `plan` for a rider at
/// the stop and time before it: it rides the step's route to the step's
/// stop, boards where the rider is or at a direct footpath neighbour, on a
/// trip of the route that leaves the boarding stop no earlier than the
/// rider gets there (walk included) and no later than any other trip of
/// the route that the rider could catch there, and its times are that
/// trip's times at the boarding and alighting positions.
pub open spec fn leg_is_ride<T: Timetable>(
    tt: &T,
    plan: Seq<(RouteIdx, StopIdx)>,
    origin: StopIdx,
    t0: u32,
    legs: Seq<TimedLeg>,
    j: int,
) -> bool {
    let leg = legs[j];
    let from = stop_before(origin, plan, j);
    let ready = sat_add(time_before(t0, legs, j), walk_secs(tt, from, leg.board));
    let rs = tt.route_stops(leg.route.0 as nat);
    &&& leg.route == plan[j].0
    &&& leg.alight == plan[j].1
    &&& leg.board == from || tt.footpaths_at(from.0 as nat).contains(leg.board)
    &&& leg.trip.0 < tt.trip_count()
    &&& tt.trip_route(leg.trip.0 as nat) == leg.route.0
    &&& leg.depart.0 >= ready
    &&& exists|bp: int, ap: int|
        0 <= bp <= ap < rs.len() && rs[bp] == leg.board && rs[ap] == leg.alight && leg.depart.0 == tt.dep_at(
            leg.trip.0 as nat,
            bp as nat,
        ) && leg.arrive.0 == tt.arr_at(leg.trip.0 as nat, ap as nat) && forall|u: nat|
            u < tt.trip_count() && tt.trip_route(u) == leg.route.0 && #[trigger] tt.dep_at(u, bp as nat) >= ready
                ==> leg.depart.0 <= tt.dep_at(u, bp as nat)
}

/// Stop `s` lists `route` among the routes serving it.
pub open spec fn serves<T: Timetable>(tt: &T, s: StopIdx, route: RouteIdx) -> bool {
    exists|i: int| 0 <= i < tt.routes_at(s.0 as nat).len() && (#[trigger] tt.routes_at(s.0 as nat)[i]).0 == route
}

impl<L: Label> Journey<L> {
    /// The effective arrival time at the target, walk offset included.
    pub fn arrival(&self) -> (r: SecondOfDay)
        ensures
            r.0 == self.label.arrival_of(),
    {
        self.label.arrival()
    }

    /// The plan's stops are stops of `tt`.
    pub open spec fn stops_in<T: Timetable>(&self, tt: &T) -> bool {
        &&& self.origin.0 < tt.stop_count()
        &&& forall|i: int| 0 <= i < self.plan@.len() ==> (#[trigger] self.plan@[i]).1.0 < tt.stop_count()
    }

    /// Walks the plan against `tt`, starting at `origin` at `depart +
    /// origin_walk`, and recovers per leg the trip ridden and its times:
    /// each leg boards at the current stop when the route serves it, else
    /// walks to the first direct footpath neighbour the route serves; it
    /// takes the trip [`Timetable::get_earliest_trip`] picks there and
    /// alights at the first later occurrence of the claimed stop.
    #[verifier::spinoff_prover]
    #[verifier::rlimit(40)]
    pub fn with_timing<T: Timetable>(&self, tt: &T, depart: SecondOfDay, origin_walk: Duration) -> (r:
        Result<Vec<TimedLeg>, TimingError>)
        requires
            tt.well_formed(),
            self.stops_in(tt),
        ensures
            match r {
                Ok(legs) => timing_spec(tt, self.plan@, 0, self.origin, sat_add(depart.0, origin_walk.0))
                    == Ok::<Seq<TimedLeg>, TimingError>(legs@),
                Err(e) => timing_spec(tt, self.plan@, 0, self.origin, sat_add(depart.0, origin_walk.0))
                    == Err::<Seq<TimedLeg>, TimingError>(e),
            },
            r matches Err(TimingError::NoBoardingStop { leg, route, from_stop }) ==> leg < self.plan@.len() && route
                == self.plan@[leg as int].0 && !serves(tt, from_stop, route) && forall|n: StopIdx|
                #[trigger] tt.footpaths_at(from_stop.0 as nat).contains(n) ==> !serves(tt, n, route),
            r matches Err(TimingError::NoCatchableTrip { leg, route, board_pos, at }) ==> leg < self.plan@.len() && route
                == self.plan@[leg as int].0 && board_pos < tt.route_stops(route.0 as nat).len() && forall|u: nat|
                u < tt.trip_count() && tt.trip_route(u) == route.0 ==> #[trigger] tt.dep_at(u, board_pos as nat) < at.0,
            r matches Err(TimingError::UnreachableAlight { leg, route, board_pos, alight }) ==> leg < self.plan@.len()
                && route == self.plan@[leg as int].0 && alight == self.plan@[leg as int].1 && forall|p: int|
                board_pos <= p < tt.route_stops(route.0 as nat).len() ==> #[trigger] tt.route_stops(route.0 as nat)[p]
                    != alight,
            r matches Ok(legs) ==> legs@.len() == self.plan@.len() && forall|j: int|
                0 <= j < legs@.len() ==> #[trigger] leg_is_ride(
                    tt,
                    self.plan@,
                    self.origin,
                    sat_add(depart.0, origin_walk.0),
                    legs@,
                    j,
                ),
    {
        let ghost t0 = sat_add(depart.0, origin_walk.0);
        let mut legs: Vec<TimedLeg> = Vec::new();
        let mut current_time = depart.plus(origin_walk);
        let mut current_stop = self.origin;
        let mut leg: usize = 0;
        proof {
            tt.lemma_shape();
        }
        while leg < self.plan.len()
            invariant
                tt.well_formed(),
                self.stops_in(tt),
                leg <= self.plan@.len(),
                t0 == sat_add(depart.0, origin_walk.0),
                current_stop.0 < tt.stop_count(),
                timing_spec(tt, self.plan@, 0, self.origin, t0) == then_legs(
                    legs@,
                    timing_spec(tt, self.plan@, leg as nat, current_stop, current_time.0),
                ),
                legs@.len() == leg,
                current_stop == stop_before(self.origin, self.plan@, leg as int),
                current_time.0 == time_before(t0, legs@, leg as int),
                forall|j: int| 0 <= j < leg ==> #[trigger] leg_is_ride(tt, self.plan@, self.origin, t0, legs@, j),
            decreases self.plan@.len() - leg,
        {
            proof {
                tt.lemma_shape();
            }
            let (route, alight) = self.plan[leg];
            let found = find_boarding(tt, current_stop, route);
            let (board, board_pos, walk) = match found {
                Some(b) => b,
                None => {
                    let e = TimingError::NoBoardingStop { leg, route, from_stop: current_stop };
                    proof {
                        lemma_not_served(tt, current_stop, route);
                        assert forall|n: StopIdx| #[trigger] tt.footpaths_at(current_stop.0 as nat).contains(n) implies !serves(
                            tt,
                            n,
                            route,
                        ) by {
                            lemma_neighbours_not_served(tt, current_stop, tt.footpaths_at(current_stop.0 as nat), route, n);
                        }
                    }
                    assert(timing_spec(tt, self.plan@, leg as nat, current_stop, current_time.0) == Err::<Seq<TimedLeg>, TimingError>(e));
                    return Err(e);
                },
            };
            let ready = current_time.plus(walk);
            let trip = match tt.get_earliest_trip(route, ready, board_pos) {
                Some(t) => t,
                None => {
                    let e = TimingError::NoCatchableTrip { leg, route, board_pos, at: ready };
                    assert(timing_spec(tt, self.plan@, leg as nat, current_stop, current_time.0) == Err::<Seq<TimedLeg>, TimingError>(e));
                    return Err(e);
                },
            };
            let dep = tt.get_departure_time(trip, board_pos);
            let stops_ahead = tt.get_stops_after(route, board_pos);
            let off = match find_stop(stops_ahead, alight) {
                Some(o) => o,
                None => {
                    let e = TimingError::UnreachableAlight { leg, route, board_pos, alight };
                    proof {
                        let rs = tt.route_stops(route.0 as nat);
                        assert forall|p: int| board_pos <= p < rs.len() implies #[trigger] rs[p] != alight by {
                            lemma_first_index_none_all(stops_ahead@, alight, p - board_pos);
                            assert(stops_ahead@[p - board_pos] == rs[p]);
                        }
                    }
                    assert(timing_spec(tt, self.plan@, leg as nat, current_stop, current_time.0) == Err::<Seq<TimedLeg>, TimingError>(e));
                    return Err(e);
                },
            };
            let alight_pos = board_pos + off as u32;
            let arrive = tt.get_arrival_time(trip, alight_pos);
            let timed = TimedLeg { route, board, alight, trip, depart: dep, arrive };
            proof {
                let rest = timing_spec(tt, self.plan@, (leg + 1) as nat, alight, arrive.0);
                assert(timing_spec(tt, self.plan@, leg as nat, current_stop, current_time.0) == match rest {
                    Ok(r) => Ok(seq![timed] + r),
                    Err(e) => Err::<Seq<TimedLeg>, TimingError>(e),
                });
                if let Ok(r) = rest {
                    assert(legs@ + (seq![timed] + r) =~= legs@.push(timed) + r);
                }
            }
            let ghost legs0 = legs@;
            legs.push(timed);
            proof {
                let rs = tt.route_stops(route.0 as nat);
                assert(stops_ahead@ == rs.subrange(board_pos as int, rs.len() as int));
                lemma_first_index_found(stops_ahead@, alight);
                assert(stops_ahead@[off as int] == alight);
                assert(rs[alight_pos as int] == alight);
                assert(walk_secs(tt, current_stop, board) == walk.0);
                assert(time_before(t0, legs@, leg as int) == current_time.0);
                assert(stop_before(self.origin, self.plan@, leg as int) == current_stop);
                assert(leg_is_ride(tt, self.plan@, self.origin, t0, legs@, leg as int)) by {
                    let bp = board_pos as int;
                    let ap = alight_pos as int;
                    assert(rs[bp] == board);
                    let rdy = sat_add(current_time.0, walk.0);
                    assert(rdy == ready.0);
                    assert(legs@[leg as int] == timed);
                    assert(timed.depart.0 == tt.dep_at(trip.0 as nat, bp as nat));
                    assert(timed.arrive.0 == tt.arr_at(trip.0 as nat, ap as nat));
                    assert(0 <= bp <= ap < rs.len());
                    assert forall|u: nat|
                        u < tt.trip_count() && tt.trip_route(u) == route.0 && #[trigger] tt.dep_at(u, bp as nat) >= rdy
                            implies timed.depart.0 <= tt.dep_at(u, bp as nat) by {
                    }
                    assert(rs[ap] == timed.alight);
                    assert(timed.route == self.plan@[leg as int].0);
                    assert(timed.alight == self.plan@[leg as int].1);
                    assert(timed.board == current_stop || tt.footpaths_at(current_stop.0 as nat).contains(timed.board));
                    assert(timed.depart.0 >= rdy);
                    assert(timed.trip.0 < tt.trip_count());
                    assert(tt.trip_route(timed.trip.0 as nat) == timed.route.0);
                }
                assert forall|j: int| 0 <= j < leg + 1 implies #[trigger] leg_is_ride(tt, self.plan@, self.origin, t0, legs@, j) by {
                    if j < leg {
                        assert(legs@[j] == legs0[j]);
                        assert(leg_is_ride(tt, self.plan@, self.origin, t0, legs0, j));
                        if j > 0 {
                            assert(legs@[j - 1] == legs0[j - 1]);
                        }
                    }
                }
            }
            current_time = arrive;
            current_stop = alight;
            leg = leg + 1;
        }
        proof {
            assert(legs@ + Seq::<TimedLeg>::empty() =~= legs@);
        }
        Ok(legs)
    }
}

/// The position `first_pos_of` describes, found by a scan.
fn find_route_pos(served: &[(RouteIdx, u32)], route: RouteIdx) -> (r: Option<u32>)
    ensures
        r == first_pos_of(served@, route),
{
    let mut i: usize = 0;
    assert(served@.subrange(0, served@.len() as int) =~= served@);
    while i < served.len()
        invariant
            i <= served@.len(),
            first_pos_of(served@, route) == first_pos_of(served@.subrange(i as int, served@.len() as int), route),
        decreases served@.len() - i,
    {
        let ghost tail = served@.subrange(i as int, served@.len() as int);
        if served[i].0 == route {
            return Some(served[i].1);
        }
        assert(tail.drop_first() =~= served@.subrange(i + 1, served@.len() as int));
        i = i + 1;
    }
    None
}

/// The offset `first_index_of` describes, found by a scan.
fn find_stop(s: &[StopIdx], x: StopIdx) -> (r: Option<usize>)
    ensures
        match r {
            Some(o) => first_index_of(s@, x) == Some(o as nat) && o < s@.len(),
            None => first_index_of(s@, x) is None,
        },
{
    let mut i: usize = 0;
    while i < s.len()
        invariant
            i <= s@.len(),
            forall|j: int| 0 <= j < i ==> s@[j] != x,
        decreases s@.len() - i,
    {
        if s[i] == x {
            proof {
                lemma_first_index_at(s@, x, i as nat);
            }
            return Some(i);
        }
        i = i + 1;
    }
    proof {
        lemma_first_index_none(s@, x);
    }
    None
}

proof fn lemma_first_index_at(s: Seq<StopIdx>, x: StopIdx, i: nat)
    requires
        i < s.len(),
        s[i as int] == x,
        forall|j: int| 0 <= j < i ==> s[j] != x,
    ensures
        first_index_of(s, x) == Some(i),
    decreases i,
{
    if i > 0 {
        lemma_first_index_at(s.drop_first(), x, (i - 1) as nat);
    }
}

/// When `first_index_of` finds nothing, `x` does not occur.
proof fn lemma_first_index_none_all(s: Seq<StopIdx>, x: StopIdx, i: int)
    requires
        first_index_of(s, x) is None,
        0 <= i < s.len(),
    ensures
        s[i] != x,
    decreases s.len(),
{
    if i > 0 {
        lemma_first_index_none_all(s.drop_first(), x, i - 1);
        assert(s.drop_first()[i - 1] == s[i]);
    }
}

/// A stop where `first_pos_of` finds nothing for `route` does not list it.
proof fn lemma_first_pos_none(served: Seq<(RouteIdx, u32)>, route: RouteIdx, i: int)
    requires
        first_pos_of(served, route) is None,
        0 <= i < served.len(),
    ensures
        served[i].0 != route,
    decreases served.len(),
{
    if i > 0 {
        lemma_first_pos_none(served.drop_first(), route, i - 1);
        assert(served.drop_first()[i - 1] == served[i]);
    }
}

/// With no boarding found, the route does not serve the stop.
proof fn lemma_not_served<T: Timetable>(tt: &T, from: StopIdx, route: RouteIdx)
    requires
        boarding_spec(tt, from, route) is None,
    ensures
        !serves(tt, from, route),
{
    assert forall|i: int| 0 <= i < tt.routes_at(from.0 as nat).len() implies (#[trigger] tt.routes_at(from.0 as nat)[i]).0
        != route by {
        lemma_first_pos_none(tt.routes_at(from.0 as nat), route, i);
    }
}

/// With no neighbour boarding found, the route serves none of the
/// neighbours.
proof fn lemma_neighbours_not_served<T: Timetable>(tt: &T, from: StopIdx, nbrs: Seq<StopIdx>, route: RouteIdx, n: StopIdx)
    requires
        neighbour_boarding(tt, from, nbrs, route) is None,
        nbrs.contains(n),
    ensures
        !serves(tt, n, route),
    decreases nbrs.len(),
{
    if nbrs[0] == n {
        assert forall|i: int| 0 <= i < tt.routes_at(n.0 as nat).len() implies (#[trigger] tt.routes_at(n.0 as nat)[i]).0
            != route by {
            lemma_first_pos_none(tt.routes_at(n.0 as nat), route, i);
        }
    } else {
        let k = choose|k: int| 0 <= k < nbrs.len() && nbrs[k] == n;
        assert(nbrs.drop_first()[k - 1] == n);
        lemma_neighbours_not_served(tt, from, nbrs.drop_first(), route, n);
    }
}

/// What `first_index_of` finds is an occurrence.
proof fn lemma_first_index_found(s: Seq<StopIdx>, x: StopIdx)
    requires
        first_index_of(s, x) is Some,
    ensures
        first_index_of(s, x)->0 < s.len(),
        s[first_index_of(s, x)->0 as int] == x,
    decreases s.len(),
{
    if s[0] != x {
        lemma_first_index_found(s.drop_first(), x);
        assert(s[first_index_of(s, x)->0 as int] == s.drop_first()[first_index_of(s.drop_first(), x)->0 as int]);
    }
}

proof fn lemma_first_index_none(s: Seq<StopIdx>, x: StopIdx)
    requires
        forall|j: int| 0 <= j < s.len() ==> s[j] != x,
    ensures
        first_index_of(s, x) is None,
    decreases s.len(),
{
    if s.len() > 0 {
        lemma_first_index_none(s.drop_first(), x);
    }
}

/// Where a rider at `from` boards `route` (see [`boarding_spec`]).
fn find_boarding<T: Timetable>(tt: &T, from: StopIdx, route: RouteIdx) -> (r: Option<(StopIdx, u32, Duration)>)
    requires
        tt.well_formed(),
        from.0 < tt.stop_count(),
    ensures
        match r {
            Some((b, p, w)) => boarding_spec(tt, from, route) == Some((b, p, w.0)) && b.0 < tt.stop_count()
                && route.0 < tt.route_count() && p < tt.route_stops(route.0 as nat).len() && tt.route_stops(route.0 as nat)[p as int]
                == b && ((b == from && w.0 == 0) || (b != from && tt.footpaths_at(from.0 as nat).contains(b) && w.0
                == tt.transfer_secs(from.0 as nat, b.0 as nat))),
            None => boarding_spec(tt, from, route) is None,
        },
{
    proof {
        tt.lemma_shape();
    }
    let here = tt.get_routes_serving_stop(from);
    match find_route_pos(here, route) {
        Some(p) => {
            proof {
                lemma_first_pos_valid(tt, from.0 as nat, route);
            }
            return Some((from, p, Duration(0)));
        },
        None => {},
    }
    let nbrs = tt.get_footpaths_from(from);
    let mut i: usize = 0;
    assert(nbrs@.subrange(0, nbrs@.len() as int) =~= nbrs@);
    while i < nbrs.len()
        invariant
            tt.well_formed(),
            from.0 < tt.stop_count(),
            nbrs@ == tt.footpaths_at(from.0 as nat),
            first_pos_of(tt.routes_at(from.0 as nat), route) is None,
            i <= nbrs@.len(),
            boarding_spec(tt, from, route) == neighbour_boarding(tt, from, nbrs@.subrange(i as int, nbrs@.len() as int), route),
        decreases nbrs@.len() - i,
    {
        proof {
            tt.lemma_shape();
        }
        let n = nbrs[i];
        assert(n == tt.footpaths_at(from.0 as nat)[i as int]);
        let served = tt.get_routes_serving_stop(n);
        let ghost tail = nbrs@.subrange(i as int, nbrs@.len() as int);
        match find_route_pos(served, route) {
            Some(p) => {
                let w = tt.get_transfer_time(from, n);
                proof {
                    lemma_first_pos_valid(tt, n.0 as nat, route);
                }
                return Some((n, p, w));
            },
            None => {},
        }
        assert(tail.drop_first() =~= nbrs@.subrange(i + 1, nbrs@.len() as int));
        i = i + 1;
    }
    None
}

/// A position `first_pos_of` finds is a valid position of the route.
proof fn lemma_first_pos_valid<T: Timetable>(tt: &T, s: nat, route: RouteIdx)
    requires
        tt.well_formed(),
        s < tt.stop_count(),
        first_pos_of(tt.routes_at(s), route) is Some,
    ensures
        route.0 < tt.route_count(),
        first_pos_of(tt.routes_at(s), route)->0 < tt.route_stops(route.0 as nat).len(),
        tt.route_stops(route.0 as nat)[first_pos_of(tt.routes_at(s), route)->0 as int].0 == s,
{
    tt.lemma_shape();
    lemma_first_pos_in(tt.routes_at(s), route);
    let i = choose|i: int| 0 <= i < tt.routes_at(s).len() && tt.routes_at(s)[i] == (route, first_pos_of(tt.routes_at(s), route)->0);
    let _ = tt.routes_at(s)[i];
}

/// What `first_pos_of` finds is an entry of the sequence.
proof fn lemma_first_pos_in(served: Seq<(RouteIdx, u32)>, route: RouteIdx)
    requires
        first_pos_of(served, route) is Some,
    ensures
        exists|i: int| 0 <= i < served.len() && served[i] == (route, first_pos_of(served, route)->0),
    decreases served.len(),
{
    if served[0].0 == route {
        assert(served[0] == (route, served[0].1));
    } else {
        lemma_first_pos_in(served.drop_first(), route);
        let i = choose|i: int| 0 <= i < served.drop_first().len() && served.drop_first()[i] == (route, first_pos_of(served, route)->0);
        assert(served[i + 1] == served.drop_first()[i]);
    }
}


impl<L: Label> crate::pareto::ParetoItem for Journey<L> {
    /// Fewer trips first, then earlier arrival.
    open spec fn key_le(&self, other: &Self) -> bool {
        ||| self.plan@.len() < other.plan@.len()
        ||| self.plan@.len() == other.plan@.len() && self.label.arrival_of() <= other.label.arrival_of()
    }

    /// No more trips, and a dominating label.
    open spec fn pdom(&self, other: &Self) -> bool {
        &&& self.plan@.len() <= other.plan@.len()
        &&& self.label.dominates_spec(&other.label)
    }

    proof fn lemma_key_total(a: &Self, b: &Self) {
    }

    proof fn lemma_key_transitive(a: &Self, b: &Self, c: &Self) {
    }

    proof fn lemma_pdom_reflexive(a: &Self) {
        L::lemma_dominates_reflexive(a.label);
    }

    proof fn lemma_pdom_transitive(a: &Self, b: &Self, c: &Self) {
        L::lemma_dominates_transitive(a.label, b.label, c.label);
    }

    fn key_le_exec(&self, other: &Self) -> (r: bool) {
        let (la, lb) = (self.plan.len(), other.plan.len());
        la < lb || (la == lb && self.label.arrival().0 <= other.label.arrival().0)
    }

    fn pdom_exec(&self, other: &Self) -> (r: bool) {
        self.plan.len() <= other.plan.len() && self.label.dominates(&other.label)
    }
}

/// Journey dominance: a journey dominates another exactly when it takes no
/// more trips and its label dominates; so it also arrives no later.
pub proof fn law_journey_dominance<L: Label>(a: Journey<L>, b: Journey<L>)
    ensures
        a.pdom(&b) ==> a.plan@.len() <= b.plan@.len(),
        a.pdom(&b) ==> a.label.arrival_of() <= b.label.arrival_of(),
        a.plan@.len() <= b.plan@.len() && a.label.dominates_spec(&b.label) ==> a.pdom(&b),
{
    if a.pdom(&b) {
        L::lemma_dominates_arrival(a.label, b.label);
    }
}

/// The front order: fewer trips come first; at the same trip count the
/// earlier arrival comes first.
pub proof fn law_journey_order<L: Label>(a: Journey<L>, b: Journey<L>)
    ensures
        a.plan@.len() < b.plan@.len() ==> a.key_le(&b) && !b.key_le(&a),
        a.plan@.len() == b.plan@.len() ==> (a.key_le(&b) <==> a.label.arrival_of() <= b.label.arrival_of()),
{
}

/// Every candidate journey is matched in the front by one that takes no
/// more trips and arrives no later.
pub proof fn law_front_covers<L: Label>(all: Seq<Journey<L>>, out: Seq<Journey<L>>, i: int)
    requires
        is_swept_front(all, out),
        0 <= i < all.len(),
    ensures
        exists|j: int|
            0 <= j < out.len() && (#[trigger] out[j]).plan@.len() <= all[i].plan@.len() && out[j].label.arrival_of()
                <= all[i].label.arrival_of(),
{
    assert(covers(out, all[i]));
    let j = choose|j: int| 0 <= j < out.len() && (#[trigger] out[j]).pdom(&all[i]);
    law_journey_dominance(out[j], all[i]);
}

} // verus!
