//! Entry points with concrete label types for bindings that cannot carry
//! the generic [`Query`](crate::Query) builder across a language boundary:
//! one function per bundled label, each with a fresh cache per call.

use vstd::prelude::*;

use crate::algorithm::per_call::{all_fit, all_sound, plans_accessible, run_per_call_query};
use crate::cache::RaptorCache;
use crate::ids::StopIdx;
use crate::journey::Journey;
use crate::label::ArrivalTime;
use crate::labels::{ArrivalAndFare, ArrivalAndWalk, FareTable};
use crate::pareto::is_swept_front;
use crate::time::{Duration, SecondOfDay};
use crate::timetable::Timetable;

verus! {

/// The endpoints are stops of `tt`.
pub open spec fn pairs_in<T: Timetable>(tt: &T, pairs: Seq<(StopIdx, Duration)>) -> bool {
    forall|i: int| 0 <= i < pairs.len() ==> (#[trigger] pairs[i]).0.0 < tt.stop_count()
}

/// An arrival-time query: the Pareto front on (trips, arrival) of the
/// journeys from `origins` to `targets` leaving at `depart`, fewest trips
/// first (see [`Query::run`](crate::Query::run)).
pub fn run_arrival<T: Timetable>(
    tt: &T,
    origins: &[(StopIdx, Duration)],
    targets: &[(StopIdx, Duration)],
    max_transfers: u8,
    depart: SecondOfDay,
    require_wheelchair_accessible: bool,
) -> (r: Vec<Journey<ArrivalTime>>)
    requires
        tt.well_formed(),
        pairs_in(tt, origins@),
        pairs_in(tt, targets@),
    ensures
        exists|cands: Seq<Journey<ArrivalTime>>|
            #[trigger] is_swept_front(cands, r@) && all_fit(tt, origins@, targets@, max_transfers as nat, cands)
                && all_sound(tt, origins@, depart.0, max_transfers as nat, cands) && (require_wheelchair_accessible
                ==> plans_accessible(tt, cands)),
{
    let mut cache = RaptorCache::<ArrivalTime>::for_timetable(tt);
    run_per_call_query(
        tt,
        &(),
        &mut cache,
        max_transfers as usize,
        depart,
        origins,
        targets,
        require_wheelchair_accessible,
    )
}

/// An (arrival, walking time) query: the Pareto front of the journeys,
/// a faster but walkier journey beside slower ones that walk less.
pub fn run_walk<T: Timetable>(
    tt: &T,
    origins: &[(StopIdx, Duration)],
    targets: &[(StopIdx, Duration)],
    max_transfers: u8,
    depart: SecondOfDay,
    require_wheelchair_accessible: bool,
) -> (r: Vec<Journey<ArrivalAndWalk>>)
    requires
        tt.well_formed(),
        pairs_in(tt, origins@),
        pairs_in(tt, targets@),
    ensures
        exists|cands: Seq<Journey<ArrivalAndWalk>>|
            #[trigger] is_swept_front(cands, r@) && all_fit(tt, origins@, targets@, max_transfers as nat, cands)
                && all_sound(tt, origins@, depart.0, max_transfers as nat, cands) && (require_wheelchair_accessible
                ==> plans_accessible(tt, cands)),
{
    let mut cache = RaptorCache::<ArrivalAndWalk>::for_timetable(tt);
    run_per_call_query(
        tt,
        &(),
        &mut cache,
        max_transfers as usize,
        depart,
        origins,
        targets,
        require_wheelchair_accessible,
    )
}

/// An (arrival, fare) query with the route fares of `fares`: the Pareto
/// front of arrival against fare.
pub fn run_fare<T: Timetable>(
    tt: &T,
    fares: &FareTable,
    origins: &[(StopIdx, Duration)],
    targets: &[(StopIdx, Duration)],
    max_transfers: u8,
    depart: SecondOfDay,
    require_wheelchair_accessible: bool,
) -> (r: Vec<Journey<ArrivalAndFare>>)
    requires
        tt.well_formed(),
        pairs_in(tt, origins@),
        pairs_in(tt, targets@),
    ensures
        exists|cands: Seq<Journey<ArrivalAndFare>>|
            #[trigger] is_swept_front(cands, r@) && all_fit(tt, origins@, targets@, max_transfers as nat, cands)
                && all_sound(tt, origins@, depart.0, max_transfers as nat, cands) && (require_wheelchair_accessible
                ==> plans_accessible(tt, cands)),
{
    let mut cache = RaptorCache::<ArrivalAndFare>::for_timetable(tt);
    run_per_call_query(
        tt,
        fares,
        &mut cache,
        max_transfers as usize,
        depart,
        origins,
        targets,
        require_wheelchair_accessible,
    )
}

} // verus!
