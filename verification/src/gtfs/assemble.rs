//! Building a [`GtfsTimetable`] out of a [`GtfsFeed`] for one service day.

use std::collections::HashMap;

use vstd::prelude::*;

use crate::gtfs::timetable::{default_transfer_secs, GtfsTimetable};
use crate::gtfs::{
    all_departures_given, departures_given, is_service_active, overtakes_at, overtakes_spec, schedules_of,
    service_active, split_non_overtaking, split_spec, CivilDate, FeedStop, FeedStopTime, FeedTransfer, FeedTrip,
    GtfsError, GtfsFeed,
};
use crate::ids::{RouteIdx, StopIdx, TripIdx};
use crate::manual::{pair_key, pair_key_exec};
use crate::time::Duration;

verus! {

broadcast use vstd::std_specs::hash::group_hash_axioms;

/// The feed's cross-references are in range and its tables fit in `u32`.
pub open spec fn feed_ok(feed: GtfsFeed) -> bool {
    let ns = feed.stops@.len();
    &&& ns < u32::MAX
    &&& feed.trips@.len() < u32::MAX
    &&& forall|i: int| 0 <= i < feed.trips@.len() ==> (#[trigger] feed.trips@[i]).route < feed.route_ids@.len()
    &&& forall|i: int| 0 <= i < feed.trips@.len() ==> (#[trigger] feed.trips@[i]).stop_times@.len() < u32::MAX
    &&& forall|i: int, p: int|
        0 <= i < feed.trips@.len() && 0 <= p < feed.trips@[i].stop_times@.len() ==> ((#[trigger] feed.trips@[i].stop_times@[p]).stop
            matches Some(s) ==> s < ns)
    &&& forall|s: int, j: int|
        0 <= s < ns && 0 <= j < feed.stops@[s].transfers@.len() ==> ((#[trigger] feed.stops@[s].transfers@[j]).to_stop
            matches Some(t) ==> t < ns)
    &&& forall|s: int| 0 <= s < ns ==> ((#[trigger] feed.stops@[s]).parent_station matches Some(p) ==> p < ns)
}

/// Whether `feed` fits the indices [`GtfsTimetable::new`] works with:
/// counts below `u32::MAX` and every stop, route and parent reference in
/// range.
pub fn feed_fits(feed: &GtfsFeed) -> (r: bool)
    ensures
        r == feed_ok(*feed),
{
    let ns = feed.stops.len();
    if ns >= u32::MAX as usize || feed.trips.len() >= u32::MAX as usize {
        return false;
    }
    let mut i: usize = 0;
    while i < feed.trips.len()
        invariant
            ns == feed.stops@.len(),
            ns < u32::MAX,
            i <= feed.trips@.len(),
            forall|a: int| 0 <= a < i ==> (#[trigger] feed.trips@[a]).route < feed.route_ids@.len(),
            forall|a: int| 0 <= a < i ==> (#[trigger] feed.trips@[a]).stop_times@.len() < u32::MAX,
            forall|a: int, p: int|
                0 <= a < i && 0 <= p < feed.trips@[a].stop_times@.len() ==> ((#[trigger] feed.trips@[a].stop_times@[p]).stop
                    matches Some(x) ==> x < ns),
        decreases feed.trips@.len() - i,
    {
        let t = &feed.trips[i];
        if t.route as usize >= feed.route_ids.len() || t.stop_times.len() >= u32::MAX as usize {
            return false;
        }
        let mut p: usize = 0;
        while p < t.stop_times.len()
            invariant
                ns == feed.stops@.len(),
                i < feed.trips@.len(),
                *t == feed.trips@[i as int],
                p <= t.stop_times@.len(),
                forall|q: int| 0 <= q < p ==> ((#[trigger] t.stop_times@[q]).stop matches Some(x) ==> x < ns),
            decreases t.stop_times@.len() - p,
        {
            match t.stop_times[p].stop {
                Some(x) => {
                    if x as usize >= ns {
                        assert(feed.trips@[i as int].stop_times@[p as int].stop == Some(x));
                        return false;
                    }
                },
                None => {},
            }
            p = p + 1;
        }
        i = i + 1;
    }
    let mut s_: usize = 0;
    while s_ < ns
        invariant
            ns == feed.stops@.len(),
            ns < u32::MAX,
            s_ <= ns,
            forall|a: int| 0 <= a < feed.trips@.len() ==> (#[trigger] feed.trips@[a]).route < feed.route_ids@.len(),
            forall|a: int| 0 <= a < feed.trips@.len() ==> (#[trigger] feed.trips@[a]).stop_times@.len() < u32::MAX,
            forall|a: int, p: int|
                0 <= a < feed.trips@.len() && 0 <= p < feed.trips@[a].stop_times@.len() ==> ((#[trigger] feed.trips@[a].stop_times@[p]).stop
                    matches Some(x) ==> x < ns),
            forall|a: int, j: int|
                0 <= a < s_ && 0 <= j < feed.stops@[a].transfers@.len() ==> ((#[trigger] feed.stops@[a].transfers@[j]).to_stop
                    matches Some(x) ==> x < ns),
            forall|a: int| 0 <= a < s_ ==> ((#[trigger] feed.stops@[a]).parent_station matches Some(x) ==> x < ns),
        decreases ns - s_,
    {
        let st = &feed.stops[s_];
        match st.parent_station {
            Some(x) => {
                if x as usize >= ns {
                    return false;
                }
            },
            None => {},
        }
        let mut j: usize = 0;
        while j < st.transfers.len()
            invariant
                ns == feed.stops@.len(),
                s_ < ns,
                *st == feed.stops@[s_ as int],
                j <= st.transfers@.len(),
                forall|q: int| 0 <= q < j ==> ((#[trigger] st.transfers@[q]).to_stop matches Some(x) ==> x < ns),
            decreases st.transfers@.len() - j,
        {
            match st.transfers[j].to_stop {
                Some(x) => {
                    if x as usize >= ns {
                        assert(feed.stops@[s_ as int].transfers@[j as int].to_stop == Some(x));
                        return false;
                    }
                },
                None => {},
            }
            j = j + 1;
        }
        s_ = s_ + 1;
    }
    true
}

/// The content of a [`GtfsError`], its texts taken by view.
pub enum GtfsErrorKind {
    MissingTrip(Seq<char>),
    MissingStop(Seq<char>),
    MissingStopTimes(Seq<char>),
    MissingDepartureTime(Seq<char>, Seq<char>),
}

impl GtfsError {
    /// The error with its texts taken by view.
    pub open spec fn kind(&self) -> GtfsErrorKind {
        match self {
            GtfsError::MissingTrip(s) => GtfsErrorKind::MissingTrip(s@),
            GtfsError::MissingStop(s) => GtfsErrorKind::MissingStop(s@),
            GtfsError::MissingStopTimes(s) => GtfsErrorKind::MissingStopTimes(s@),
            GtfsError::MissingDepartureTime { trip, stop } => GtfsErrorKind::MissingDepartureTime(trip@, stop@),
        }
    }
}

/// A stop time whose stop is unknown or whose departure time is missing.
pub open spec fn bad_stop_time(st: FeedStopTime) -> bool {
    st.stop is None || st.departure_time is None
}

/// Stop time `p` is the first bad one of `sts`.
pub open spec fn first_bad(sts: Seq<FeedStopTime>, p: int) -> bool {
    &&& 0 <= p < sts.len()
    &&& bad_stop_time(sts[p])
    &&& forall|q: int| 0 <= q < p ==> !bad_stop_time(#[trigger] sts[q])
}

/// What is wrong with a trip, if anything: no stop times, or at its first
/// bad stop time an unknown stop or a missing departure.
pub open spec fn trip_error(trip: FeedTrip) -> Option<GtfsErrorKind> {
    let sts = trip.stop_times@;
    if sts.len() == 0 {
        Some(GtfsErrorKind::MissingStopTimes(trip.id@))
    } else if exists|p: int| first_bad(sts, p) {
        let p = choose|p: int| first_bad(sts, p);
        if sts[p].stop is None {
            Some(GtfsErrorKind::MissingStop(sts[p].stop_id@))
        } else {
            Some(GtfsErrorKind::MissingDepartureTime(trip.id@, sts[p].stop_id@))
        }
    } else {
        None
    }
}

/// Trip `i` of the feed runs on `date`.
pub open spec fn trip_runs(feed: GtfsFeed, date: CivilDate, i: int) -> bool {
    service_active(feed, feed.trips@[i].service, date)
}

/// Trip `i` runs on `date` and is malformed.
pub open spec fn trip_fails(feed: GtfsFeed, date: CivilDate, i: int) -> bool {
    &&& 0 <= i < feed.trips@.len()
    &&& trip_runs(feed, date, i)
    &&& trip_error(feed.trips@[i]) is Some
}

/// Trip `i` is the first of the feed that runs on `date` and is malformed.
pub open spec fn first_failure(feed: GtfsFeed, date: CivilDate, i: int) -> bool {
    &&& trip_fails(feed, date, i)
    &&& forall|k: int| 0 <= k < i ==> !#[trigger] trip_fails(feed, date, k)
}

/// The stop sequence of a well-formed trip.
pub open spec fn stop_sequence(trip: FeedTrip) -> Seq<StopIdx> {
    Seq::new(trip.stop_times@.len(), |p: int| StopIdx(trip.stop_times@[p].stop->0))
}

/// The arrival time of a stop time, `u32::MAX` when missing.
pub open spec fn arrival_or_max(st: FeedStopTime) -> u32 {
    match st.arrival_time {
        Some(a) => a,
        None => u32::MAX,
    }
}

/// A valid trip's stop `p`'s departure time.
pub open spec fn departure_of(st: FeedStopTime) -> u32 {
    st.departure_time->0
}

/// The stops the transfers lead to, in order, skipping unknown stops.
pub open spec fn resolved_transfers(ts: Seq<FeedTransfer>) -> Seq<StopIdx>
    decreases ts.len(),
{
    if ts.len() == 0 {
        Seq::empty()
    } else {
        let rest = resolved_transfers(ts.drop_last());
        match ts.last().to_stop {
            Some(t) => rest.push(StopIdx(t)),
            None => rest,
        }
    }
}

/// The minimum transfer time of the last transfer to `to` that gives one.
pub open spec fn last_min_time(ts: Seq<FeedTransfer>, to: nat) -> Option<u32>
    decreases ts.len(),
{
    if ts.len() == 0 {
        None
    } else if ts.last().to_stop == Some(to as u32) && ts.last().min_transfer_time is Some {
        ts.last().min_transfer_time
    } else {
        last_min_time(ts.drop_last(), to)
    }
}

/// The children of stop `p` among the first `n` stops, in order, each with
/// no walk.
pub open spec fn children_upto(stops: Seq<FeedStop>, p: nat, n: nat) -> Seq<(StopIdx, Duration)>
    decreases n,
{
    if n == 0 {
        Seq::empty()
    } else {
        let rest = children_upto(stops, p, (n - 1) as nat);
        if stops[n - 1].parent_station == Some(p as u32) {
            rest.push((StopIdx((n - 1) as u32), Duration(0)))
        } else {
            rest
        }
    }
}

/// The stop-level tables of `tt` are those of the feed: stop ids,
/// footpaths, transfer times (the feed's, else the default), station
/// children; no closure is declared.
pub open spec fn stops_from(tt: GtfsTimetable, feed: GtfsFeed) -> bool {
    let ns = feed.stops@.len();
    &&& tt.stop_ids@.len() == ns
    &&& forall|s: int| 0 <= s < ns ==> (#[trigger] tt.stop_ids@[s])@ == feed.stops@[s].id@
    &&& forall|s: int| 0 <= s < ns ==> (#[trigger] tt.footpaths_for_stops@[s])@ == resolved_transfers(feed.stops@[s].transfers@)
    &&& forall|s: nat, t: nat|
        s < ns && t < ns ==> (#[trigger] crate::timetable::Timetable::transfer_secs(&tt, s, t)) == match last_min_time(
            feed.stops@[s as int].transfers@,
            t,
        ) {
            Some(m) => m,
            None => default_transfer_secs(),
        }
    &&& forall|s: int| 0 <= s < ns ==> (#[trigger] tt.station_children@[s])@ == children_upto(feed.stops@, s as nat, ns)
    &&& !tt.transfers_closed
}

/// Trip `t` of `tt` is the feed trip it came from: same id, a route with
/// that trip's stop sequence and GTFS route, and the same times.
pub open spec fn trip_faithful(tt: GtfsTimetable, feed: GtfsFeed, t: int) -> bool {
    let i = tt.trip_source@[t] as int;
    let (r, k) = tt.route_for_trip@[t];
    let sts = feed.trips@[i].stop_times@;
    &&& 0 <= i < feed.trips@.len()
    &&& tt.trip_ids@[t]@ == feed.trips@[i].id@
    &&& tt.stops_for_route@[r.0 as int]@ == stop_sequence(feed.trips@[i])
    &&& tt.route_ids@[r.0 as int]@ == feed.route_ids@[feed.trips@[i].route as int]@
    &&& forall|p: int|
        0 <= p < sts.len() ==> tt.departure_times@[r.0 as int]@[p]@[k as int] == departure_of(#[trigger] sts[p])
            && tt.arrival_times@[r.0 as int]@[p]@[k as int] == arrival_or_max(sts[p])
}

/// A trip that the feed's data lets the timetable use: no error, and all
/// departure times given.
pub open spec fn trip_usable(trip: FeedTrip) -> bool {
    &&& trip_error(trip) is None
    &&& departures_given(trip.stop_times@, trip.stop_times@.len() as int)
}

proof fn lemma_no_error_usable(trip: FeedTrip)
    requires
        trip_error(trip) is None,
    ensures
        trip.stop_times@.len() >= 1,
        forall|p: int| 0 <= p < trip.stop_times@.len() ==> !bad_stop_time(#[trigger] trip.stop_times@[p]),
        departures_given(trip.stop_times@, trip.stop_times@.len() as int),
{
    let sts = trip.stop_times@;
    assert forall|p: int| 0 <= p < sts.len() implies !bad_stop_time(#[trigger] sts[p]) by {
        if bad_stop_time(sts[p]) {
            lemma_first_bad_exists(sts, p);
        }
    }
}

proof fn lemma_first_bad_exists(sts: Seq<FeedStopTime>, p: int)
    requires
        0 <= p < sts.len(),
        bad_stop_time(sts[p]),
    ensures
        exists|q: int| first_bad(sts, q),
    decreases p,
{
    if exists|q: int| 0 <= q < p && bad_stop_time(#[trigger] sts[q]) {
        let q = choose|q: int| 0 <= q < p && bad_stop_time(#[trigger] sts[q]);
        lemma_first_bad_exists(sts, q);
    } else {
        assert(first_bad(sts, p));
    }
}

/// Checks a trip and returns its stop sequence, or the error the trip
/// shows (see [`trip_error`]).
fn check_trip(trip: &FeedTrip) -> (r: Result<Vec<StopIdx>, GtfsError>)
    ensures
        match r {
            Ok(seq) => trip_error(*trip) is None && seq@ == stop_sequence(*trip),
            Err(e) => trip_error(*trip) == Some(e.kind()),
        },
{
    let sts = &trip.stop_times;
    if sts.len() == 0 {
        return Err(GtfsError::MissingStopTimes(trip.id.clone()));
    }
    let mut seq: Vec<StopIdx> = Vec::new();
    let mut p: usize = 0;
    while p < sts.len()
        invariant
            sts == &trip.stop_times,
            p <= sts@.len(),
            forall|q: int| 0 <= q < p ==> !bad_stop_time(#[trigger] sts@[q]),
            seq@ == Seq::new(p as nat, |q: int| StopIdx(sts@[q].stop->0)),
        decreases sts@.len() - p,
    {
        let st = &sts[p];
        match st.stop {
            None => {
                proof {
                    assert(first_bad(sts@, p as int));
                    assert forall|q: int| first_bad(sts@, q) implies q == p by {
                        if q < p {
                            assert(!bad_stop_time(sts@[q]));
                        }
                        if q > p {
                            assert(!bad_stop_time(sts@[p as int]));
                        }
                    }
                }
                return Err(GtfsError::MissingStop(st.stop_id.clone()));
            },
            Some(s) => {
                if st.departure_time.is_none() {
                    proof {
                        assert(first_bad(sts@, p as int));
                        assert forall|q: int| first_bad(sts@, q) implies q == p by {
                            if q < p {
                                assert(!bad_stop_time(sts@[q]));
                            }
                            if q > p {
                                assert(!bad_stop_time(sts@[p as int]));
                            }
                        }
                    }
                    return Err(GtfsError::MissingDepartureTime { trip: trip.id.clone(), stop: st.stop_id.clone() });
                }
                seq.push(StopIdx(s));
                assert(seq@ =~= Seq::new((p + 1) as nat, |q: int| StopIdx(sts@[q].stop->0)));
            },
        }
        p = p + 1;
    }
    proof {
        assert forall|q: int| !first_bad(sts@, q) by {
            if 0 <= q < sts@.len() {
                assert(!bad_stop_time(sts@[q]));
            }
        }
    }
    Ok(seq)
}


/// The trips `members` of the feed can form one route with stop sequence
/// `seq` of GTFS route `route_key`: each is usable, has that sequence and
/// route, and their departures are ordered at every position.
pub open spec fn route_members_ok(feed: GtfsFeed, route_key: u32, seq: Seq<StopIdx>, members: Seq<usize>) -> bool {
    &&& forall|k: int|
        0 <= k < members.len() ==> {
            let m = #[trigger] members[k] as int;
            &&& 0 <= m < feed.trips@.len()
            &&& trip_usable(feed.trips@[m])
            &&& stop_sequence(feed.trips@[m]) == seq
            &&& feed.trips@[m].route == route_key
        }
    &&& forall|a: int, b: int, p: int|
        0 <= a <= b < members.len() && 0 <= p < seq.len() ==> departure_of(
            #[trigger] feed.trips@[members[a] as int].stop_times@[p],
        ) <= departure_of(#[trigger] feed.trips@[members[b] as int].stop_times@[p])
}

/// Stop `s` lists route `r` at a position no later than `p`.
pub open spec fn listed(rfs: Seq<Vec<(RouteIdx, u32)>>, s: int, r: RouteIdx, p: int) -> bool {
    exists|i: int| 0 <= i < rfs[s]@.len() && (#[trigger] rfs[s]@[i]).0 == r && rfs[s]@[i].1 <= p
}

/// Every stop of every route lists that route at a position no later than
/// where the stop occurs; with the representation invariant, at the stop's
/// first position on the route.
pub open spec fn routes_indexed(tt: GtfsTimetable) -> bool {
    forall|r: int, p: int|
        0 <= r < tt.stops_for_route@.len() && 0 <= p < tt.stops_for_route@[r]@.len() ==> listed(
            tt.routes_for_stop@,
            (#[trigger] tt.stops_for_route@[r]@[p]).0 as int,
            RouteIdx(r as u32),
            p,
        )
}

/// Within every route, no trip overtakes any earlier one: of two trips of
/// a route, the feed trip the later one comes from never departs, nor
/// (when both arrival times are given) arrives, before the earlier one's
/// at a stop.
pub open spec fn routes_non_overtaking(tt: GtfsTimetable, feed: GtfsFeed) -> bool {
    forall|t1: int, t2: int|
        0 <= t1 < tt.route_for_trip@.len() && 0 <= t2 < tt.route_for_trip@.len() && (#[trigger] tt.route_for_trip@[t1]).0
            == (#[trigger] tt.route_for_trip@[t2]).0 && tt.route_for_trip@[t1].1 < tt.route_for_trip@[t2].1
            ==> !overtakes_spec(
            feed.trips@[tt.trip_source@[t1] as int].stop_times@,
            feed.trips@[tt.trip_source@[t2] as int].stop_times@,
        )
}

/// Appends one route with stop sequence `seq` whose trips are `members`,
/// in that order: each member becomes the next trip, the route's
/// departure and arrival rows hold the members' times, and every stop of
/// `seq` lists the route once, at its earliest position.
fn add_route(tt: &mut GtfsTimetable, feed: &GtfsFeed, route_key: u32, seq: &Vec<StopIdx>, members: &Vec<usize>)
    requires
        old(tt).inv(),
        feed_ok(*feed),
        old(tt).stop_ids@.len() == feed.stops@.len(),
        route_key < feed.route_ids@.len(),
        seq@.len() < u32::MAX,
        forall|i: int| 0 <= i < seq@.len() ==> (#[trigger] seq@[i]).0 < feed.stops@.len(),
        old(tt).stops_for_route@.len() + 1 < u32::MAX,
        old(tt).trip_ids@.len() + members@.len() < u32::MAX,
        route_members_ok(*feed, route_key, seq@, members@),
        routes_non_overtaking(*old(tt), *feed),
        routes_indexed(*old(tt)),
        forall|a: int, b: int|
            0 <= a < b < members@.len() ==> !overtakes_spec(
                feed.trips@[#[trigger] members@[a] as int].stop_times@,
                feed.trips@[#[trigger] members@[b] as int].stop_times@,
            ),
    ensures
        routes_non_overtaking(*final(tt), *feed),
        routes_indexed(*final(tt)),
        final(tt).inv(),
        final(tt).stop_ids == old(tt).stop_ids,
        final(tt).footpaths_for_stops == old(tt).footpaths_for_stops,
        final(tt).transfer_times == old(tt).transfer_times,
        final(tt).station_children == old(tt).station_children,
        final(tt).transfers_closed == old(tt).transfers_closed,
        final(tt).trip_source@ == old(tt).trip_source@ + members@.map_values(|m: usize| m as u32),
        final(tt).trip_ids@.len() == old(tt).trip_ids@.len() + members@.len(),
        final(tt).stops_for_route@.len() == old(tt).stops_for_route@.len() + 1,
        forall|t: int| 0 <= t < old(tt).trip_ids@.len() ==> trip_faithful(*old(tt), *feed, t) ==> #[trigger] trip_faithful(
            *final(tt),
            *feed,
            t,
        ),
        forall|t: int| old(tt).trip_ids@.len() <= t < final(tt).trip_ids@.len() ==> #[trigger] trip_faithful(*final(tt), *feed, t),
{
    let ghost old_tt = *tt;
    let ghost ms = members@;
    let nr = tt.stops_for_route.len();
    let route = RouteIdx(nr as u32);
    let n = seq.len();
    let m = members.len();
    // The route's rows.
    let mut dep_table: Vec<Vec<u32>> = Vec::new();
    let mut arr_table: Vec<Vec<u32>> = Vec::new();
    let mut p: usize = 0;
    while p < n
        invariant
            p <= n,
            n == seq@.len(),
            m == members@.len(),
            ms == members@,
            route_members_ok(*feed, route_key, seq@, ms),
            dep_table@.len() == p,
            arr_table@.len() == p,
            forall|q: int, k: int| 0 <= q < p && 0 <= k < m ==> #[trigger] dep_table@[q]@[k] == departure_of(feed.trips@[ms[k] as int].stop_times@[q]),
            forall|q: int, k: int| 0 <= q < p && 0 <= k < m ==> #[trigger] arr_table@[q]@[k] == arrival_or_max(feed.trips@[ms[k] as int].stop_times@[q]),
            forall|q: int| 0 <= q < p ==> (#[trigger] dep_table@[q])@.len() == m,
            forall|q: int| 0 <= q < p ==> (#[trigger] arr_table@[q])@.len() == m,
        decreases n - p,
    {
        let mut drow: Vec<u32> = Vec::new();
        let mut arow: Vec<u32> = Vec::new();
        let mut k: usize = 0;
        while k < m
            invariant
                p < n,
                n == seq@.len(),
                m == members@.len(),
                ms == members@,
                route_members_ok(*feed, route_key, seq@, ms),
                k <= m,
                drow@.len() == k,
                arow@.len() == k,
                forall|j: int| 0 <= j < k ==> #[trigger] drow@[j] == departure_of(feed.trips@[ms[j] as int].stop_times@[p as int]),
                forall|j: int| 0 <= j < k ==> #[trigger] arow@[j] == arrival_or_max(feed.trips@[ms[j] as int].stop_times@[p as int]),
            decreases m - k,
        {
            let mi = members[k];
            assert(trip_usable(feed.trips@[mi as int]) && stop_sequence(feed.trips@[mi as int]) == seq@);
            assert(feed.trips@[mi as int].stop_times@.len() == n);
            let st = &feed.trips[mi].stop_times[p];
            assert(departures_given(feed.trips@[mi as int].stop_times@, n as int));
            assert(st.departure_time is Some);
            let d = match st.departure_time {
                Some(d) => d,
                None => 0,
            };
            let a = match st.arrival_time {
                Some(a) => a,
                None => u32::MAX,
            };
            drow.push(d);
            arow.push(a);
            k = k + 1;
        }
        let ghost d0 = dep_table@;
        let ghost a0 = arr_table@;
        dep_table.push(drow);
        arr_table.push(arow);
        proof {
            assert forall|q: int, k: int| 0 <= q < p + 1 && 0 <= k < m implies #[trigger] dep_table@[q]@[k] == departure_of(
                feed.trips@[ms[k] as int].stop_times@[q],
            ) by {
                if q < p {
                    assert(dep_table@[q] == d0[q]);
                }
            }
            assert forall|q: int, k: int| 0 <= q < p + 1 && 0 <= k < m implies #[trigger] arr_table@[q]@[k] == arrival_or_max(
                feed.trips@[ms[k] as int].stop_times@[q],
            ) by {
                if q < p {
                    assert(arr_table@[q] == a0[q]);
                }
            }
            assert forall|q: int| 0 <= q < p + 1 implies (#[trigger] dep_table@[q])@.len() == m by {
                if q < p {
                    assert(dep_table@[q] == d0[q]);
                }
            }
            assert forall|q: int| 0 <= q < p + 1 implies (#[trigger] arr_table@[q])@.len() == m by {
                if q < p {
                    assert(arr_table@[q] == a0[q]);
                }
            }
        }
        p = p + 1;
    }
    // The trips.
    let nt = tt.trip_ids.len();
    let mut trip_idxs: Vec<TripIdx> = Vec::new();
    let mut k: usize = 0;
    while k < m
        invariant
            m == members@.len(),
            ms == members@,
            route_members_ok(*feed, route_key, seq@, ms),
            k <= m,
            nt == old_tt.trip_ids@.len(),
            nt + m < u32::MAX,
            nr == old_tt.stops_for_route@.len(),
            route == RouteIdx(nr as u32),
            tt.trip_ids@.len() == nt + k,
            tt.trip_source@ == old_tt.trip_source@ + ms.subrange(0, k as int).map_values(|m: usize| m as u32),
            tt.route_for_trip@.len() == nt + k,
            trip_idxs@.len() == k,
            forall|t: int| 0 <= t < nt ==> #[trigger] tt.trip_ids@[t] == old_tt.trip_ids@[t],
            forall|t: int| 0 <= t < nt ==> #[trigger] tt.route_for_trip@[t] == old_tt.route_for_trip@[t],
            forall|j: int| 0 <= j < k ==> (#[trigger] tt.trip_ids@[nt + j])@ == feed.trips@[ms[j] as int].id@,
            forall|j: int| 0 <= j < k ==> #[trigger] tt.route_for_trip@[nt + j] == (route, j as usize),
            forall|j: int| 0 <= j < k ==> #[trigger] trip_idxs@[j] == TripIdx((nt + j) as u32),
            tt.stop_ids == old_tt.stop_ids,
            tt.route_ids == old_tt.route_ids,
            tt.routes_for_stop == old_tt.routes_for_stop,
            tt.stops_for_route == old_tt.stops_for_route,
            tt.trips_for_route == old_tt.trips_for_route,
            tt.arrival_times == old_tt.arrival_times,
            tt.departure_times == old_tt.departure_times,
            tt.footpaths_for_stops == old_tt.footpaths_for_stops,
            tt.transfer_times == old_tt.transfer_times,
            tt.transfers_closed == old_tt.transfers_closed,
            tt.station_children == old_tt.station_children,
        decreases m - k,
    {
        let mi = members[k];
        let ghost ids0 = tt.trip_ids@;
        let ghost rft0 = tt.route_for_trip@;
        let ghost src0 = tt.trip_source@;
        tt.trip_ids.push(feed.trips[mi].id.clone());
        tt.trip_source.push(mi as u32);
        tt.route_for_trip.push((route, k));
        trip_idxs.push(TripIdx((nt + k) as u32));
        proof {
            assert(ms.subrange(0, k + 1).map_values(|m: usize| m as u32) =~= ms.subrange(0, k as int).map_values(|m: usize| m as u32).push(mi as u32));
            assert forall|t: int| 0 <= t < nt implies #[trigger] tt.trip_ids@[t] == old_tt.trip_ids@[t] by {
                assert(tt.trip_ids@[t] == ids0[t]);
            }
            assert forall|t: int| 0 <= t < nt implies #[trigger] tt.route_for_trip@[t] == old_tt.route_for_trip@[t] by {
                assert(tt.route_for_trip@[t] == rft0[t]);
            }
            assert forall|j: int| 0 <= j < k + 1 implies (#[trigger] tt.trip_ids@[nt + j])@ == feed.trips@[ms[j] as int].id@ by {
                if j < k {
                    assert(tt.trip_ids@[nt + j] == ids0[nt + j]);
                }
            }
            assert forall|j: int| 0 <= j < k + 1 implies #[trigger] tt.route_for_trip@[nt + j] == (route, j as usize) by {
                if j < k {
                    assert(tt.route_for_trip@[nt + j] == rft0[nt + j]);
                }
            }
        }
        k = k + 1;
    }
    assert(ms.subrange(0, m as int) =~= ms);
    // The route.
    let ghost before_route = *tt;
    tt.route_ids.push(feed.route_ids[route_key as usize].clone());
    let mut seq_copy: Vec<StopIdx> = Vec::new();
    let mut q: usize = 0;
    while q < n
        invariant
            q <= n,
            n == seq@.len(),
            seq_copy@ == seq@.subrange(0, q as int),
        decreases n - q,
    {
        seq_copy.push(seq[q]);
        assert(seq_copy@ =~= seq@.subrange(0, q + 1));
        q = q + 1;
    }
    assert(seq_copy@ =~= seq@);
    tt.stops_for_route.push(seq_copy);
    tt.trips_for_route.push(trip_idxs);
    tt.departure_times.push(dep_table);
    tt.arrival_times.push(arr_table);
    let ghost after_route = *tt;
    // The stop index.
    let mut q2: usize = 0;
    while q2 < n
        invariant
            q2 <= n,
            n == seq@.len(),
            n < u32::MAX,
            nr == old_tt.stops_for_route@.len(),
            route == RouteIdx(nr as u32),
            forall|i: int| 0 <= i < seq@.len() ==> (#[trigger] seq@[i]).0 < feed.stops@.len(),
            tt.stop_ids == old_tt.stop_ids,
            tt.stop_ids@.len() == feed.stops@.len(),
            tt.routes_for_stop@.len() == old_tt.routes_for_stop@.len(),
            old_tt.routes_for_stop@.len() == old_tt.stop_ids@.len(),
            tt.route_ids == after_route.route_ids,
            tt.stops_for_route == after_route.stops_for_route,
            tt.trips_for_route == after_route.trips_for_route,
            tt.departure_times == after_route.departure_times,
            tt.arrival_times == after_route.arrival_times,
            tt.trip_ids == after_route.trip_ids,
            tt.trip_source == after_route.trip_source,
            tt.route_for_trip == after_route.route_for_trip,
            tt.footpaths_for_stops == old_tt.footpaths_for_stops,
            tt.transfer_times == old_tt.transfer_times,
            tt.transfers_closed == old_tt.transfers_closed,
            tt.station_children == old_tt.station_children,
            forall|s: int, i: int|
                0 <= s < tt.routes_for_stop@.len() && 0 <= i < tt.routes_for_stop@[s]@.len() ==> {
                    let (r, p) = #[trigger] tt.routes_for_stop@[s]@[i];
                    ||| r.0 < nr && p < old_tt.stops_for_route@[r.0 as int]@.len() && old_tt.stops_for_route@[r.0 as int]@[p as int].0 == s
                    ||| r == route && p < n && seq@[p as int].0 == s
                },
            forall|s: int| 0 <= s < tt.routes_for_stop@.len() ==> (#[trigger] tt.routes_for_stop@[s])@.len() >= old_tt.routes_for_stop@[s]@.len(),
            forall|s: int, i: int|
                0 <= s < tt.routes_for_stop@.len() && 0 <= i < old_tt.routes_for_stop@[s]@.len() ==> #[trigger] tt.routes_for_stop@[s]@[i]
                    == old_tt.routes_for_stop@[s]@[i],
            forall|s: int, i: int|
                0 <= s < tt.routes_for_stop@.len() && 0 <= i < tt.routes_for_stop@[s]@.len() && (#[trigger] tt.routes_for_stop@[s]@[i]).0
                    == route ==> tt.routes_for_stop@[s]@[i].1 < q2,
            forall|q: int| 0 <= q < q2 ==> listed(tt.routes_for_stop@, (#[trigger] seq@[q]).0 as int, route, q),
        decreases n - q2,
    {
        let s = seq[q2];
        let ghost rfs0 = tt.routes_for_stop@;
        let entry = &tt.routes_for_stop[s.0 as usize];
        let mut present = false;
        let mut e: usize = 0;
        while e < entry.len()
            invariant
                e <= entry@.len(),
                present <==> exists|i: int| 0 <= i < e && (#[trigger] entry@[i]).0 == route,
            decreases entry@.len() - e,
        {
            if entry[e].0 == route {
                present = true;
            }
            e = e + 1;
        }
        proof {
            if present {
                let i = choose|i: int| 0 <= i < entry@.len() && (#[trigger] entry@[i]).0 == route;
                assert(tt.routes_for_stop@[s.0 as int]@[i].0 == route);
                assert(listed(tt.routes_for_stop@, s.0 as int, route, q2 as int));
            }
        }
        if !present {
            tt.routes_for_stop[s.0 as usize].push((route, q2 as u32));
            proof {
                let new_rfs = tt.routes_for_stop@;
                assert(new_rfs[s.0 as int]@[new_rfs[s.0 as int]@.len() - 1] == (route, q2 as u32));
                assert(listed(new_rfs, s.0 as int, route, q2 as int));
                assert forall|q: int| 0 <= q < q2 implies listed(new_rfs, (#[trigger] seq@[q]).0 as int, route, q) by {
                    assert(listed(rfs0, seq@[q].0 as int, route, q));
                    let i = choose|i: int| 0 <= i < rfs0[seq@[q].0 as int]@.len() && (#[trigger] rfs0[seq@[q].0 as int]@[i]).0 == route
                        && rfs0[seq@[q].0 as int]@[i].1 <= q;
                    if seq@[q].0 as int == s.0 as int {
                        assert(new_rfs[s.0 as int]@[i] == rfs0[s.0 as int]@[i]);
                    } else {
                        assert(new_rfs[seq@[q].0 as int] == rfs0[seq@[q].0 as int]);
                    }
                }
                assert forall|s2: int| 0 <= s2 < new_rfs.len() implies (#[trigger] new_rfs[s2])@.len() >= old_tt.routes_for_stop@[s2]@.len() by {
                    if s2 != s.0 {
                        assert(new_rfs[s2] == rfs0[s2]);
                    }
                }
                assert forall|s2: int, i: int|
                    0 <= s2 < new_rfs.len() && 0 <= i < old_tt.routes_for_stop@[s2]@.len() implies #[trigger] new_rfs[s2]@[i]
                        == old_tt.routes_for_stop@[s2]@[i] by {
                    if s2 != s.0 {
                        assert(new_rfs[s2] == rfs0[s2]);
                    } else {
                        assert(rfs0[s2]@[i] == old_tt.routes_for_stop@[s2]@[i]);
                        assert(new_rfs[s2]@[i] == rfs0[s2]@[i]);
                    }
                }
                assert forall|s2: int, i: int|
                    0 <= s2 < new_rfs.len() && 0 <= i < new_rfs[s2]@.len() && (#[trigger] new_rfs[s2]@[i]).0 == route
                        implies new_rfs[s2]@[i].1 < q2 + 1 by {
                    if s2 != s.0 {
                        assert(new_rfs[s2] == rfs0[s2]);
                    } else if i < rfs0[s2]@.len() {
                        assert(new_rfs[s2]@[i] == rfs0[s2]@[i]);
                    }
                }
            }
            proof {
                assert forall|s2: int, i: int|
                    0 <= s2 < tt.routes_for_stop@.len() && 0 <= i < tt.routes_for_stop@[s2]@.len() implies {
                        let (r, p) = #[trigger] tt.routes_for_stop@[s2]@[i];
                        ||| r.0 < nr && p < old_tt.stops_for_route@[r.0 as int]@.len() && old_tt.stops_for_route@[r.0 as int]@[p as int].0 == s2
                        ||| r == route && p < n && seq@[p as int].0 == s2
                    } by {
                    if s2 != s.0 {
                        assert(tt.routes_for_stop@[s2] == rfs0[s2]);
                    } else if i < rfs0[s2]@.len() {
                        assert(tt.routes_for_stop@[s2]@[i] == rfs0[s2]@[i]);
                    }
                }
            }
        }
        q2 = q2 + 1;
    }
    proof {
        let ft = *tt;
        assert forall|r: int, p: int|
            0 <= r < ft.stops_for_route@.len() && 0 <= p < ft.stops_for_route@[r]@.len() implies listed(
            ft.routes_for_stop@,
            (#[trigger] ft.stops_for_route@[r]@[p]).0 as int,
            RouteIdx(r as u32),
            p,
        ) by {
            if r < nr {
                assert(ft.stops_for_route@[r] == old_tt.stops_for_route@[r]);
                let st = old_tt.stops_for_route@[r]@[p].0 as int;
                assert(listed(old_tt.routes_for_stop@, st, RouteIdx(r as u32), p));
                let i = choose|i: int| 0 <= i < old_tt.routes_for_stop@[st]@.len() && (#[trigger] old_tt.routes_for_stop@[st]@[i]).0
                    == RouteIdx(r as u32) && old_tt.routes_for_stop@[st]@[i].1 <= p;
                assert(ft.routes_for_stop@[st]@[i] == old_tt.routes_for_stop@[st]@[i]);
            } else {
                assert(ft.stops_for_route@[nr as int]@[p] == seq@[p]);
                assert(listed(ft.routes_for_stop@, seq@[p].0 as int, route, p));
            }
        }
        assert forall|t1: int, t2: int|
            0 <= t1 < ft.route_for_trip@.len() && 0 <= t2 < ft.route_for_trip@.len() && (#[trigger] ft.route_for_trip@[t1]).0
                == (#[trigger] ft.route_for_trip@[t2]).0 && ft.route_for_trip@[t1].1 < ft.route_for_trip@[t2].1
            implies !overtakes_spec(
            feed.trips@[ft.trip_source@[t1] as int].stop_times@,
            feed.trips@[ft.trip_source@[t2] as int].stop_times@,
        ) by {
            if t1 < nt && t2 < nt {
                assert(ft.route_for_trip@[t1] == old_tt.route_for_trip@[t1]);
                assert(ft.route_for_trip@[t2] == old_tt.route_for_trip@[t2]);
                assert(ft.trip_source@[t1] == old_tt.trip_source@[t1]);
                assert(ft.trip_source@[t2] == old_tt.trip_source@[t2]);
            } else if t1 >= nt && t2 >= nt {
                let j1 = t1 - nt;
                let j2 = t2 - nt;
                assert(ft.route_for_trip@[nt + j1] == (route, j1 as usize));
                assert(ft.route_for_trip@[nt + j2] == (route, j2 as usize));
                assert(ft.trip_source@[t1] == ms[j1] as u32);
                assert(ft.trip_source@[t2] == ms[j2] as u32);
                assert(j1 < j2);
                assert(ms[j1] < feed.trips@.len() && ms[j2] < feed.trips@.len());
            } else if t1 < nt {
                assert(ft.route_for_trip@[t1] == old_tt.route_for_trip@[t1]);
                assert(ft.route_for_trip@[nt + (t2 - nt)] == (route, (t2 - nt) as usize));
            } else {
                assert(ft.route_for_trip@[t2] == old_tt.route_for_trip@[t2]);
                assert(ft.route_for_trip@[nt + (t1 - nt)] == (route, (t1 - nt) as usize));
            }
        }
        assert(ft.stops_for_route@[nr as int]@ == seq@);
        assert forall|r: int| 0 <= r < nr implies #[trigger] ft.stops_for_route@[r] == old_tt.stops_for_route@[r] by {
        }
        lemma_add_route_inv(old_tt, ft, *feed, route_key, seq@, ms);
    }
}

proof fn lemma_add_route_inv(old_tt: GtfsTimetable, ft: GtfsTimetable, feed: GtfsFeed, route_key: u32, seq: Seq<StopIdx>, ms: Seq<usize>)
    requires
        old_tt.inv(),
        feed_ok(feed),
        old_tt.stop_ids@.len() == feed.stops@.len(),
        route_key < feed.route_ids@.len(),
        seq.len() < u32::MAX,
        forall|i: int| 0 <= i < seq.len() ==> (#[trigger] seq[i]).0 < feed.stops@.len(),
        old_tt.stops_for_route@.len() + 1 < u32::MAX,
        old_tt.trip_ids@.len() + ms.len() < u32::MAX,
        route_members_ok(feed, route_key, seq, ms),
        ft.stop_ids == old_tt.stop_ids,
        ft.footpaths_for_stops == old_tt.footpaths_for_stops,
        ft.station_children == old_tt.station_children,
        ft.routes_for_stop@.len() == old_tt.routes_for_stop@.len(),
        ft.route_ids@ == old_tt.route_ids@.push(ft.route_ids@[old_tt.route_ids@.len() as int]),
        ft.route_ids@[old_tt.route_ids@.len() as int]@ == feed.route_ids@[route_key as int]@,
        ft.stops_for_route@.len() == old_tt.stops_for_route@.len() + 1,
        forall|r: int| 0 <= r < old_tt.stops_for_route@.len() ==> #[trigger] ft.stops_for_route@[r] == old_tt.stops_for_route@[r],
        ft.stops_for_route@[old_tt.stops_for_route@.len() as int]@ == seq,
        ft.trips_for_route@.len() == old_tt.trips_for_route@.len() + 1,
        forall|r: int| 0 <= r < old_tt.trips_for_route@.len() ==> #[trigger] ft.trips_for_route@[r] == old_tt.trips_for_route@[r],
        ft.trips_for_route@[old_tt.trips_for_route@.len() as int]@.len() == ms.len(),
        forall|j: int| 0 <= j < ms.len() ==> #[trigger] ft.trips_for_route@[old_tt.trips_for_route@.len() as int]@[j] == TripIdx(
            (old_tt.trip_ids@.len() + j) as u32,
        ),
        ft.departure_times@.len() == old_tt.departure_times@.len() + 1,
        ft.arrival_times@.len() == old_tt.arrival_times@.len() + 1,
        forall|r: int| 0 <= r < old_tt.departure_times@.len() ==> #[trigger] ft.departure_times@[r] == old_tt.departure_times@[r],
        forall|r: int| 0 <= r < old_tt.arrival_times@.len() ==> #[trigger] ft.arrival_times@[r] == old_tt.arrival_times@[r],
        ft.departure_times@[old_tt.departure_times@.len() as int]@.len() == seq.len(),
        ft.arrival_times@[old_tt.arrival_times@.len() as int]@.len() == seq.len(),
        forall|q: int, k: int|
            0 <= q < seq.len() && 0 <= k < ms.len() ==> #[trigger] ft.departure_times@[old_tt.departure_times@.len() as int]@[q]@[k]
                == departure_of(feed.trips@[ms[k] as int].stop_times@[q]),
        forall|q: int, k: int|
            0 <= q < seq.len() && 0 <= k < ms.len() ==> #[trigger] ft.arrival_times@[old_tt.arrival_times@.len() as int]@[q]@[k]
                == arrival_or_max(feed.trips@[ms[k] as int].stop_times@[q]),
        forall|q: int| 0 <= q < seq.len() ==> (#[trigger] ft.departure_times@[old_tt.departure_times@.len() as int]@[q])@.len() == ms.len(),
        forall|q: int| 0 <= q < seq.len() ==> (#[trigger] ft.arrival_times@[old_tt.arrival_times@.len() as int]@[q])@.len() == ms.len(),
        ft.trip_ids@.len() == old_tt.trip_ids@.len() + ms.len(),
        forall|t: int| 0 <= t < old_tt.trip_ids@.len() ==> #[trigger] ft.trip_ids@[t] == old_tt.trip_ids@[t],
        forall|j: int| 0 <= j < ms.len() ==> (#[trigger] ft.trip_ids@[old_tt.trip_ids@.len() + j])@ == feed.trips@[ms[j] as int].id@,
        ft.trip_source@ == old_tt.trip_source@ + ms.map_values(|m: usize| m as u32),
        ft.route_for_trip@.len() == old_tt.route_for_trip@.len() + ms.len(),
        forall|t: int| 0 <= t < old_tt.route_for_trip@.len() ==> #[trigger] ft.route_for_trip@[t] == old_tt.route_for_trip@[t],
        forall|j: int| 0 <= j < ms.len() ==> #[trigger] ft.route_for_trip@[old_tt.route_for_trip@.len() + j] == (
            RouteIdx(old_tt.stops_for_route@.len() as u32),
            j as usize,
        ),
        forall|s: int, i: int|
            0 <= s < ft.routes_for_stop@.len() && 0 <= i < ft.routes_for_stop@[s]@.len() ==> {
                let (r, p) = #[trigger] ft.routes_for_stop@[s]@[i];
                ||| r.0 < old_tt.stops_for_route@.len() && p < old_tt.stops_for_route@[r.0 as int]@.len()
                    && old_tt.stops_for_route@[r.0 as int]@[p as int].0 == s
                ||| r == RouteIdx(old_tt.stops_for_route@.len() as u32) && p < seq.len() && seq[p as int].0 == s
            },
    ensures
        ft.inv(),
        forall|t: int| 0 <= t < old_tt.trip_ids@.len() ==> trip_faithful(old_tt, feed, t) ==> #[trigger] trip_faithful(ft, feed, t),
        forall|t: int| old_tt.trip_ids@.len() <= t < ft.trip_ids@.len() ==> #[trigger] trip_faithful(ft, feed, t),
{
    let nr = old_tt.stops_for_route@.len() as int;
    let nt = old_tt.trip_ids@.len() as int;
    assert forall|r: int, p: int, a: int, b: int|
        0 <= r < ft.stops_for_route@.len() && 0 <= p < ft.stops_for_route@[r]@.len() && 0 <= a <= b < ft.trips_for_route@[r]@.len()
            implies #[trigger] ft.departure_times@[r]@[p]@[a] <= #[trigger] ft.departure_times@[r]@[p]@[b] by {
        if r == nr {
            assert(departure_of(feed.trips@[ms[a] as int].stop_times@[p]) <= departure_of(feed.trips@[ms[b] as int].stop_times@[p]));
        } else {
            assert(ft.departure_times@[r] == old_tt.departure_times@[r]);
            assert(ft.trips_for_route@[r] == old_tt.trips_for_route@[r]);
            assert(ft.stops_for_route@[r] == old_tt.stops_for_route@[r]);
        }
    }
    assert forall|t: int| 0 <= t < ft.trip_ids@.len() implies {
        let (r, k) = #[trigger] ft.route_for_trip@[t];
        &&& r.0 < ft.stops_for_route@.len()
        &&& k < ft.trips_for_route@[r.0 as int]@.len()
        &&& ft.trips_for_route@[r.0 as int]@[k as int] == TripIdx(t as u32)
    } by {
        if t < nt {
            let (r, k) = old_tt.route_for_trip@[t];
            assert(ft.trips_for_route@[r.0 as int] == old_tt.trips_for_route@[r.0 as int]);
        } else {
            assert(ft.route_for_trip@[nt + (t - nt)] == (RouteIdx(nr as u32), (t - nt) as usize));
            assert(ft.trips_for_route@[nr]@[t - nt] == TripIdx((nt + (t - nt)) as u32));
        }
    }
    assert forall|r: int, k: int| 0 <= r < ft.stops_for_route@.len() && 0 <= k < ft.trips_for_route@[r]@.len() implies (
    #[trigger] ft.trips_for_route@[r]@[k]).0 < ft.trip_ids@.len() && ft.route_for_trip@[ft.trips_for_route@[r]@[k].0 as int] == (
    RouteIdx(r as u32), k as usize) by {
        if r < nr {
            assert(ft.trips_for_route@[r] == old_tt.trips_for_route@[r]);
            let t = old_tt.trips_for_route@[r]@[k].0 as int;
            assert(ft.route_for_trip@[t] == old_tt.route_for_trip@[t]);
        } else {
            assert(ft.trips_for_route@[nr]@[k] == TripIdx((nt + k) as u32));
            assert(ft.route_for_trip@[nt + k] == (RouteIdx(nr as u32), k as usize));
        }
    }
    assert forall|r: int| 0 <= r < ft.stops_for_route@.len() implies (#[trigger] ft.stops_for_route@[r])@.len() < u32::MAX by {
        if r < nr {
            assert(ft.stops_for_route@[r] == old_tt.stops_for_route@[r]);
        }
    }
    assert forall|r: int, i: int|
        0 <= r < ft.stops_for_route@.len() && 0 <= i < ft.stops_for_route@[r]@.len() implies (
        #[trigger] ft.stops_for_route@[r]@[i]).0 < ft.stop_ids@.len() by {
        if r < nr {
            assert(ft.stops_for_route@[r] == old_tt.stops_for_route@[r]);
        }
    }
    assert forall|r: int| 0 <= r < ft.stops_for_route@.len() implies (#[trigger] ft.departure_times@[r])@.len()
        == ft.stops_for_route@[r]@.len() by {
        if r < nr {
            assert(ft.departure_times@[r] == old_tt.departure_times@[r]);
            assert(ft.stops_for_route@[r] == old_tt.stops_for_route@[r]);
        }
    }
    assert forall|r: int| 0 <= r < ft.stops_for_route@.len() implies (#[trigger] ft.arrival_times@[r])@.len()
        == ft.stops_for_route@[r]@.len() by {
        if r < nr {
            assert(ft.arrival_times@[r] == old_tt.arrival_times@[r]);
            assert(ft.stops_for_route@[r] == old_tt.stops_for_route@[r]);
        }
    }
    assert forall|r: int, p: int| 0 <= r < ft.stops_for_route@.len() && 0 <= p < ft.stops_for_route@[r]@.len() implies (
    #[trigger] ft.departure_times@[r]@[p])@.len() == ft.trips_for_route@[r]@.len() by {
        if r < nr {
            assert(ft.departure_times@[r] == old_tt.departure_times@[r]);
            assert(ft.stops_for_route@[r] == old_tt.stops_for_route@[r]);
            assert(ft.trips_for_route@[r] == old_tt.trips_for_route@[r]);
        }
    }
    assert forall|r: int, p: int| 0 <= r < ft.stops_for_route@.len() && 0 <= p < ft.stops_for_route@[r]@.len() implies (
    #[trigger] ft.arrival_times@[r]@[p])@.len() == ft.trips_for_route@[r]@.len() by {
        if r < nr {
            assert(ft.arrival_times@[r] == old_tt.arrival_times@[r]);
            assert(ft.stops_for_route@[r] == old_tt.stops_for_route@[r]);
            assert(ft.trips_for_route@[r] == old_tt.trips_for_route@[r]);
        }
    }
    assert forall|t: int| 0 <= t < nt && trip_faithful(old_tt, feed, t) implies #[trigger] trip_faithful(ft, feed, t) by {
        let (r, k) = old_tt.route_for_trip@[t];
        assert(ft.route_for_trip@[t] == old_tt.route_for_trip@[t]);
        assert(ft.trip_source@[t] == old_tt.trip_source@[t]);
        assert(ft.trip_ids@[t] == old_tt.trip_ids@[t]);
        assert(ft.stops_for_route@[r.0 as int] == old_tt.stops_for_route@[r.0 as int]);
        assert(ft.departure_times@[r.0 as int] == old_tt.departure_times@[r.0 as int]);
        assert(ft.arrival_times@[r.0 as int] == old_tt.arrival_times@[r.0 as int]);
        assert(ft.route_ids@[r.0 as int] == old_tt.route_ids@[r.0 as int]);
    }
    assert forall|t: int| nt <= t < ft.trip_ids@.len() implies #[trigger] trip_faithful(ft, feed, t) by {
        let j = t - nt;
        assert(ft.route_for_trip@[nt + j] == (RouteIdx(nr as u32), j as usize));
        assert(ft.trip_source@[t] == ms[j] as u32);
        assert(ft.trip_ids@[nt + j]@ == feed.trips@[ms[j] as int].id@);
        let i = ms[j] as int;
        assert(stop_sequence(feed.trips@[i]) == seq);
        assert(feed.trips@[i].stop_times@.len() == seq.len());
        assert forall|p: int| 0 <= p < feed.trips@[i].stop_times@.len() implies ft.departure_times@[nr]@[p]@[j] == departure_of(
            #[trigger] feed.trips@[i].stop_times@[p],
        ) && ft.arrival_times@[nr]@[p]@[j] == arrival_or_max(feed.trips@[i].stop_times@[p]) by {
        }
    }
}


/// Distinct values below `n` number at most `n`.
proof fn lemma_distinct_bound(s: Seq<u32>, n: nat)
    requires
        s.no_duplicates(),
        forall|i: int| 0 <= i < s.len() ==> (#[trigger] s[i]) < n,
    ensures
        s.len() <= n,
{
    let t = s.map_values(|x: u32| x as int);
    assert(t.no_duplicates()) by {
        assert forall|i: int, j: int| 0 <= i < t.len() && 0 <= j < t.len() && i != j implies t[i] != t[j] by {
            assert(s[i] != s[j]);
        }
    }
    t.unique_seq_to_set();
    vstd::set_lib::lemma_int_range(0, n as int);
    assert(t.to_set().subset_of(vstd::set_lib::set_int_range(0, n as int))) by {
        assert forall|x: int| #[trigger] t.to_set().contains(x) implies vstd::set_lib::set_int_range(0, n as int).contains(x) by {
            let i = choose|i: int| 0 <= i < t.len() && t[i] == x;
            assert(s[i] < n);
        }
    }
    vstd::set_lib::lemma_len_subset(t.to_set(), vstd::set_lib::set_int_range(0, n as int));
}

/// Along a chain of schedules of one length where none overtakes the one
/// before, departures never decrease at any position.
proof fn lemma_chain_monotone(scheds: Seq<Seq<FeedStopTime>>, grp: Seq<usize>, len: int, a: int, b: int, p: int)
    requires
        forall|j: int| 0 <= j < grp.len() ==> (#[trigger] grp[j]) < scheds.len(),
        forall|j: int| 0 <= j < grp.len() ==> (#[trigger] scheds[grp[j] as int]).len() == len,
        forall|j: int| 0 <= j && j + 1 < grp.len() ==> !overtakes_spec(scheds[#[trigger] grp[j] as int], scheds[grp[j + 1] as int]),
        0 <= a <= b < grp.len(),
        0 <= p < len,
    ensures
        departure_of(scheds[grp[a] as int][p]) <= departure_of(scheds[grp[b] as int][p]),
    decreases b - a,
{
    if a < b {
        lemma_chain_monotone(scheds, grp, len, a, b - 1, p);
        assert(grp[b - 1] < scheds.len());
        assert(!overtakes_spec(scheds[grp[b - 1] as int], scheds[grp[b] as int]));
        assert(!overtakes_at(scheds[grp[b - 1] as int], scheds[grp[b] as int], p));
    }
}

/// Whether two stop sequences are equal.
fn same_stops(a: &Vec<StopIdx>, b: &Vec<StopIdx>) -> (r: bool)
    ensures
        r == (a@ == b@),
{
    if a.len() != b.len() {
        return false;
    }
    let mut i: usize = 0;
    while i < a.len()
        invariant
            a@.len() == b@.len(),
            i <= a@.len(),
            forall|j: int| 0 <= j < i ==> a@[j] == b@[j],
        decreases a@.len() - i,
    {
        if a[i].0 != b[i].0 {
            assert(a@[i as int] != b@[i as int]);
            return false;
        }
        i = i + 1;
    }
    assert(a@ =~= b@);
    true
}

/// The trips `members` in order of first departure; trips that leave
/// together keep their order.
fn sort_by_first_departure(feed: &GtfsFeed, members: &Vec<usize>) -> (r: Vec<usize>)
    requires
        forall|k: int| 0 <= k < members@.len() ==> (#[trigger] members@[k]) < feed.trips@.len() && trip_usable(
            feed.trips@[members@[k] as int],
        ),
    ensures
        r@.len() == members@.len(),
        forall|x: usize| #[trigger] r@.contains(x) <==> members@.contains(x),
        members@.no_duplicates() ==> r@.no_duplicates(),
{
    let mut out: Vec<usize> = Vec::new();
    let mut i: usize = 0;
    while i < members.len()
        invariant
            i <= members@.len(),
            forall|k: int| 0 <= k < members@.len() ==> (#[trigger] members@[k]) < feed.trips@.len() && trip_usable(
                feed.trips@[members@[k] as int],
            ),
            out@.len() == i,
            forall|x: usize| #[trigger] out@.contains(x) <==> members@.subrange(0, i as int).contains(x),
            forall|k: int| 0 <= k < out@.len() ==> (#[trigger] out@[k]) < feed.trips@.len() && trip_usable(
                feed.trips@[out@[k] as int],
            ),
            members@.no_duplicates() ==> out@.no_duplicates(),
        decreases members@.len() - i,
    {
        let x = members[i];
        proof {
            lemma_no_error_usable(feed.trips@[x as int]);
        }
        let key = match feed.trips[x].stop_times[0].departure_time {
            Some(d) => d,
            None => 0,
        };
        let mut j: usize = 0;
        while j < out.len()
            invariant
                j <= out@.len(),
                forall|k: int| 0 <= k < out@.len() ==> (#[trigger] out@[k]) < feed.trips@.len() && trip_usable(
                    feed.trips@[out@[k] as int],
                ),
            decreases out@.len() - j,
        {
            let y = out[j];
            proof {
                lemma_no_error_usable(feed.trips@[y as int]);
            }
            let ky = match feed.trips[y].stop_times[0].departure_time {
                Some(d) => d,
                None => 0,
            };
            if ky > key {
                break;
            }
            j = j + 1;
        }
        let ghost o0 = out@;
        out.insert(j, x);
        proof {
            assert(members@.subrange(0, i + 1) =~= members@.subrange(0, i as int).push(x));
            assert forall|y: usize| #[trigger] out@.contains(y) <==> members@.subrange(0, i + 1).contains(y) by {
                if out@.contains(y) {
                    let w = choose|w: int| 0 <= w < out@.len() && out@[w] == y;
                    if w < j {
                        assert(o0[w] == y);
                        assert(o0.contains(y));
                    } else if w > j {
                        assert(o0[w - 1] == y);
                        assert(o0.contains(y));
                    }
                    if y != x {
                        assert(members@.subrange(0, i as int).contains(y));
                        let z = choose|z: int| 0 <= z < i && #[trigger] members@.subrange(0, i as int)[z] == y;
                        assert(members@.subrange(0, i + 1)[z] == y);
                    } else {
                        assert(members@.subrange(0, i + 1)[i as int] == y);
                    }
                }
                if members@.subrange(0, i + 1).contains(y) {
                    if y == x {
                        assert(out@[j as int] == x);
                    } else {
                        let z = choose|z: int| 0 <= z < i + 1 && #[trigger] members@.subrange(0, i + 1)[z] == y;
                        assert(z != i);
                        assert(members@.subrange(0, i as int)[z] == y);
                        assert(o0.contains(y));
                        let w = choose|w: int| 0 <= w < o0.len() && o0[w] == y;
                        if w < j {
                            assert(out@[w] == y);
                        } else {
                            assert(out@[w + 1] == y);
                        }
                    }
                }
            }
            assert forall|k: int| 0 <= k < out@.len() implies (#[trigger] out@[k]) < feed.trips@.len() && trip_usable(
                feed.trips@[out@[k] as int],
            ) by {
                if k < j {
                    assert(out@[k] == o0[k]);
                } else if k > j {
                    assert(out@[k] == o0[k - 1]);
                }
            }
            if members@.no_duplicates() {
                assert(!members@.subrange(0, i as int).contains(x)) by {
                    if members@.subrange(0, i as int).contains(x) {
                        let z = choose|z: int| 0 <= z < i && #[trigger] members@.subrange(0, i as int)[z] == x;
                        assert(members@[z] == members@[i as int]);
                    }
                }
                assert(!o0.contains(x));
                assert forall|a: int, b: int| 0 <= a < out@.len() && 0 <= b < out@.len() && a != b implies out@[a] != out@[b] by {
                    let ia = if a < j { a } else if a == j { -1 } else { a - 1 };
                    let ib = if b < j { b } else if b == j { -1 } else { b - 1 };
                    if a == j {
                        assert(out@[b] == o0[ib]);
                        assert(o0.contains(o0[ib]));
                    } else if b == j {
                        assert(out@[a] == o0[ia]);
                        assert(o0.contains(o0[ia]));
                    } else {
                        assert(out@[a] == o0[ia]);
                        assert(out@[b] == o0[ib]);
                    }
                }
            }
        }
        i = i + 1;
    }
    assert(members@.subrange(0, members@.len() as int) =~= members@);
    out
}


proof fn lemma_pair_key_value(a: u32, b: u32)
    ensures
        pair_key(a, b) == a * 4294967296 + b,
{
    assert(a * 4294967296 + b <= u64::MAX) by (nonlinear_arith)
        requires
            a <= u32::MAX,
            b <= u32::MAX,
    {
    }
}

/// Distinct stop pairs have distinct keys.
proof fn lemma_pair_key_injective(a: u32, b: u32, c: u32, d: u32)
    requires
        pair_key(a, b) == pair_key(c, d),
    ensures
        a == c,
        b == d,
{
    lemma_pair_key_value(a, b);
    lemma_pair_key_value(c, d);
    assert(a == c && b == d) by (nonlinear_arith)
        requires
            a * 4294967296 + b == c * 4294967296 + d,
            a <= u32::MAX,
            b <= u32::MAX,
            c <= u32::MAX,
            d <= u32::MAX,
            0 <= a,
            0 <= b,
            0 <= c,
            0 <= d,
    {
    }
}

/// The transfer times recorded for stops before `s`, and for stop `s` its
/// first `j` transfers.
pub open spec fn transfers_recorded(map: Map<u64, u32>, feed: GtfsFeed, s: int, j: int) -> bool {
    forall|a: u32, b: u32|
        a < feed.stops@.len() && b < feed.stops@.len() ==> {
            let want = if a < s {
                last_min_time(feed.stops@[a as int].transfers@, b as nat)
            } else if a == s {
                last_min_time(feed.stops@[a as int].transfers@.subrange(0, j), b as nat)
            } else {
                None
            };
            &&& #[trigger] map.contains_key(pair_key(a, b)) == want is Some
            &&& want is Some ==> map[pair_key(a, b)] == want->0
        }
}

/// The stop-level tables of the feed, with no routes or trips yet.
fn base_timetable(feed: &GtfsFeed) -> (tt: GtfsTimetable)
    requires
        feed_ok(*feed),
    ensures
        tt.inv(),
        stops_from(tt, *feed),
        tt.stops_for_route@.len() == 0,
        tt.trip_ids@.len() == 0,
        tt.trip_source@.len() == 0,
{
    let ns = feed.stops.len();
    let ghost stops = feed.stops@;
    let mut stop_ids: Vec<String> = Vec::new();
    let mut footpaths: Vec<Vec<StopIdx>> = Vec::new();
    let mut routes_for_stop: Vec<Vec<(RouteIdx, u32)>> = Vec::new();
    let mut children: Vec<Vec<(StopIdx, Duration)>> = Vec::new();
    let mut transfer_times: HashMap<u64, u32> = HashMap::new();
    let mut s: usize = 0;
    while s < ns
        invariant
            feed_ok(*feed),
            ns == feed.stops@.len(),
            stops == feed.stops@,
            s <= ns,
            stop_ids@.len() == s,
            footpaths@.len() == s,
            routes_for_stop@.len() == s,
            children@.len() == s,
            forall|a: int| 0 <= a < s ==> (#[trigger] stop_ids@[a])@ == stops[a].id@,
            forall|a: int| 0 <= a < s ==> (#[trigger] footpaths@[a])@ == resolved_transfers(stops[a].transfers@),
            forall|a: int| 0 <= a < s ==> (#[trigger] routes_for_stop@[a])@.len() == 0,
            forall|a: int| 0 <= a < s ==> (#[trigger] children@[a])@.len() == 0,
            transfers_recorded(transfer_times@, *feed, s as int, 0),
        decreases ns - s,
    {
        stop_ids.push(feed.stops[s].id.clone());
        let ts = &feed.stops[s].transfers;
        let mut fp: Vec<StopIdx> = Vec::new();
        let mut j: usize = 0;
        while j < ts.len()
            invariant
                feed_ok(*feed),
                ns == feed.stops@.len(),
                s < ns,
                ts == &feed.stops@[s as int].transfers,
                j <= ts@.len(),
                fp@ == resolved_transfers(ts@.subrange(0, j as int)),
                transfers_recorded(transfer_times@, *feed, s as int, j as int),
            decreases ts@.len() - j,
        {
            let tr = ts[j];
            proof {
                lemma_transfer_step(ts@, j as int);
            }
            let ghost m0 = transfer_times@;
            if let Some(t) = tr.to_stop {
                fp.push(StopIdx(t));
                if let Some(m) = tr.min_transfer_time {
                    let key = pair_key_exec(StopIdx(s as u32), StopIdx(t));
                    transfer_times.insert(key, m);
                }
            }
            proof {
                lemma_recorded_step(m0, transfer_times@, *feed, s as int, j as int);
            }
            j = j + 1;
        }
        proof {
            assert(ts@.subrange(0, ts@.len() as int) =~= ts@);
            lemma_recorded_next_stop(transfer_times@, *feed, s as int);
        }
        let ghost f0 = footpaths@;
        footpaths.push(fp);
        routes_for_stop.push(Vec::new());
        children.push(Vec::new());
        proof {
            assert forall|a: int| 0 <= a < s + 1 implies (#[trigger] footpaths@[a])@ == resolved_transfers(stops[a].transfers@) by {
                if a < s {
                    assert(footpaths@[a] == f0[a]);
                }
            }
        }
        s = s + 1;
    }
    // Station children.
    let mut c: usize = 0;
    while c < ns
        invariant
            feed_ok(*feed),
            ns == feed.stops@.len(),
            stops == feed.stops@,
            c <= ns,
            children@.len() == ns,
            forall|p: int| 0 <= p < ns ==> (#[trigger] children@[p])@ == children_upto(stops, p as nat, c as nat),
        decreases ns - c,
    {
        let ghost ch0 = children@;
        if let Some(p) = feed.stops[c].parent_station {
            assert(p < ns);
            children[p as usize].push((StopIdx(c as u32), Duration(0)));
            proof {
                assert forall|q: int| 0 <= q < ns implies (#[trigger] children@[q])@ == children_upto(stops, q as nat, (c + 1) as nat) by {
                    if q != p {
                        assert(children@[q] == ch0[q]);
                    }
                }
            }
        } else {
            proof {
                assert forall|q: int| 0 <= q < ns implies (#[trigger] children@[q])@ == children_upto(stops, q as nat, (c + 1) as nat) by {
                }
            }
        }
        c = c + 1;
    }
    let tt = GtfsTimetable {
        stop_ids,
        route_ids: Vec::new(),
        trip_ids: Vec::new(),
        trip_source: Vec::new(),
        routes_for_stop,
        stops_for_route: Vec::new(),
        trips_for_route: Vec::new(),
        arrival_times: Vec::new(),
        departure_times: Vec::new(),
        route_for_trip: Vec::new(),
        footpaths_for_stops: footpaths,
        transfer_times,
        transfers_closed: false,
        station_children: children,
    };
    proof {
        lemma_resolved_in_range(*feed);
        assert forall|s: nat, t: nat| s < ns && t < ns implies (#[trigger] crate::timetable::Timetable::transfer_secs(&tt, s, t))
            == match last_min_time(feed.stops@[s as int].transfers@, t) {
            Some(m) => m,
            None => default_transfer_secs(),
        } by {
            assert(tt.transfer_times@.contains_key(pair_key(s as u32, t as u32)) == last_min_time(
                feed.stops@[s as int].transfers@,
                t,
            ) is Some);
        }
    }
    tt
}

/// The resolved transfers of each stop lead to stops of the feed.
proof fn lemma_resolved_in_range(feed: GtfsFeed)
    requires
        feed_ok(feed),
    ensures
        forall|s: int, i: int|
            0 <= s < feed.stops@.len() && 0 <= i < resolved_transfers(feed.stops@[s].transfers@).len() ==> (
            #[trigger] resolved_transfers(feed.stops@[s].transfers@)[i]).0 < feed.stops@.len(),
{
    assert forall|s: int, i: int|
        0 <= s < feed.stops@.len() && 0 <= i < resolved_transfers(feed.stops@[s].transfers@).len() implies (
        #[trigger] resolved_transfers(feed.stops@[s].transfers@)[i]).0 < feed.stops@.len() by {
        lemma_resolved_prefix(feed, s, feed.stops@[s].transfers@.len() as int);
        assert(feed.stops@[s].transfers@.subrange(0, feed.stops@[s].transfers@.len() as int) =~= feed.stops@[s].transfers@);
    }
}

proof fn lemma_resolved_prefix(feed: GtfsFeed, s: int, j: int)
    requires
        feed_ok(feed),
        0 <= s < feed.stops@.len(),
        0 <= j <= feed.stops@[s].transfers@.len(),
    ensures
        forall|i: int| 0 <= i < resolved_transfers(feed.stops@[s].transfers@.subrange(0, j)).len() ==> (
        #[trigger] resolved_transfers(feed.stops@[s].transfers@.subrange(0, j))[i]).0 < feed.stops@.len(),
    decreases j,
{
    if j > 0 {
        let ts = feed.stops@[s].transfers@;
        lemma_resolved_prefix(feed, s, j - 1);
        lemma_transfer_step(ts, j - 1);
        assert(feed.stops@[s].transfers@[j - 1].to_stop matches Some(t) ==> t < feed.stops@.len());
        let prev = resolved_transfers(ts.subrange(0, j - 1));
        let cur = resolved_transfers(ts.subrange(0, j));
        assert forall|i: int| 0 <= i < cur.len() implies (#[trigger] cur[i]).0 < feed.stops@.len() by {
            if i < prev.len() {
                assert(cur[i] == prev[i]);
            }
        }
    }
}


/// One more transfer: how the resolved list and the last minimum time
/// grow.
proof fn lemma_transfer_step(ts: Seq<FeedTransfer>, j: int)
    requires
        0 <= j < ts.len(),
    ensures
        resolved_transfers(ts.subrange(0, j + 1)) == match ts[j].to_stop {
            Some(t) => resolved_transfers(ts.subrange(0, j)).push(StopIdx(t)),
            None => resolved_transfers(ts.subrange(0, j)),
        },
        forall|b: nat| #[trigger] last_min_time(ts.subrange(0, j + 1), b) == if ts[j].to_stop == Some(b as u32)
            && ts[j].min_transfer_time is Some {
            ts[j].min_transfer_time
        } else {
            last_min_time(ts.subrange(0, j), b)
        },
{
    assert(ts.subrange(0, j + 1).drop_last() =~= ts.subrange(0, j));
    assert(ts.subrange(0, j + 1).last() == ts[j]);
}

/// Recording transfer `j` of stop `s` (when it gives a destination and a
/// time) keeps the record exact.
proof fn lemma_recorded_step(m0: Map<u64, u32>, m1: Map<u64, u32>, feed: GtfsFeed, s: int, j: int)
    requires
        0 <= s < feed.stops@.len(),
        0 <= j < feed.stops@[s].transfers@.len(),
        feed.stops@.len() < u32::MAX,
        transfers_recorded(m0, feed, s, j),
        m1 == (match feed.stops@[s].transfers@[j].to_stop {
            Some(t) => match feed.stops@[s].transfers@[j].min_transfer_time {
                Some(m) => m0.insert(pair_key(s as u32, t), m),
                None => m0,
            },
            None => m0,
        }),
    ensures
        transfers_recorded(m1, feed, s, j + 1),
{
    let ts = feed.stops@[s].transfers@;
    lemma_transfer_step(ts, j);
    assert forall|a: u32, b: u32| a < feed.stops@.len() && b < feed.stops@.len() implies {
        let want = if a < s {
            last_min_time(feed.stops@[a as int].transfers@, b as nat)
        } else if a == s {
            last_min_time(feed.stops@[a as int].transfers@.subrange(0, j + 1), b as nat)
        } else {
            None
        };
        &&& #[trigger] m1.contains_key(pair_key(a, b)) == want is Some
        &&& want is Some ==> m1[pair_key(a, b)] == want->0
    } by {
        let _ = last_min_time(ts.subrange(0, j + 1), b as nat);
        match ts[j].to_stop {
            Some(t) => match ts[j].min_transfer_time {
                Some(m) => {
                    if pair_key(a, b) == pair_key(s as u32, t) {
                        lemma_pair_key_injective(a, b, s as u32, t);
                    }
                },
                None => {},
            },
            None => {},
        }
    }
}

/// A stop's transfers all recorded: on to the next stop.
proof fn lemma_recorded_next_stop(m: Map<u64, u32>, feed: GtfsFeed, s: int)
    requires
        0 <= s < feed.stops@.len(),
        transfers_recorded(m, feed, s, feed.stops@[s].transfers@.len() as int),
    ensures
        transfers_recorded(m, feed, s + 1, 0),
{
    assert forall|a: u32, b: u32| a < feed.stops@.len() && b < feed.stops@.len() implies {
        let want = if a < s + 1 {
            last_min_time(feed.stops@[a as int].transfers@, b as nat)
        } else if a == s + 1 {
            last_min_time(feed.stops@[a as int].transfers@.subrange(0, 0), b as nat)
        } else {
            None
        };
        &&& #[trigger] m.contains_key(pair_key(a, b)) == want is Some
        &&& want is Some ==> m[pair_key(a, b)] == want->0
    } by {
        let _ = m.contains_key(pair_key(a, b));
        if a == s {
            assert(feed.stops@[a as int].transfers@.subrange(0, feed.stops@[s].transfers@.len() as int) =~= feed.stops@[a as int].transfers@);
        }
        if a == s + 1 {
            let e = feed.stops@[a as int].transfers@.subrange(0, 0);
            assert(e.len() == 0);
            assert(last_min_time(e, b as nat) is None);
        }
    }
}


/// Every trip of `tt` is faithful to the feed.
pub open spec fn all_faithful(tt: GtfsTimetable, feed: GtfsFeed) -> bool {
    forall|t: int| 0 <= t < tt.trip_ids@.len() ==> #[trigger] trip_faithful(tt, feed, t)
}

/// The trips `members` all share GTFS route `route_key` and stop sequence
/// `seq`, and can be used.
pub open spec fn group_ok(feed: GtfsFeed, route_key: u32, seq: Seq<StopIdx>, members: Seq<usize>) -> bool {
    forall|k: int|
        0 <= k < members.len() ==> {
            let m = #[trigger] members[k] as int;
            &&& 0 <= m < feed.trips@.len()
            &&& trip_error(feed.trips@[m]) is None
            &&& stop_sequence(feed.trips@[m]) == seq
            &&& feed.trips@[m].route == route_key
        }
}

/// The schedules of a group's trips, paired with their positions.
pub open spec fn group_schedules(feed: GtfsFeed, sorted: Seq<usize>) -> Seq<Seq<FeedStopTime>> {
    Seq::new(sorted.len(), |k: int| feed.trips@[sorted[k] as int].stop_times@)
}

/// Splits a group of trips sharing a GTFS route and stop sequence into
/// non-overtaking sub-groups and adds each as a route. The trips added are
/// exactly `sorted`, each once.
fn add_group_routes(tt: &mut GtfsTimetable, feed: &GtfsFeed, route_key: u32, seq: &Vec<StopIdx>, sorted: &Vec<usize>) -> (added: Ghost<
    Seq<u32>,
>)
    requires
        old(tt).inv(),
        feed_ok(*feed),
        old(tt).stop_ids@.len() == feed.stops@.len(),
        route_key < feed.route_ids@.len(),
        seq@.len() < u32::MAX,
        forall|i: int| 0 <= i < seq@.len() ==> (#[trigger] seq@[i]).0 < feed.stops@.len(),
        group_ok(*feed, route_key, seq@, sorted@),
        sorted@.no_duplicates(),
        old(tt).trip_source@.no_duplicates(),
        forall|t: int| 0 <= t < old(tt).trip_source@.len() ==> (#[trigger] old(tt).trip_source@[t]) < feed.trips@.len(),
        forall|k: int| 0 <= k < sorted@.len() ==> !old(tt).trip_source@.contains(#[trigger] sorted@[k] as u32),
        old(tt).stops_for_route@.len() <= old(tt).trip_ids@.len(),
        all_faithful(*old(tt), *feed),
        routes_non_overtaking(*old(tt), *feed),
        routes_indexed(*old(tt)),
    ensures
        final(tt).inv(),
        all_faithful(*final(tt), *feed),
        routes_non_overtaking(*final(tt), *feed),
        routes_indexed(*final(tt)),
        final(tt).stop_ids == old(tt).stop_ids,
        final(tt).footpaths_for_stops == old(tt).footpaths_for_stops,
        final(tt).transfer_times == old(tt).transfer_times,
        final(tt).station_children == old(tt).station_children,
        final(tt).transfers_closed == old(tt).transfers_closed,
        final(tt).trip_source@ == old(tt).trip_source@ + added@,
        final(tt).trip_source@.no_duplicates(),
        forall|x: u32| #[trigger] added@.contains(x) <==> sorted@.contains(x as usize),
        final(tt).stops_for_route@.len() <= final(tt).trip_ids@.len(),
{
    let ghost src0 = tt.trip_source@;
    let ghost ss = sorted@;
    let mut sched: Vec<(usize, &[FeedStopTime])> = Vec::new();
    let mut k: usize = 0;
    while k < sorted.len()
        invariant
            k <= sorted@.len(),
            ss == sorted@,
            forall|j: int| 0 <= j < sorted@.len() ==> (#[trigger] sorted@[j]) < feed.trips@.len(),
            sched@.len() == k,
            forall|j: int| 0 <= j < k ==> (#[trigger] sched@[j]).0 == j && sched@[j].1@ == feed.trips@[sorted@[j] as int].stop_times@,
        decreases sorted@.len() - k,
    {
        assert(sorted@[k as int] < feed.trips@.len());
        sched.push((k, feed.trips[sorted[k]].stop_times.as_slice()));
        k = k + 1;
    }
    let ghost scheds = schedules_of(sched@);
    proof {
        assert(scheds =~= group_schedules(*feed, ss));
        assert forall|j: int| 0 <= j < scheds.len() implies departures_given(#[trigger] scheds[j], scheds[j].len() as int) by {
            lemma_no_error_usable(feed.trips@[ss[j] as int]);
        }
        crate::gtfs::lemma_split_laws(scheds, ss.len());
        crate::gtfs::lemma_split_entries_pub(scheds, ss.len());
    }
    let subs = split_non_overtaking(&sched);
    let ghost sp = split_spec(scheds, ss.len());
    let mut g: usize = 0;
    let ghost mut done: Seq<usize> = Seq::empty();
    while g < subs.len()
        invariant
            g <= subs@.len(),
            subs@.len() == sp.len(),
            sp == split_spec(scheds, ss.len()),
            scheds == group_schedules(*feed, ss),
            ss == sorted@,
            group_ok(*feed, route_key, seq@, ss),
            ss.no_duplicates(),
            forall|h: int| 0 <= h < subs@.len() ==> (#[trigger] subs@[h])@.len() == sp[h].len(),
            forall|h: int, j: int| 0 <= h < subs@.len() && 0 <= j < subs@[h]@.len() ==> #[trigger] subs@[h]@[j] == sched@[sp[h][j] as int].0,
            forall|j: int| 0 <= j < sched@.len() ==> (#[trigger] sched@[j]).0 == j,
            sched@.len() == ss.len(),
            forall|h: int, j: int| 0 <= h < sp.len() && 0 <= j < sp[h].len() ==> (#[trigger] sp[h][j]) < ss.len(),
            forall|h: int| 0 <= h < sp.len() ==> (#[trigger] sp[h]).len() >= 1,
            forall|k: int| 0 <= k < ss.len() ==> #[trigger] crate::gtfs::split_places(sp, k),
            forall|g1: int, j1: int, g2: int, j2: int|
                0 <= g1 < sp.len() && 0 <= j1 < sp[g1].len() && 0 <= g2 < sp.len() && 0 <= j2 < sp[g2].len() && #[trigger] sp[g1][j1]
                    == #[trigger] sp[g2][j2] ==> g1 == g2 && j1 == j2,
            forall|h: int, j1: int, j2: int|
                0 <= h < sp.len() && 0 <= j1 < j2 < sp[h].len() ==> !overtakes_spec(scheds[#[trigger] sp[h][j1] as int], scheds[#[trigger] sp[h][j2] as int]),
            tt.inv(),
            feed_ok(*feed),
            tt.stop_ids@.len() == feed.stops@.len(),
            route_key < feed.route_ids@.len(),
            seq@.len() < u32::MAX,
            forall|i: int| 0 <= i < seq@.len() ==> (#[trigger] seq@[i]).0 < feed.stops@.len(),
            all_faithful(*tt, *feed),
            routes_non_overtaking(*tt, *feed),
            routes_indexed(*tt),
            tt.stop_ids == old(tt).stop_ids,
            tt.footpaths_for_stops == old(tt).footpaths_for_stops,
            tt.transfer_times == old(tt).transfer_times,
            tt.station_children == old(tt).station_children,
            tt.transfers_closed == old(tt).transfers_closed,
            src0.no_duplicates(),
            forall|t: int| 0 <= t < src0.len() ==> (#[trigger] src0[t]) < feed.trips@.len(),
            forall|k: int| 0 <= k < ss.len() ==> !src0.contains(#[trigger] ss[k] as u32),
            tt.trip_source@ == src0 + group_sources(ss, done),
            done == crate::gtfs::flatten_groups(sp, g as nat),
            tt.stops_for_route@.len() <= tt.trip_ids@.len(),
        decreases subs@.len() - g,
    {
        proof {
            crate::gtfs::lemma_flatten_props(sp, g as nat, ss.len());
        }
        let mut rm: Vec<usize> = Vec::new();
        let mut j: usize = 0;
        while j < subs[g].len()
            invariant
                g < subs@.len(),
                j <= subs@[g as int]@.len(),
                subs@[g as int]@.len() == sp[g as int].len(),
                forall|j: int| 0 <= j < subs@[g as int]@.len() ==> #[trigger] subs@[g as int]@[j] == sched@[sp[g as int][j] as int].0,
                forall|j: int| 0 <= j < sched@.len() ==> (#[trigger] sched@[j]).0 == j,
                sched@.len() == ss.len(),
                ss == sorted@,
                forall|j: int| 0 <= j < sp[g as int].len() ==> (#[trigger] sp[g as int][j]) < ss.len(),
                rm@.len() == j,
                forall|i: int| 0 <= i < j ==> #[trigger] rm@[i] == ss[sp[g as int][i] as int],
            decreases subs@[g as int]@.len() - j,
        {
            let kk = subs[g][j];
            assert(kk == sp[g as int][j as int]);
            rm.push(sorted[kk]);
            j = j + 1;
        }
        let ghost grp = sp[g as int];
        proof {
            assert forall|a: int, b: int, p: int|
                0 <= a <= b < rm@.len() && 0 <= p < seq@.len() implies departure_of(
                #[trigger] feed.trips@[rm@[a] as int].stop_times@[p],
            ) <= departure_of(#[trigger] feed.trips@[rm@[b] as int].stop_times@[p]) by {
                assert forall|j: int| 0 <= j < grp.len() implies (#[trigger] scheds[grp[j] as int]).len() == seq@.len() by {
                    assert(group_ok(*feed, route_key, seq@, ss));
                    let m = ss[grp[j] as int];
                    assert(stop_sequence(feed.trips@[m as int]) == seq@);
                }
                assert forall|j: int| 0 <= j && j + 1 < grp.len() implies !overtakes_spec(scheds[#[trigger] grp[j] as int], scheds[grp[j + 1] as int]) by {
                    assert(!overtakes_spec(scheds[sp[g as int][j] as int], scheds[sp[g as int][j + 1] as int]));
                }
                lemma_chain_monotone(scheds, grp, seq@.len() as int, a, b, p);
            }
            assert forall|k: int| 0 <= k < rm@.len() implies {
                let m = #[trigger] rm@[k] as int;
                &&& 0 <= m < feed.trips@.len()
                &&& trip_usable(feed.trips@[m])
                &&& stop_sequence(feed.trips@[m]) == seq@
                &&& feed.trips@[m].route == route_key
            } by {
                let m = rm@[k] as int;
                assert(rm@[k] == ss[grp[k] as int]);
                lemma_no_error_usable(feed.trips@[m]);
            }
            // Sizes: the sources after adding stay distinct and below the trip count.
            let newsrc = tt.trip_source@ + rm@.map_values(|m: usize| m as u32);
            let done2 = done + grp;
            crate::gtfs::lemma_flatten_props(sp, (g + 1) as nat, ss.len());
            assert(crate::gtfs::flatten_groups(sp, (g + 1) as nat) == done2);
            assert(rm@.map_values(|m: usize| m as u32) =~= group_sources(ss, grp));
            assert(newsrc =~= src0 + group_sources(ss, done2));
            lemma_sources_distinct(src0, ss, done2, feed.trips@.len());
            lemma_distinct_bound(newsrc, feed.trips@.len());
        }
        proof {
            assert forall|a: int, b: int| 0 <= a < b < rm@.len() implies !overtakes_spec(
                feed.trips@[#[trigger] rm@[a] as int].stop_times@,
                feed.trips@[#[trigger] rm@[b] as int].stop_times@,
            ) by {
                assert(rm@[a] == ss[grp[a] as int]);
                assert(rm@[b] == ss[grp[b] as int]);
                assert(!overtakes_spec(scheds[sp[g as int][a] as int], scheds[sp[g as int][b] as int]));
            }
        }
        add_route(tt, feed, route_key, seq, &rm);
        proof {
            done = done + grp;
            assert(rm@.map_values(|m: usize| m as u32) =~= group_sources(ss, grp));
            assert(tt.trip_source@ =~= src0 + group_sources(ss, done));
            assert forall|t: int| 0 <= t < tt.trip_ids@.len() implies #[trigger] trip_faithful(*tt, *feed, t) by {
            }
        }
        g = g + 1;
    }
    proof {
        crate::gtfs::lemma_flatten_props(sp, sp.len(), ss.len());
        lemma_sources_distinct(src0, ss, done, feed.trips@.len());
    }
    let ghost added = group_sources(ss, done);
    proof {
        assert forall|x: u32| #[trigger] added.contains(x) <==> ss.contains(x as usize) by {
            if added.contains(x) {
                let i = choose|i: int| 0 <= i < added.len() && added[i] == x;
                assert(done[i] < ss.len());
                assert(ss[done[i] as int] as u32 == x);
                assert((ss[done[i] as int] as u32) as usize == ss[done[i] as int]);
            }
            if ss.contains(x as usize) {
                let k = choose|k: int| 0 <= k < ss.len() && ss[k] == x as usize;
                assert(crate::gtfs::split_places(sp, k));
                let (h, j) = choose|h: int, j: int| 0 <= h < sp.len() && 0 <= j < sp[h].len() && #[trigger] sp[h][j] == k;
                assert(done.contains(k as usize));
                let i = choose|i: int| 0 <= i < done.len() && done[i] == k as usize;
                assert(added[i] == x);
            }
        }
    }
    Ghost(added)
}

/// The feed trips at positions `done` of the group `ss`.
pub open spec fn group_sources(ss: Seq<usize>, done: Seq<usize>) -> Seq<u32> {
    done.map_values(|k: usize| ss[k as int] as u32)
}

/// The sources of `tt` after adding positions `done` of the group stay
/// distinct and below `n`.
proof fn lemma_sources_distinct(src0: Seq<u32>, ss: Seq<usize>, done: Seq<usize>, n: nat)
    requires
        src0.no_duplicates(),
        ss.no_duplicates(),
        done.no_duplicates(),
        n < u32::MAX,
        forall|t: int| 0 <= t < src0.len() ==> (#[trigger] src0[t]) < n,
        forall|k: int| 0 <= k < ss.len() ==> (#[trigger] ss[k]) < n,
        forall|k: int| 0 <= k < ss.len() ==> !src0.contains(#[trigger] ss[k] as u32),
        forall|i: int| 0 <= i < done.len() ==> (#[trigger] done[i]) < ss.len(),
    ensures
        (src0 + group_sources(ss, done)).no_duplicates(),
        forall|i: int|
            0 <= i < (src0 + group_sources(ss, done)).len() ==> (#[trigger] (src0 + group_sources(ss, done))[i]) < n,
{
    let add = group_sources(ss, done);
    let all = src0 + add;
    assert forall|i: int, j: int| 0 <= i < all.len() && 0 <= j < all.len() && i != j implies all[i] != all[j] by {
        if i < src0.len() && j < src0.len() {
        } else if i >= src0.len() && j >= src0.len() {
            let di = done[i - src0.len()];
            let dj = done[j - src0.len()];
            assert(di != dj);
            assert(ss[di as int] != ss[dj as int]);
            assert(ss[di as int] < n && ss[dj as int] < n);
        } else if i < src0.len() {
            let dj = done[j - src0.len()];
            assert(!src0.contains(ss[dj as int] as u32));
            assert(all[j] == ss[dj as int] as u32);
        } else {
            let di = done[i - src0.len()];
            assert(!src0.contains(ss[di as int] as u32));
            assert(all[i] == ss[di as int] as u32);
        }
    }
    assert forall|i: int| 0 <= i < all.len() implies (#[trigger] all[i]) < n by {
        if i >= src0.len() {
            let di = done[i - src0.len()];
            assert(ss[di as int] < n);
        }
    }
}


/// `x` is the feed trip of a valid slot in `[u, v)` that was free before
/// and is now assigned.
pub open spec fn newly_assigned(assigned: Seq<bool>, before: Seq<bool>, valid: Seq<usize>, u: int, v: int, x: usize) -> bool {
    exists|w: int| u <= w < v && !before[w] && #[trigger] assigned[w] && valid[w] == x
}

/// Some assigned valid slot holds feed trip `x`.
pub open spec fn assigned_source(assigned: Seq<bool>, valid: Seq<usize>, x: u32) -> bool {
    exists|v: int| 0 <= v < valid.len() && #[trigger] assigned[v] && valid[v] as u32 == x
}

/// `tt` is the timetable of the feed's trips that run on `date`: its
/// stop-level tables are the feed's, each of its trips is one of those
/// trips with the feed's stops and times, and each of those trips appears
/// exactly once.
pub open spec fn built_from(tt: GtfsTimetable, feed: GtfsFeed, date: CivilDate) -> bool {
    &&& stops_from(tt, feed)
    &&& all_faithful(tt, feed)
    &&& forall|t: int| 0 <= t < tt.trip_source@.len() ==> trip_runs(feed, date, #[trigger] tt.trip_source@[t] as int)
    &&& tt.trip_source@.no_duplicates()
    &&& forall|i: int| 0 <= i < feed.trips@.len() && trip_runs(feed, date, i) ==> #[trigger] tt.trip_source@.contains(i as u32)
}

impl GtfsTimetable {
    /// The timetable of `feed` for `service_date`: the trips whose service
    /// runs that day (see [`service_active`]), grouped by GTFS route and
    /// stop sequence, each group split into routes in which no trip
    /// overtakes another, trips of a route in order of first departure.
    /// Fails with the error of the first running trip (in feed order) that
    /// has no stop times, an unknown stop or a missing departure time.
    pub fn new(feed: &GtfsFeed, service_date: CivilDate) -> (r: Result<GtfsTimetable, GtfsError>)
        requires
            feed_ok(*feed),
            service_date.valid(),
        ensures
            r is Err <==> exists|i: int| trip_fails(*feed, service_date, i),
            r matches Err(e) ==> exists|i: int|
                first_failure(*feed, service_date, i) && trip_error(feed.trips@[i]) == Some(e.kind()),
            r matches Ok(tt) ==> tt.inv() && built_from(tt, *feed, service_date) && routes_non_overtaking(tt, *feed)
                && routes_indexed(tt),
    {
        let n_trips = feed.trips.len();
        let mut valid: Vec<usize> = Vec::new();
        let mut seqs: Vec<Vec<StopIdx>> = Vec::new();
        let mut i: usize = 0;
        while i < n_trips
            invariant
                n_trips == feed.trips@.len(),
                i <= n_trips,
                service_date.valid(),
                forall|k: int| 0 <= k < i ==> !#[trigger] trip_fails(*feed, service_date, k),
                valid@.len() == seqs@.len(),
                forall|v: int|
                    0 <= v < valid@.len() ==> {
                        let m = #[trigger] valid@[v] as int;
                        &&& m < i
                        &&& trip_runs(*feed, service_date, m)
                        &&& trip_error(feed.trips@[m]) is None
                        &&& seqs@[v]@ == stop_sequence(feed.trips@[m])
                    },
                forall|a: int, b: int| 0 <= a < b < valid@.len() ==> (#[trigger] valid@[a]) < (#[trigger] valid@[b]),
                forall|k: int| 0 <= k < i && trip_runs(*feed, service_date, k) ==> #[trigger] valid@.contains(k as usize),
            decreases n_trips - i,
        {
            if is_service_active(feed, feed.trips[i].service, service_date) {
                match check_trip(&feed.trips[i]) {
                    Err(e) => {
                        proof {
                            assert(trip_fails(*feed, service_date, i as int));
                            assert(first_failure(*feed, service_date, i as int));
                        }
                        return Err(e);
                    },
                    Ok(seq) => {
                        let ghost v0 = valid@;
                        let ghost s0 = seqs@;
                        valid.push(i);
                        seqs.push(seq);
                        proof {
                            assert forall|k: int| 0 <= k < i + 1 && trip_runs(*feed, service_date, k) implies #[trigger] valid@.contains(
                                k as usize,
                            ) by {
                                if k < i {
                                    assert(v0.contains(k as usize));
                                    let w = choose|w: int| 0 <= w < v0.len() && v0[w] == k as usize;
                                    assert(valid@[w] == v0[w]);
                                } else {
                                    assert(valid@[v0.len() as int] == i);
                                }
                            }
                            assert forall|v: int| 0 <= v < valid@.len() implies {
                                let m = #[trigger] valid@[v] as int;
                                &&& m < i + 1
                                &&& trip_runs(*feed, service_date, m)
                                &&& trip_error(feed.trips@[m]) is None
                                &&& seqs@[v]@ == stop_sequence(feed.trips@[m])
                            } by {
                                if v < v0.len() {
                                    assert(valid@[v] == v0[v]);
                                    assert(seqs@[v] == s0[v]);
                                }
                            }
                        }
                    },
                }
            } else {
                proof {
                    assert(!trip_fails(*feed, service_date, i as int));
                    assert forall|k: int| 0 <= k < i + 1 && trip_runs(*feed, service_date, k) implies #[trigger] valid@.contains(
                        k as usize,
                    ) by {
                    }
                }
            }
            i = i + 1;
        }
        proof {
            assert(!exists|i: int| trip_fails(*feed, service_date, i));
        }
        let mut tt = base_timetable(feed);
        let nv = valid.len();
        let mut assigned: Vec<bool> = Vec::new();
        let mut a: usize = 0;
        while a < nv
            invariant
                a <= nv,
                assigned@.len() == a,
                forall|v: int| 0 <= v < a ==> !(#[trigger] assigned@[v]),
            decreases nv - a,
        {
            assigned.push(false);
            a = a + 1;
        }
        let mut u: usize = 0;
        while u < nv
            invariant
                feed_ok(*feed),
                n_trips == feed.trips@.len(),
                nv == valid@.len(),
                valid@.len() == seqs@.len(),
                forall|v: int|
                    0 <= v < valid@.len() ==> {
                        let m = #[trigger] valid@[v] as int;
                        &&& m < n_trips
                        &&& trip_runs(*feed, service_date, m)
                        &&& trip_error(feed.trips@[m]) is None
                        &&& seqs@[v]@ == stop_sequence(feed.trips@[m])
                    },
                forall|a: int, b: int| 0 <= a < b < valid@.len() ==> (#[trigger] valid@[a]) < (#[trigger] valid@[b]),
                forall|k: int| 0 <= k < n_trips && trip_runs(*feed, service_date, k) ==> #[trigger] valid@.contains(k as usize),
                u <= nv,
                assigned@.len() == nv,
                forall|v: int| 0 <= v < u ==> #[trigger] assigned@[v],
                tt.inv(),
                stops_from(tt, *feed),
                all_faithful(tt, *feed),
                routes_non_overtaking(tt, *feed),
                routes_indexed(tt),
                tt.trip_source@.no_duplicates(),
                forall|t: int| 0 <= t < tt.trip_source@.len() ==> assigned_source(assigned@, valid@, #[trigger] tt.trip_source@[t]),
                forall|v: int| 0 <= v < nv && #[trigger] assigned@[v] ==> tt.trip_source@.contains(valid@[v] as u32),
                tt.stops_for_route@.len() <= tt.trip_ids@.len(),
            decreases nv - u,
        {
            if !assigned[u] {
                let route_key = feed.trips[valid[u]].route;
                let ghost as0 = assigned@;
                let ghost tt0 = tt;
                let mut members: Vec<usize> = Vec::new();
                let mut v: usize = u;
                while v < nv
                    invariant
                        u <= v <= nv,
                        nv == valid@.len(),
                        valid@.len() == seqs@.len(),
                        assigned@.len() == nv,
                        !as0[u as int],
                        as0.len() == nv,
                        forall|w: int| 0 <= w < valid@.len() ==> (#[trigger] valid@[w]) < feed.trips@.len(),
                        route_key == feed.trips@[valid@[u as int] as int].route,
                        forall|a: int, b: int| 0 <= a < b < valid@.len() ==> (#[trigger] valid@[a]) < (#[trigger] valid@[b]),
                        forall|w: int| 0 <= w < nv ==> (#[trigger] assigned@[w]) == (as0[w] || (u <= w < v && !as0[w]
                            && feed.trips@[valid@[w] as int].route == route_key && seqs@[w]@ == seqs@[u as int]@)),
                        forall|k: int| 0 <= k < members@.len() ==> newly_assigned(assigned@, as0, valid@, u as int, v as int, #[trigger] members@[k]),
                        forall|w: int| u <= w < v && !as0[w] && #[trigger] assigned@[w] ==> members@.contains(valid@[w]),
                        forall|a: int, b: int| 0 <= a < b < members@.len() ==> (#[trigger] members@[a]) < (#[trigger] members@[b]),
                        forall|k: int| 0 <= k < members@.len() ==> (#[trigger] members@[k]) < (if v < nv { valid@[v as int] } else { usize::MAX }) || v == nv,
                    decreases nv - v,
                {
                    if !assigned[v] && feed.trips[valid[v]].route == route_key && same_stops(&seqs[v], &seqs[u]) {
                        let ghost m0 = members@;
                        let ghost asg = assigned@;
                        assigned.set(v, true);
                        members.push(valid[v]);
                        proof {
                            assert forall|k: int| 0 <= k < members@.len() implies newly_assigned(assigned@, as0, valid@, u as int, v + 1, #[trigger] members@[k]) by {
                                if k < m0.len() {
                                    assert(newly_assigned(asg, as0, valid@, u as int, v as int, m0[k]));
                                    let w = choose|w: int| u <= w < v && !as0[w] && #[trigger] asg[w] && valid@[w] == m0[k];
                                    assert(assigned@[w]);
                                } else {
                                    assert(assigned@[v as int]);
                                }
                            }
                            assert forall|w: int| u <= w < v + 1 && !as0[w] && #[trigger] assigned@[w] implies members@.contains(valid@[w]) by {
                                if w < v {
                                    assert(asg[w]);
                                    let k = choose|k: int| 0 <= k < m0.len() && m0[k] == valid@[w];
                                    assert(members@[k] == m0[k]);
                                } else {
                                    assert(members@[m0.len() as int] == valid@[w]);
                                }
                            }
                            assert forall|x: int, y: int| 0 <= x < y < members@.len() implies (#[trigger] members@[x]) < (#[trigger] members@[y]) by {
                                if y == m0.len() {
                                    assert(newly_assigned(asg, as0, valid@, u as int, v as int, m0[x]));
                                    let w = choose|w: int| u <= w < v && !as0[w] && #[trigger] asg[w] && valid@[w] == m0[x];
                                    assert(valid@[w] < valid@[v as int]);
                                }
                            }
                        }
                    }
                    v = v + 1;
                    proof {
                        assert forall|k: int| 0 <= k < members@.len() implies (#[trigger] members@[k]) < (if v < nv { valid@[v as int] } else { usize::MAX }) || v == nv by {
                            if v < nv {
                                assert(newly_assigned(assigned@, as0, valid@, u as int, v as int, members@[k]));
                                let w = choose|w: int| u <= w < v && !as0[w] && #[trigger] assigned@[w] && valid@[w] == members@[k];
                                assert(valid@[w] < valid@[v as int]);
                            }
                        }
                    }
                }
                proof {
                    assert(members@.no_duplicates()) by {
                        assert forall|x: int, y: int| 0 <= x < members@.len() && 0 <= y < members@.len() && x != y implies members@[x] != members@[y] by {
                            if x < y {
                                assert(members@[x] < members@[y]);
                            } else {
                                assert(members@[y] < members@[x]);
                            }
                        }
                    }
                    assert forall|k: int| 0 <= k < members@.len() implies (#[trigger] members@[k]) < feed.trips@.len() && trip_usable(
                        feed.trips@[members@[k] as int],
                    ) by {
                        assert(newly_assigned(assigned@, as0, valid@, u as int, nv as int, members@[k]));
                        let w = choose|w: int| u <= w < nv && !as0[w] && #[trigger] assigned@[w] && valid@[w] == members@[k];
                        lemma_no_error_usable(feed.trips@[members@[k] as int]);
                    }
                }
                let sorted = sort_by_first_departure(feed, &members);
                let seq_u = &seqs[u];
                proof {
                    let m = valid@[u as int] as int;
                    assert(seqs@[u as int]@ == stop_sequence(feed.trips@[m]));
                    assert(feed.trips@[m].stop_times@.len() < u32::MAX);
                    assert forall|i: int| 0 <= i < seq_u@.len() implies (#[trigger] seq_u@[i]).0 < feed.stops@.len() by {
                        assert(feed.trips@[m].stop_times@[i].stop matches Some(s) ==> s < feed.stops@.len());
                        lemma_no_error_usable(feed.trips@[m]);
                        assert(!bad_stop_time(feed.trips@[m].stop_times@[i]));
                    }
                    assert forall|k: int| 0 <= k < sorted@.len() implies {
                        let mm = #[trigger] sorted@[k] as int;
                        &&& 0 <= mm < feed.trips@.len()
                        &&& trip_error(feed.trips@[mm]) is None
                        &&& stop_sequence(feed.trips@[mm]) == seq_u@
                        &&& feed.trips@[mm].route == route_key
                    } by {
                        assert(sorted@.contains(sorted@[k]));
                        assert(members@.contains(sorted@[k]));
                        let kk = choose|kk: int| 0 <= kk < members@.len() && members@[kk] == sorted@[k];
                        assert(newly_assigned(assigned@, as0, valid@, u as int, nv as int, members@[kk]));
                        let w = choose|w: int| u <= w < nv && !as0[w] && #[trigger] assigned@[w] && valid@[w] == members@[kk];
                    }
                    assert forall|t: int| 0 <= t < tt.trip_source@.len() implies (#[trigger] tt.trip_source@[t]) < feed.trips@.len() by {
                        assert(assigned_source(as0, valid@, tt.trip_source@[t]));
                        let w = choose|w: int| 0 <= w < valid@.len() && #[trigger] as0[w] && valid@[w] as u32 == tt.trip_source@[t];
                    }
                    assert forall|k: int| 0 <= k < sorted@.len() implies !tt.trip_source@.contains(#[trigger] sorted@[k] as u32) by {
                        assert(sorted@.contains(sorted@[k]));
                        assert(members@.contains(sorted@[k]));
                        let kk = choose|kk: int| 0 <= kk < members@.len() && members@[kk] == sorted@[k];
                        assert(newly_assigned(assigned@, as0, valid@, u as int, nv as int, members@[kk]));
                        let w = choose|w: int| u <= w < nv && !as0[w] && #[trigger] assigned@[w] && valid@[w] == members@[kk];
                        if tt.trip_source@.contains(sorted@[k] as u32) {
                            let t = choose|t: int| 0 <= t < tt.trip_source@.len() && tt.trip_source@[t] == sorted@[k] as u32;
                            assert(assigned_source(as0, valid@, tt.trip_source@[t]));
                            let w2 = choose|w2: int| 0 <= w2 < valid@.len() && #[trigger] as0[w2] && valid@[w2] as u32 == tt.trip_source@[t];
                            assert(valid@[w2] == valid@[w]);
                            if w2 < w {
                                assert(valid@[w2] < valid@[w]);
                            } else if w < w2 {
                                assert(valid@[w] < valid@[w2]);
                            }
                        }
                    }
                }
                let Ghost(added) = add_group_routes(&mut tt, feed, route_key, seq_u, &sorted);
                proof {
                    lemma_stops_from_frame(tt0, tt, *feed);
                    assert forall|t: int| 0 <= t < tt.trip_source@.len() implies assigned_source(assigned@, valid@, #[trigger] tt.trip_source@[t]) by {
                        if t < tt0.trip_source@.len() {
                            assert(tt.trip_source@[t] == tt0.trip_source@[t]);
                            assert(assigned_source(as0, valid@, tt0.trip_source@[t]));
                            let w = choose|w: int| 0 <= w < valid@.len() && #[trigger] as0[w] && valid@[w] as u32 == tt0.trip_source@[t];
                            assert(assigned@[w]);
                        } else {
                            let x = tt.trip_source@[t];
                            assert(added[t - tt0.trip_source@.len()] == x);
                            assert(added.contains(x));
                            assert(sorted@.contains(x as usize));
                            assert(members@.contains(x as usize));
                            let kk = choose|kk: int| 0 <= kk < members@.len() && members@[kk] == x as usize;
                            assert(newly_assigned(assigned@, as0, valid@, u as int, nv as int, members@[kk]));
                        let w = choose|w: int| u <= w < nv && !as0[w] && #[trigger] assigned@[w] && valid@[w] == members@[kk];
                        }
                    }
                    assert forall|v: int| 0 <= v < nv && #[trigger] assigned@[v] implies tt.trip_source@.contains(valid@[v] as u32) by {
                        if as0[v] {
                            assert(tt0.trip_source@.contains(valid@[v] as u32));
                            let t = choose|t: int| 0 <= t < tt0.trip_source@.len() && tt0.trip_source@[t] == valid@[v] as u32;
                            assert(tt.trip_source@[t] == tt0.trip_source@[t]);
                        } else {
                            assert(members@.contains(valid@[v]));
                            assert(sorted@.contains(valid@[v]));
                            assert((valid@[v] as u32) as usize == valid@[v]);
                            assert(added.contains(valid@[v] as u32));
                            let i = choose|i: int| 0 <= i < added.len() && added[i] == valid@[v] as u32;
                            assert(tt.trip_source@[tt0.trip_source@.len() + i] == added[i]);
                        }
                    }
                    assert(assigned@[u as int]);
                }
            }
            u = u + 1;
        }
        proof {
            assert forall|t: int| 0 <= t < tt.trip_source@.len() implies trip_runs(*feed, service_date, #[trigger] tt.trip_source@[t] as int) by {
                assert(assigned_source(assigned@, valid@, tt.trip_source@[t]));
                let w = choose|w: int| 0 <= w < valid@.len() && #[trigger] assigned@[w] && valid@[w] as u32 == tt.trip_source@[t];
            }
            assert forall|i: int| 0 <= i < feed.trips@.len() && trip_runs(*feed, service_date, i) implies #[trigger] tt.trip_source@.contains(
                i as u32,
            ) by {
                assert(valid@.contains(i as usize));
                let w = choose|w: int| 0 <= w < valid@.len() && valid@[w] == i as usize;
                assert(assigned@[w]);
            }
        }
        Ok(tt)
    }
}


/// The stop-level tables are all `stops_from` reads.
proof fn lemma_stops_from_frame(a: GtfsTimetable, b: GtfsTimetable, feed: GtfsFeed)
    requires
        stops_from(a, feed),
        b.stop_ids == a.stop_ids,
        b.footpaths_for_stops == a.footpaths_for_stops,
        b.transfer_times == a.transfer_times,
        b.station_children == a.station_children,
        b.transfers_closed == a.transfers_closed,
    ensures
        stops_from(b, feed),
{
    let ns = feed.stops@.len();
    assert forall|s: nat, t: nat| s < ns && t < ns implies (#[trigger] crate::timetable::Timetable::transfer_secs(&b, s, t))
        == match last_min_time(feed.stops@[s as int].transfers@, t) {
        Some(m) => m,
        None => default_transfer_secs(),
    } by {
        assert(crate::timetable::Timetable::transfer_secs(&b, s, t) == crate::timetable::Timetable::transfer_secs(&a, s, t));
    }
}

} // verus!
