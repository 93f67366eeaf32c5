//! [`SimpleTimetable`]: an in-memory [`Timetable`] built by hand with
//! `.route(...)` / `.footpath(...)` / `.transfer_time(...)` calls, keyed by
//! any hashable key types, for tests, fixtures and small networks.

use std::collections::HashMap;
use std::hash::Hash;

use vstd::prelude::*;
use vstd::std_specs::hash::obeys_key_model;

use crate::ids::{RouteIdx, StopIdx, TripIdx};
use crate::time::{Duration, SecondOfDay};
use crate::timetable::Timetable;

pub mod builders;
pub mod drawing;

verus! {

broadcast use vstd::std_specs::hash::group_hash_axioms;

/// The key of a `(from, to)` pair in the transfer-time table.
pub open spec fn pair_key(from: u32, to: u32) -> u64 {
    (from as u64 * 4294967296 + to as u64) as u64
}

pub(crate) fn pair_key_exec(from: StopIdx, to: StopIdx) -> (r: u64)
    ensures
        r == pair_key(from.0, to.0),
{
    (from.0 as u64) * 4294967296 + (to.0 as u64)
}

/// A copy of a vector of `Copy` values.
pub(crate) fn copy_vec<X: Copy>(v: &Vec<X>) -> (r: Vec<X>)
    ensures
        r@ == v@,
{
    let mut out: Vec<X> = Vec::new();
    let mut i: usize = 0;
    while i < v.len()
        invariant
            i <= v@.len(),
            out@ == v@.subrange(0, i as int),
        decreases v@.len() - i,
    {
        out.push(v[i]);
        proof {
            assert(v@.subrange(0, i + 1) =~= v@.subrange(0, i as int).push(v@[i as int]));
        }
        i = i + 1;
    }
    assert(v@.subrange(0, v@.len() as int) =~= v@);
    out
}

/// A generic in-memory timetable backed by interning tables and dense
/// vectors. Keys of type `S`, `R`, `T` name stops, routes and trips; they
/// are interned to dense indices in order of first appearance.
pub struct SimpleTimetable<S, R, T> {
    pub stop_keys: Vec<S>,
    pub stop_by_key: HashMap<S, StopIdx>,
    pub route_keys: Vec<R>,
    pub route_by_key: HashMap<R, RouteIdx>,
    pub trip_keys: Vec<T>,
    pub trip_by_key: HashMap<T, TripIdx>,
    /// Route index to its stop sequence.
    pub routes: Vec<Vec<StopIdx>>,
    /// Trip index to its route and per-position `(arrival, departure)`.
    pub trips: Vec<(RouteIdx, Vec<(SecondOfDay, SecondOfDay)>)>,
    /// Stop index to the stops reachable by one direct walk.
    pub footpaths: Vec<Vec<StopIdx>>,
    /// `pair_key(from, to)` to the walking time from `from` to `to`.
    pub transfer_times: HashMap<u64, Duration>,
    /// Stop index to the routes serving it, with the earliest position.
    pub routes_for_stop: Vec<Vec<(RouteIdx, u32)>>,
}

/// The three key types obey the hash-map model, so lookups by key mean
/// what the maps' views say.
pub open spec fn keys_ok<S, R, T>() -> bool {
    obeys_key_model::<S>() && obeys_key_model::<R>() && obeys_key_model::<T>()
}

/// Interning `keys` in order into a key map with `n` indices handed out:
/// a key seen before keeps its index, a new key gets the next index. Gives
/// the map and the count after.
pub open spec fn interned_stops<S>(m: Map<S, StopIdx>, n: nat, keys: Seq<S>) -> (Map<S, StopIdx>, nat)
    decreases keys.len(),
{
    if keys.len() == 0 {
        (m, n)
    } else {
        let (m0, n0) = interned_stops(m, n, keys.drop_last());
        if m0.contains_key(keys.last()) {
            (m0, n0)
        } else {
            (m0.insert(keys.last(), StopIdx(n0 as u32)), n0 + 1)
        }
    }
}

/// Interning keys one more key at a time.
proof fn lemma_interned_stops_push<S>(m: Map<S, StopIdx>, n: nat, keys: Seq<S>, key: S)
    ensures
        interned_stops(m, n, keys.push(key)) == ({
            let (m0, n0) = interned_stops(m, n, keys);
            if m0.contains_key(key) {
                (m0, n0)
            } else {
                (m0.insert(key, StopIdx(n0 as u32)), n0 + 1)
            }
        }),
{
    assert(keys.push(key).drop_last() =~= keys);
}

/// Interning keys the map already holds changes nothing.
pub proof fn lemma_interned_stops_known<S>(m: Map<S, StopIdx>, n: nat, keys: Seq<S>)
    requires
        forall|i: int| 0 <= i < keys.len() ==> m.contains_key(#[trigger] keys[i]),
    ensures
        interned_stops(m, n, keys) == (m, n),
    decreases keys.len(),
{
    if keys.len() > 0 {
        lemma_interned_stops_known(m, n, keys.drop_last());
        assert(m.contains_key(keys[keys.len() - 1]));
    }
}

/// [`interned_stops`] for trip keys.
pub open spec fn interned_trips<T>(m: Map<T, TripIdx>, n: nat, keys: Seq<T>) -> (Map<T, TripIdx>, nat)
    decreases keys.len(),
{
    if keys.len() == 0 {
        (m, n)
    } else {
        let (m0, n0) = interned_trips(m, n, keys.drop_last());
        if m0.contains_key(keys.last()) {
            (m0, n0)
        } else {
            (m0.insert(keys.last(), TripIdx(n0 as u32)), n0 + 1)
        }
    }
}

/// Interning trip keys one more key at a time.
proof fn lemma_interned_trips_push<T>(m: Map<T, TripIdx>, n: nat, keys: Seq<T>, key: T)
    ensures
        interned_trips(m, n, keys.push(key)) == ({
            let (m0, n0) = interned_trips(m, n, keys);
            if m0.contains_key(key) {
                (m0, n0)
            } else {
                (m0.insert(key, TripIdx(n0 as u32)), n0 + 1)
            }
        }),
{
    assert(keys.push(key).drop_last() =~= keys);
}

/// The keys of a route's trips, in order.
pub open spec fn trip_keys_of<T>(trips: Seq<(T, &[(SecondOfDay, SecondOfDay)])>) -> Seq<T> {
    trips.map_values(|x: (T, &[(SecondOfDay, SecondOfDay)])| x.0)
}

/// Stop `s` lists route `r` at a position no later than `p`.
pub open spec fn lists_route(rfs: Seq<Vec<(RouteIdx, u32)>>, s: int, r: RouteIdx, p: int) -> bool {
    exists|i: int| 0 <= i < rfs[s]@.len() && (#[trigger] rfs[s]@[i]).0 == r && rfs[s]@[i].1 <= p
}

impl<S: Hash + Eq + Copy, R: Hash + Eq + Copy, T: Hash + Eq + Copy> SimpleTimetable<S, R, T> {
    /// The representation invariant: table lengths agree, every interned
    /// index and every stored index is in range, the route index of each
    /// stop is consistent with the routes, and every trip's schedule has one
    /// entry per stop of its route.
    pub open spec fn inv(&self) -> bool {
        &&& self.stop_keys@.len() == self.footpaths@.len()
        &&& self.stop_keys@.len() == self.routes_for_stop@.len()
        &&& self.stop_keys@.len() < u32::MAX
        &&& self.route_keys@.len() == self.routes@.len()
        &&& self.route_keys@.len() < u32::MAX
        &&& self.trip_keys@.len() == self.trips@.len()
        &&& self.trip_keys@.len() < u32::MAX
        &&& forall|k: S| #[trigger]
            self.stop_by_key@.contains_key(k) ==> self.stop_by_key@[k].0 < self.stop_keys@.len()
                && self.stop_keys@[self.stop_by_key@[k].0 as int] == k
        &&& forall|k: R| #[trigger]
            self.route_by_key@.contains_key(k) ==> self.route_by_key@[k].0 < self.route_keys@.len()
        &&& forall|k: T| #[trigger]
            self.trip_by_key@.contains_key(k) ==> self.trip_by_key@[k].0 < self.trip_keys@.len()
        &&& forall|k1: T, k2: T|
            #![trigger self.trip_by_key@[k1], self.trip_by_key@[k2]]
            self.trip_by_key@.contains_key(k1) && self.trip_by_key@.contains_key(k2)
                && self.trip_by_key@[k1] == self.trip_by_key@[k2] ==> k1 == k2
        &&& forall|r: int, i: int|
            0 <= r < self.routes@.len() && 0 <= i < self.routes@[r]@.len() ==> (
            #[trigger] self.routes@[r]@[i]).0 < self.stop_keys@.len()
        &&& forall|r: int| 0 <= r < self.routes@.len() ==> (#[trigger] self.routes@[r])@.len() < u32::MAX
        &&& forall|s: int, i: int|
            0 <= s < self.footpaths@.len() && 0 <= i < self.footpaths@[s]@.len() ==> (
            #[trigger] self.footpaths@[s]@[i]).0 < self.stop_keys@.len()
        &&& forall|s: int, i: int|
            0 <= s < self.routes_for_stop@.len() && 0 <= i < self.routes_for_stop@[s]@.len() ==> {
                let (r, p) = #[trigger] self.routes_for_stop@[s]@[i];
                &&& r.0 < self.routes@.len()
                &&& p < self.routes@[r.0 as int]@.len()
                &&& self.routes@[r.0 as int]@[p as int].0 == s
            }
        &&& forall|t: int|
            0 <= t < self.trips@.len() ==> {
                let (r, times) = #[trigger] self.trips@[t];
                &&& r.0 < self.routes@.len()
                &&& times@.len() == self.routes@[r.0 as int]@.len()
            }
    }

    /// Among the first `n` trip slots, the first of the route's trips with
    /// the earliest departure at `pos` not before `at`.
    pub open spec fn earliest_upto(&self, route: nat, at: u32, pos: nat, n: nat) -> Option<nat>
        decreases n,
    {
        if n == 0 {
            None
        } else {
            let best = self.earliest_upto(route, at, pos, (n - 1) as nat);
            let t = (n - 1) as nat;
            let (tr, times) = self.trips@[t as int];
            if tr.0 == route && times@[pos as int].1.0 >= at && (match best {
                None => true,
                Some(b) => times@[pos as int].1.0 < self.trips@[b as int].1@[pos as int].1.0,
            }) {
                Some(t)
            } else {
                best
            }
        }
    }

    /// Creates an empty timetable.
    pub fn new() -> (r: Self)
        ensures
            r.inv(),
            r.routes_indexed(),
            r.stop_keys@.len() == 0,
            r.route_keys@.len() == 0,
            r.trip_keys@.len() == 0,
            r.stop_by_key@ == Map::<S, StopIdx>::empty(),
            r.route_by_key@ == Map::<R, RouteIdx>::empty(),
            r.trip_by_key@ == Map::<T, TripIdx>::empty(),
            r.footpaths@.len() == 0,
            r.transfer_times@ == Map::<u64, Duration>::empty(),
    {
        SimpleTimetable {
            stop_keys: Vec::new(),
            stop_by_key: HashMap::new(),
            route_keys: Vec::new(),
            route_by_key: HashMap::new(),
            trip_keys: Vec::new(),
            trip_by_key: HashMap::new(),
            routes: Vec::new(),
            trips: Vec::new(),
            footpaths: Vec::new(),
            transfer_times: HashMap::new(),
            routes_for_stop: Vec::new(),
        }
    }

    fn intern_stop(&mut self, key: S) -> (idx: StopIdx)
        requires
            old(self).inv(),
            keys_ok::<S, R, T>(),
            old(self).stop_keys@.len() + 1 < u32::MAX,
        ensures
            final(self).inv(),
            final(self).stop_by_key@ == old(self).stop_by_key@.insert(key, idx),
            old(self).stop_by_key@.contains_key(key) ==> idx == old(self).stop_by_key@[key]
                && final(self).stop_keys@.len() == old(self).stop_keys@.len(),
            !old(self).stop_by_key@.contains_key(key) ==> idx.0 == old(self).stop_keys@.len()
                && final(self).stop_keys@.len() == old(self).stop_keys@.len() + 1,
            idx.0 < final(self).stop_keys@.len(),
            (final(self).stop_by_key@, final(self).stop_keys@.len()) == interned_stops(
                old(self).stop_by_key@,
                old(self).stop_keys@.len(),
                seq![key],
            ),
            forall|s: int|
                old(self).routes_for_stop@.len() <= s < final(self).routes_for_stop@.len() ==> (
                #[trigger] final(self).routes_for_stop@[s])@.len() == 0,
            final(self).routes_for_stop@.len() == final(self).stop_keys@.len(),
            final(self).route_keys == old(self).route_keys,
            final(self).route_by_key == old(self).route_by_key,
            final(self).trip_keys == old(self).trip_keys,
            final(self).trip_by_key == old(self).trip_by_key,
            final(self).routes == old(self).routes,
            final(self).trips == old(self).trips,
            final(self).transfer_times == old(self).transfer_times,
            forall|s: int|
                0 <= s < old(self).footpaths@.len() ==> #[trigger] final(self).footpaths@[s]
                    == old(self).footpaths@[s],
            forall|s: int|
                old(self).footpaths@.len() <= s < final(self).footpaths@.len() ==> (
                #[trigger] final(self).footpaths@[s])@.len() == 0,
            forall|s: int|
                0 <= s < old(self).routes_for_stop@.len() ==> #[trigger] final(self).routes_for_stop@[s]
                    == old(self).routes_for_stop@[s],
    {
        match self.stop_by_key.get(&key) {
            Some(idx) => {
                let i = *idx;
                proof {
                    assert(self.stop_by_key@.insert(key, i) =~= self.stop_by_key@);
                    lemma_interned_stops_push(self.stop_by_key@, self.stop_keys@.len(), Seq::empty(), key);
                    assert(Seq::<S>::empty().push(key) =~= seq![key]);
                }
                return i;
            },
            None => {},
        }
        let idx = StopIdx(self.stop_keys.len() as u32);
        let ghost old_keys = self.stop_keys@;
        self.stop_keys.push(key);
        self.stop_by_key.insert(key, idx);
        self.footpaths.push(Vec::new());
        self.routes_for_stop.push(Vec::new());
        proof {
            lemma_interned_stops_push(old(self).stop_by_key@, old(self).stop_keys@.len(), Seq::empty(), key);
            assert(Seq::<S>::empty().push(key) =~= seq![key]);
            assert forall|k: S| #[trigger] self.stop_by_key@.contains_key(k) implies self.stop_by_key@[k].0 < self.stop_keys@.len()
                && self.stop_keys@[self.stop_by_key@[k].0 as int] == k by {
                if k != key {
                    assert(old_keys[self.stop_by_key@[k].0 as int] == k);
                }
            }
        }
        idx
    }

    fn intern_route(&mut self, key: R) -> (idx: RouteIdx)
        requires
            old(self).inv(),
            keys_ok::<S, R, T>(),
            !old(self).route_by_key@.contains_key(key),
            old(self).route_keys@.len() + 1 < u32::MAX,
        ensures
            final(self).inv(),
            final(self).route_by_key@ == old(self).route_by_key@.insert(key, idx),
            idx.0 == old(self).route_keys@.len(),
            final(self).route_keys@.len() == old(self).route_keys@.len() + 1,
            final(self).routes@.len() == old(self).routes@.len() + 1,
            final(self).routes@[idx.0 as int]@.len() == 0,
            forall|r: int| 0 <= r < old(self).routes@.len() ==> #[trigger] final(self).routes@[r] == old(self).routes@[r],
            final(self).stop_keys == old(self).stop_keys,
            final(self).stop_by_key == old(self).stop_by_key,
            final(self).trip_keys == old(self).trip_keys,
            final(self).trip_by_key == old(self).trip_by_key,
            final(self).trips == old(self).trips,
            final(self).footpaths == old(self).footpaths,
            final(self).routes_for_stop == old(self).routes_for_stop,
            final(self).transfer_times == old(self).transfer_times,
    {
        let idx = RouteIdx(self.route_keys.len() as u32);
        self.route_keys.push(key);
        self.route_by_key.insert(key, idx);
        self.routes.push(Vec::new());
        proof {
            assert forall|r: int, i: int|
                0 <= r < self.routes@.len() && 0 <= i < self.routes@[r]@.len() implies (
                #[trigger] self.routes@[r]@[i]).0 < self.stop_keys@.len() by {
                assert(r < old(self).routes@.len());
            }
        }
        idx
    }

    /// Every stop of every route lists that route at a position no later
    /// than where the stop occurs; with the invariant, at the stop's first
    /// position on the route.
    pub open spec fn routes_indexed(&self) -> bool {
        forall|r: int, p: int|
            0 <= r < self.routes@.len() && 0 <= p < self.routes@[r]@.len() ==> lists_route(
                self.routes_for_stop@,
                (#[trigger] self.routes@[r]@[p]).0 as int,
                RouteIdx(r as u32),
                p,
            )
    }

    /// The stop-to-route index stays complete when the routes stay and the
    /// existing rows of the index stay.
    proof fn lemma_indexed_frame(a: Self, b: Self)
        requires
            a.inv(),
            a.routes_indexed(),
            b.routes == a.routes,
            forall|s: int| 0 <= s < a.routes_for_stop@.len() ==> #[trigger] b.routes_for_stop@[s] == a.routes_for_stop@[s],
        ensures
            b.routes_indexed(),
    {
        assert forall|r: int, p: int|
            0 <= r < b.routes@.len() && 0 <= p < b.routes@[r]@.len() implies lists_route(
            b.routes_for_stop@,
            (#[trigger] b.routes@[r]@[p]).0 as int,
            RouteIdx(r as u32),
            p,
        ) by {
            let st = a.routes@[r]@[p].0 as int;
            assert(lists_route(a.routes_for_stop@, st, RouteIdx(r as u32), p));
            assert(b.routes_for_stop@[st] == a.routes_for_stop@[st]);
        }
    }

    /// Adds a route with its stop sequence and trips. Each trip gives one
    /// `(arrival, departure)` pair per stop of the route. A trip key seen
    /// before is moved onto this route with the new schedule.
    #[verifier::rlimit(40)]
    pub fn route(self, id: R, stops: &[S], trips: &[(T, &[(SecondOfDay, SecondOfDay)])]) -> (r: Self)
        requires
            self.inv(),
            keys_ok::<S, R, T>(),
            !self.route_by_key@.contains_key(id),
            self.route_keys@.len() + 2 < u32::MAX,
            self.stop_keys@.len() + stops@.len() + 1 < u32::MAX,
            self.trip_keys@.len() + trips@.len() + 1 < u32::MAX,
            forall|j: int| 0 <= j < trips@.len() ==> (#[trigger] trips@[j]).1@.len() == stops@.len(),
        ensures
            r.inv(),
            self.routes_indexed() ==> r.routes_indexed(),
            r.route_by_key@ == self.route_by_key@.insert(id, RouteIdx(self.route_keys@.len() as u32)),
            r.routes@.len() == self.routes@.len() + 1,
            forall|q: int| 0 <= q < self.routes@.len() ==> #[trigger] r.routes@[q] == self.routes@[q],
            r.routes@[self.routes@.len() as int]@.len() == stops@.len(),
            forall|i: int|
                0 <= i < stops@.len() ==> r.stop_by_key@.contains_key(#[trigger] stops@[i])
                    && r.routes@[self.routes@.len() as int]@[i] == r.stop_by_key@[stops@[i]],
            forall|k: S| #[trigger]
                self.stop_by_key@.contains_key(k) ==> r.stop_by_key@.contains_key(k)
                    && r.stop_by_key@[k] == self.stop_by_key@[k],
            forall|j: int|
                0 <= j < trips@.len() ==> r.trip_by_key@.contains_key((#[trigger] trips@[j]).0),
            forall|j: int|
                0 <= j < trips@.len() ==> r.trips@[r.trip_by_key@[(#[trigger] trips@[j]).0].0 as int].0.0
                    == self.routes@.len(),
            forall|j: int|
                0 <= j < trips@.len() && (forall|l: int| j < l < trips@.len() ==> trips@[l].0 != trips@[j].0)
                    ==> r.trips@[r.trip_by_key@[(#[trigger] trips@[j]).0].0 as int].1@ == trips@[j].1@,
            forall|k: T| #[trigger]
                self.trip_by_key@.contains_key(k) ==> r.trip_by_key@.contains_key(k)
                    && r.trip_by_key@[k] == self.trip_by_key@[k],
            r.transfer_times == self.transfer_times,
            r.stop_keys@.len() <= self.stop_keys@.len() + stops@.len(),
            r.trip_keys@.len() <= self.trip_keys@.len() + trips@.len(),
            r.footpaths@.len() == r.stop_keys@.len(),
            forall|k: S| #[trigger] r.stop_by_key@.contains_key(k) ==> self.stop_by_key@.contains_key(k) || stops@.contains(k),
            forall|k: T|
                #[trigger] r.trip_by_key@.contains_key(k) ==> self.trip_by_key@.contains_key(k) || exists|q: int|
                    0 <= q < trips@.len() && (#[trigger] trips@[q]).0 == k,
            forall|k: T|
                #[trigger] self.trip_by_key@.contains_key(k) && (forall|q: int| 0 <= q < trips@.len() ==> (#[trigger] trips@[q]).0 != k)
                    ==> r.trips@[r.trip_by_key@[k].0 as int] == self.trips@[self.trip_by_key@[k].0 as int],
            (r.stop_by_key@, r.stop_keys@.len()) == interned_stops(self.stop_by_key@, self.stop_keys@.len(), stops@),
            forall|s: int| 0 <= s < r.footpaths@.len() ==> #[trigger] r.footpaths_of(s) == self.footpaths_of(s),
            (r.trip_by_key@, r.trip_keys@.len()) == interned_trips(self.trip_by_key@, self.trip_keys@.len(), trip_keys_of(trips@)),
    {
        let mut tt = self;
        let route_idx = tt.intern_route(id);
        let ghost after_route = tt;
        let mut stop_idxs: Vec<StopIdx> = Vec::new();
        let mut i: usize = 0;
        while i < stops.len()
            invariant
                tt.inv(),
                keys_ok::<S, R, T>(),
                i <= stops@.len(),
                stop_idxs@.len() == i,
                tt.stop_keys@.len() <= after_route.stop_keys@.len() + i,
                tt.stop_keys@.len() >= after_route.stop_keys@.len(),
                after_route.inv(),
                after_route.stop_keys@.len() + stops@.len() + 1 < u32::MAX,
                tt.route_keys == after_route.route_keys,
                tt.route_by_key == after_route.route_by_key,
                tt.routes == after_route.routes,
                tt.trips == after_route.trips,
                tt.trip_keys == after_route.trip_keys,
                tt.trip_by_key == after_route.trip_by_key,
                tt.transfer_times == after_route.transfer_times,
                forall|j: int| 0 <= j < i ==> (#[trigger] stop_idxs@[j]).0 < tt.stop_keys@.len(),
                forall|j: int|
                    0 <= j < i ==> tt.stop_by_key@.contains_key(#[trigger] stops@[j])
                        && stop_idxs@[j] == tt.stop_by_key@[stops@[j]],
                forall|k: S| #[trigger]
                    after_route.stop_by_key@.contains_key(k) ==> tt.stop_by_key@.contains_key(k)
                        && tt.stop_by_key@[k] == after_route.stop_by_key@[k],
                forall|k: S| #[trigger] tt.stop_by_key@.contains_key(k) ==> after_route.stop_by_key@.contains_key(k)
                    || stops@.subrange(0, i as int).contains(k),
                forall|s: int|
                    0 <= s < after_route.routes_for_stop@.len() ==> #[trigger] tt.routes_for_stop@[s]
                        == after_route.routes_for_stop@[s],
                (tt.stop_by_key@, tt.stop_keys@.len()) == interned_stops(self.stop_by_key@, self.stop_keys@.len(), stops@.subrange(0, i as int)),
                after_route.footpaths == self.footpaths,
                forall|s: int| 0 <= s < tt.footpaths@.len() ==> #[trigger] tt.footpaths_of(s) == self.footpaths_of(s),
            decreases stops@.len() - i,
        {
            let ghost before = tt;
            let s = tt.intern_stop(stops[i]);
            stop_idxs.push(s);
            proof {
                lemma_interned_stops_push(self.stop_by_key@, self.stop_keys@.len(), stops@.subrange(0, i as int), stops@[i as int]);
                lemma_interned_stops_push(before.stop_by_key@, before.stop_keys@.len(), Seq::empty(), stops@[i as int]);
                assert(Seq::<S>::empty().push(stops@[i as int]) =~= seq![stops@[i as int]]);
                assert(stops@.subrange(0, i as int).push(stops@[i as int]) =~= stops@.subrange(0, i + 1));
                assert forall|s2: int| 0 <= s2 < tt.footpaths@.len() implies #[trigger] tt.footpaths_of(s2) == self.footpaths_of(s2) by {
                    if s2 < before.footpaths@.len() {
                        assert(tt.footpaths@[s2] == before.footpaths@[s2]);
                        assert(before.footpaths_of(s2) == self.footpaths_of(s2));
                    }
                }
                assert forall|k: S| #[trigger] tt.stop_by_key@.contains_key(k) implies after_route.stop_by_key@.contains_key(k)
                    || stops@.subrange(0, i + 1).contains(k) by {
                    if k == stops@[i as int] {
                        assert(stops@.subrange(0, i + 1)[i as int] == k);
                    } else if !after_route.stop_by_key@.contains_key(k) {
                        assert(before.stop_by_key@.contains_key(k));
                        let q = choose|q: int| 0 <= q < i && stops@.subrange(0, i as int)[q] == k;
                        assert(stops@.subrange(0, i + 1)[q] == k);
                    }
                }
                assert forall|s2: int|
                    0 <= s2 < after_route.routes_for_stop@.len() implies #[trigger] tt.routes_for_stop@[s2]
                    == after_route.routes_for_stop@[s2] by {
                    assert(before.routes_for_stop@[s2] == after_route.routes_for_stop@[s2]);
                }
            }
            i = i + 1;
        }
        assert(stops@.subrange(0, stops@.len() as int) =~= stops@);
        let ghost fp_after_stops = tt.footpaths;
        let ghost tt_as = tt;
        let ghost n_stops_now = tt.stop_keys@.len();
        tt.routes.set(route_idx.0 as usize, stop_idxs);
        let ghost after_stops = tt;
        proof {
            assert forall|q: int, j: int|
                0 <= q < tt.routes@.len() && 0 <= j < tt.routes@[q]@.len() implies (
                #[trigger] tt.routes@[q]@[j]).0 < tt.stop_keys@.len() by {
                if q != route_idx.0 {
                    assert(tt.routes@[q] == after_route.routes@[q]);
                }
            }
            assert forall|s2: int, j: int|
                0 <= s2 < tt.routes_for_stop@.len() && 0 <= j < tt.routes_for_stop@[s2]@.len() implies {
                let (rr, p) = #[trigger] tt.routes_for_stop@[s2]@[j];
                &&& rr.0 < tt.routes@.len()
                &&& p < tt.routes@[rr.0 as int]@.len()
                &&& tt.routes@[rr.0 as int]@[p as int].0 == s2
            } by {
                if s2 < after_route.routes_for_stop@.len() {
                    let (rr, p) = after_route.routes_for_stop@[s2]@[j];
                    assert(rr.0 < after_route.routes@.len());
                    assert(after_route.routes@[rr.0 as int]@.len() == 0 ==> rr.0 != route_idx.0);
                    if rr.0 == route_idx.0 {
                        assert(after_route.routes@[route_idx.0 as int]@.len() == 0);
                    }
                } else {
                    assert(tt.routes_for_stop@[s2]@.len() == 0) by {
                        assert(tt.routes_for_stop@.len() == tt.footpaths@.len());
                    }
                }
            }
            assert forall|t: int| 0 <= t < tt.trips@.len() implies {
                let (rr, times) = #[trigger] tt.trips@[t];
                &&& rr.0 < tt.routes@.len()
                &&& times@.len() == tt.routes@[rr.0 as int]@.len()
            } by {
                let (rr, times) = tt.trips@[t];
                assert(rr.0 != route_idx.0);
            }
        }
        // Record the earliest position of each stop on the new route.
        let mut pos: usize = 0;
        while pos < stops.len()
            invariant
                tt.inv(),
                pos <= stops@.len(),
                tt.routes@[route_idx.0 as int]@.len() == stops@.len(),
                route_idx.0 < tt.routes@.len(),
                route_idx.0 == self.route_keys@.len(),
                tt.stop_keys == after_stops.stop_keys,
                tt.stop_by_key == after_stops.stop_by_key,
                tt.route_keys == after_stops.route_keys,
                tt.route_by_key == after_stops.route_by_key,
                tt.routes == after_stops.routes,
                tt.trips == after_stops.trips,
                tt.trip_keys == after_stops.trip_keys,
                tt.trip_by_key == after_stops.trip_by_key,
                tt.footpaths == after_stops.footpaths,
                tt.transfer_times == after_stops.transfer_times,
                tt.routes_for_stop@.len() == after_stops.routes_for_stop@.len(),
                forall|s: int|
                    0 <= s < tt.routes_for_stop@.len() ==> (#[trigger] tt.routes_for_stop@[s])@.len()
                        >= after_stops.routes_for_stop@[s]@.len(),
                forall|s: int, i: int|
                    0 <= s < tt.routes_for_stop@.len() && 0 <= i < after_stops.routes_for_stop@[s]@.len()
                        ==> #[trigger] tt.routes_for_stop@[s]@[i] == after_stops.routes_for_stop@[s]@[i],
                forall|s: int, i: int|
                    0 <= s < tt.routes_for_stop@.len() && 0 <= i < tt.routes_for_stop@[s]@.len() && (
                    #[trigger] tt.routes_for_stop@[s]@[i]).0 == route_idx ==> tt.routes_for_stop@[s]@[i].1 < pos,
                forall|q: int|
                    0 <= q < pos ==> lists_route(tt.routes_for_stop@, (#[trigger] tt.routes@[route_idx.0 as int]@[q]).0 as int, route_idx, q),
            decreases stops@.len() - pos,
        {
            let s = tt.routes[route_idx.0 as usize][pos];
            let mut entry = copy_vec(&tt.routes_for_stop[s.0 as usize]);
            let ghost old_entry = tt.routes_for_stop@[s.0 as int]@;
            assert(entry@ == old_entry);
            let mut present = false;
            let mut e: usize = 0;
            while e < entry.len()
                invariant
                    e <= entry@.len(),
                    present <==> exists|i: int| 0 <= i < e && (#[trigger] entry@[i]).0.0 == route_idx.0,
                decreases entry@.len() - e,
            {
                if entry[e].0.0 == route_idx.0 {
                    present = true;
                }
                e = e + 1;
            }
            proof {
                if present {
                    let i = choose|i: int| 0 <= i < entry@.len() && (#[trigger] entry@[i]).0.0 == route_idx.0;
                    assert(tt.routes_for_stop@[s.0 as int]@[i].0 == route_idx);
                    assert(lists_route(tt.routes_for_stop@, s.0 as int, route_idx, pos as int));
                }
            }
            if !present {
                entry.push((route_idx, pos as u32));
                let ghost mid = tt.routes_for_stop@;
                tt.routes_for_stop.set(s.0 as usize, entry);
                proof {
                    let nr = tt.routes_for_stop@;
                    assert(nr[s.0 as int]@[nr[s.0 as int]@.len() - 1] == (route_idx, pos as u32));
                    assert(lists_route(nr, s.0 as int, route_idx, pos as int));
                    assert forall|q: int| 0 <= q < pos implies lists_route(nr, (#[trigger] tt.routes@[route_idx.0 as int]@[q]).0 as int, route_idx, q) by {
                        let sq = tt.routes@[route_idx.0 as int]@[q].0 as int;
                        assert(lists_route(mid, sq, route_idx, q));
                        let i = choose|i: int| 0 <= i < mid[sq]@.len() && (#[trigger] mid[sq]@[i]).0 == route_idx && mid[sq]@[i].1 <= q;
                        if sq == s.0 as int {
                            assert(nr[sq]@[i] == mid[sq]@[i]);
                        } else {
                            assert(nr[sq] == mid[sq]);
                        }
                    }
                    assert forall|s2: int| 0 <= s2 < nr.len() implies (#[trigger] nr[s2])@.len() >= after_stops.routes_for_stop@[s2]@.len() by {
                        if s2 != s.0 {
                            assert(nr[s2] == mid[s2]);
                        }
                    }
                    assert forall|s2: int, i: int|
                        0 <= s2 < nr.len() && 0 <= i < after_stops.routes_for_stop@[s2]@.len() implies #[trigger] nr[s2]@[i]
                            == after_stops.routes_for_stop@[s2]@[i] by {
                        if s2 != s.0 {
                            assert(nr[s2] == mid[s2]);
                        } else {
                            assert(mid[s2]@[i] == after_stops.routes_for_stop@[s2]@[i]);
                        }
                    }
                    assert forall|s2: int, i: int|
                        0 <= s2 < nr.len() && 0 <= i < nr[s2]@.len() && (#[trigger] nr[s2]@[i]).0 == route_idx implies nr[s2]@[i].1 < pos + 1 by {
                        if s2 != s.0 {
                            assert(nr[s2] == mid[s2]);
                        } else if i < mid[s2]@.len() {
                            assert(nr[s2]@[i] == mid[s2]@[i]);
                        }
                    }
                }
                proof {
                    assert forall|s2: int, j: int|
                        0 <= s2 < tt.routes_for_stop@.len() && 0 <= j < tt.routes_for_stop@[s2]@.len() implies {
                        let (rr, p) = #[trigger] tt.routes_for_stop@[s2]@[j];
                        &&& rr.0 < tt.routes@.len()
                        &&& p < tt.routes@[rr.0 as int]@.len()
                        &&& tt.routes@[rr.0 as int]@[p as int].0 == s2
                    } by {
                        if s2 != s.0 {
                            assert(tt.routes_for_stop@[s2] == mid[s2]);
                        } else if j < old_entry.len() {
                            assert(tt.routes_for_stop@[s2]@[j] == mid[s2]@[j]);
                        }
                    }
                }
            }
            pos = pos + 1;
        }
        let ghost after_index = tt;
        // Register the trips.
        let mut j: usize = 0;
        while j < trips.len()
            invariant
                tt.inv(),
                keys_ok::<S, R, T>(),
                j <= trips@.len(),
                forall|q: int| 0 <= q < trips@.len() ==> (#[trigger] trips@[q]).1@.len() == stops@.len(),
                tt.routes@[route_idx.0 as int]@.len() == stops@.len(),
                route_idx.0 < tt.routes@.len(),
                route_idx.0 == self.route_keys@.len(),
                tt.trip_keys@.len() <= after_index.trip_keys@.len() + j,
                after_index.trip_keys@.len() + trips@.len() + 1 < u32::MAX,
                tt.stop_keys == after_index.stop_keys,
                tt.stop_by_key == after_index.stop_by_key,
                tt.route_keys == after_index.route_keys,
                tt.route_by_key == after_index.route_by_key,
                tt.routes == after_index.routes,
                tt.footpaths == after_index.footpaths,
                tt.routes_for_stop == after_index.routes_for_stop,
                tt.transfer_times == after_index.transfer_times,
                forall|k: T| #[trigger]
                    after_index.trip_by_key@.contains_key(k) ==> tt.trip_by_key@.contains_key(k)
                        && tt.trip_by_key@[k] == after_index.trip_by_key@[k],
                forall|k: T|
                    #[trigger] tt.trip_by_key@.contains_key(k) ==> after_index.trip_by_key@.contains_key(k) || exists|q: int|
                        0 <= q < j && (#[trigger] trips@[q]).0 == k,
                forall|k: T|
                    #[trigger] after_index.trip_by_key@.contains_key(k) && (forall|q: int| 0 <= q < j ==> (#[trigger] trips@[q]).0 != k)
                        ==> tt.trips@[tt.trip_by_key@[k].0 as int] == after_index.trips@[after_index.trip_by_key@[k].0 as int],
                forall|q: int| 0 <= q < j ==> tt.trip_by_key@.contains_key((#[trigger] trips@[q]).0),
                forall|q: int|
                    0 <= q < j ==> tt.trips@[tt.trip_by_key@[(#[trigger] trips@[q]).0].0 as int].0
                        == route_idx,
                forall|q: int|
                    0 <= q < j && (forall|l: int| q < l < j ==> trips@[l].0 != trips@[q].0)
                        ==> tt.trips@[tt.trip_by_key@[(#[trigger] trips@[q]).0].0 as int].1@
                        == trips@[q].1@,
                after_index.trip_by_key == self.trip_by_key,
                after_index.trip_keys == self.trip_keys,
                (tt.trip_by_key@, tt.trip_keys@.len()) == interned_trips(
                    self.trip_by_key@,
                    self.trip_keys@.len(),
                    trip_keys_of(trips@).subrange(0, j as int),
                ),
            decreases trips@.len() - j,
        {
            let (tid, times) = trips[j];
            proof {
                lemma_interned_trips_push(
                    self.trip_by_key@,
                    self.trip_keys@.len(),
                    trip_keys_of(trips@).subrange(0, j as int),
                    tid,
                );
                assert(trip_keys_of(trips@).subrange(0, j as int).push(tid) =~= trip_keys_of(trips@).subrange(0, j + 1));
            }
            let row = vstd::slice::slice_to_vec(times);
            let ghost before = tt;
            match tt.trip_by_key.get(&tid) {
                Some(idx) => {
                    let t = *idx;
                    tt.trips.set(t.0 as usize, (route_idx, row));
                },
                None => {
                    let t = TripIdx(tt.trip_keys.len() as u32);
                    tt.trip_keys.push(tid);
                    tt.trip_by_key.insert(tid, t);
                    tt.trips.push((route_idx, row));
                    proof {
                        assert forall|k1: T, k2: T|
                            #![trigger tt.trip_by_key@[k1], tt.trip_by_key@[k2]]
                            tt.trip_by_key@.contains_key(k1) && tt.trip_by_key@.contains_key(k2)
                                && tt.trip_by_key@[k1] == tt.trip_by_key@[k2] implies k1 == k2 by {
                            if k1 != tid && k2 != tid {
                                assert(before.trip_by_key@[k1] == tt.trip_by_key@[k1]);
                                assert(before.trip_by_key@[k2] == tt.trip_by_key@[k2]);
                            } else if k1 == tid && k2 != tid {
                                assert(before.trip_by_key@.contains_key(k2));
                            } else if k2 == tid && k1 != tid {
                                assert(before.trip_by_key@.contains_key(k1));
                            }
                        }
                    }
                },
            }
            proof {
                let t = tt.trip_by_key@[tid];
                assert(tt.trips@[t.0 as int] == (route_idx, row));
                assert forall|k: T|
                    #[trigger] tt.trip_by_key@.contains_key(k) implies after_index.trip_by_key@.contains_key(k) || exists|q: int|
                        0 <= q < j + 1 && (#[trigger] trips@[q]).0 == k by {
                    if k == tid {
                        assert(trips@[j as int].0 == k);
                    } else {
                        assert(before.trip_by_key@.contains_key(k));
                    }
                }
                assert forall|k: T|
                    #[trigger] after_index.trip_by_key@.contains_key(k) && (forall|q: int| 0 <= q < j + 1 ==> (#[trigger] trips@[q]).0 != k)
                        implies tt.trips@[tt.trip_by_key@[k].0 as int] == after_index.trips@[after_index.trip_by_key@[k].0 as int] by {
                    assert(trips@[j as int].0 != k);
                    let tk = before.trip_by_key@[k];
                    assert(tt.trip_by_key@[k] == tk);
                    if tk == t {
                        assert(before.trip_by_key@.contains_key(tid) || !before.trip_by_key@.contains_key(tid));
                    }
                    assert(tk != t);
                    assert(tt.trips@[tk.0 as int] == before.trips@[tk.0 as int]);
                }
                assert forall|q: int| 0 <= q < j + 1 implies tt.trip_by_key@.contains_key((#[trigger] trips@[q]).0) by {
                    if q < j {
                        assert(before.trip_by_key@.contains_key(trips@[q].0));
                    }
                }
                assert forall|q: int|
                    0 <= q < j + 1 implies tt.trips@[tt.trip_by_key@[(#[trigger] trips@[q]).0].0 as int].0
                        == route_idx by {
                    if q < j {
                        let tq = before.trip_by_key@[trips@[q].0];
                        assert(tt.trip_by_key@[trips@[q].0] == tq);
                        if tq != t {
                            assert(tt.trips@[tq.0 as int] == before.trips@[tq.0 as int]);
                        }
                    }
                }
                assert forall|q: int|
                    0 <= q < j + 1 && (forall|l: int| q < l < j + 1 ==> trips@[l].0 != trips@[q].0)
                        implies tt.trips@[tt.trip_by_key@[(#[trigger] trips@[q]).0].0 as int].1@
                        == trips@[q].1@ by {
                    if q < j {
                        let tq = before.trip_by_key@[trips@[q].0];
                        assert(trips@[j as int].0 != trips@[q].0);
                        assert(tt.trip_by_key@[trips@[q].0] == tq);
                        assert(tq != t);
                        assert(tt.trips@[tq.0 as int] == before.trips@[tq.0 as int]);
                    }
                }
                assert forall|q: int| 0 <= q < tt.trips@.len() implies {
                    let (rr, ts) = #[trigger] tt.trips@[q];
                    &&& rr.0 < tt.routes@.len()
                    &&& ts@.len() == tt.routes@[rr.0 as int]@.len()
                } by {
                    if q != t.0 {
                        assert(tt.trips@[q] == before.trips@[q]);
                    }
                }
            }
            proof {
                if before.trip_by_key@.contains_key(tid) {
                    assert(tt.trip_by_key@ == before.trip_by_key@);
                }
            }
            j = j + 1;
        }
        assert(trip_keys_of(trips@).subrange(0, trips@.len() as int) =~= trip_keys_of(trips@));
        assert(tt.footpaths == fp_after_stops);
        assert forall|s: int| 0 <= s < tt.footpaths@.len() implies #[trigger] tt.footpaths_of(s) == self.footpaths_of(s) by {
            assert(tt_as.footpaths_of(s) == self.footpaths_of(s));
        }
        proof {
            if self.routes_indexed() {
                assert forall|r: int, p: int|
                    0 <= r < tt.routes@.len() && 0 <= p < tt.routes@[r]@.len() implies lists_route(
                    tt.routes_for_stop@,
                    (#[trigger] tt.routes@[r]@[p]).0 as int,
                    RouteIdx(r as u32),
                    p,
                ) by {
                    if r == route_idx.0 as int {
                        assert(tt.routes@[r] == after_index.routes@[r]);
                        assert(lists_route(
                            after_index.routes_for_stop@,
                            after_index.routes@[route_idx.0 as int]@[p].0 as int,
                            route_idx,
                            p,
                        ));
                    } else {
                        assert(after_stops.routes@[r] == after_route.routes@[r]);
                        assert(tt.routes@[r] == self.routes@[r]);
                        let st = self.routes@[r]@[p].0 as int;
                        assert(lists_route(self.routes_for_stop@, st, RouteIdx(r as u32), p));
                        let i = choose|i: int|
                            0 <= i < self.routes_for_stop@[st]@.len() && (#[trigger] self.routes_for_stop@[st]@[i]).0 == RouteIdx(r as u32)
                                && self.routes_for_stop@[st]@[i].1 <= p;
                        assert(after_stops.routes_for_stop@[st] == self.routes_for_stop@[st]);
                        assert(after_index.routes_for_stop@[st]@[i] == after_stops.routes_for_stop@[st]@[i]);
                    }
                }
            }
        }
        tt
    }

    /// Ensures `key` has a stop index, without otherwise changing the
    /// timetable.
    pub fn register_stop(self, key: S) -> (r: Self)
        requires
            self.inv(),
            keys_ok::<S, R, T>(),
            self.stop_keys@.len() + 1 < u32::MAX,
        ensures
            r.inv(),
            self.routes_indexed() ==> r.routes_indexed(),
            r.stop_by_key@.contains_key(key),
            r.stop_by_key@ == self.stop_by_key@.insert(key, r.stop_by_key@[key]),
            forall|k: S| #[trigger]
                self.stop_by_key@.contains_key(k) ==> r.stop_by_key@.contains_key(k)
                    && r.stop_by_key@[k] == self.stop_by_key@[k],
            self.stop_by_key@.contains_key(key) ==> r.stop_keys@.len() == self.stop_keys@.len(),
            !self.stop_by_key@.contains_key(key) ==> r.stop_keys@.len() == self.stop_keys@.len()
                + 1 && r.stop_by_key@[key].0 == self.stop_keys@.len(),
            r.route_keys == self.route_keys,
            r.route_by_key == self.route_by_key,
            r.trip_keys == self.trip_keys,
            r.trip_by_key == self.trip_by_key,
            r.routes == self.routes,
            r.trips == self.trips,
            (r.stop_by_key@, r.stop_keys@.len()) == interned_stops(self.stop_by_key@, self.stop_keys@.len(), seq![key]),
            r.transfer_times == self.transfer_times,
            forall|s: int| 0 <= s < r.footpaths@.len() ==> #[trigger] r.footpaths_of(s) == self.footpaths_of(s),
            forall|s: int| 0 <= s < r.routes_for_stop@.len() ==> #[trigger] r.serving_of(s) == self.serving_of(s),
    {
        let mut tt = self;
        let _ = tt.intern_stop(key);
        proof {
            if self.routes_indexed() {
                Self::lemma_indexed_frame(self, tt);
            }
        }
        tt
    }

    /// Adds a direct footpath from `from` to `to`.
    pub fn footpath(self, from: S, to: S) -> (r: Self)
        requires
            self.inv(),
            keys_ok::<S, R, T>(),
            self.stop_keys@.len() + 2 < u32::MAX,
        ensures
            r.inv(),
            self.routes_indexed() ==> r.routes_indexed(),
            r.stop_by_key@.contains_key(from),
            r.stop_by_key@.contains_key(to),
            forall|k: S| #[trigger]
                self.stop_by_key@.contains_key(k) ==> r.stop_by_key@.contains_key(k)
                    && r.stop_by_key@[k] == self.stop_by_key@[k],
            r.footpaths@[r.stop_by_key@[from].0 as int]@ == self.footpaths_of(
                r.stop_by_key@[from].0 as int,
            ).push(r.stop_by_key@[to]),
            r.route_keys == self.route_keys,
            r.route_by_key == self.route_by_key,
            r.routes == self.routes,
            r.trips == self.trips,
            r.transfer_times == self.transfer_times,
            r.stop_keys@.len() <= self.stop_keys@.len() + 2,
            self.stop_by_key@.contains_key(from) && self.stop_by_key@.contains_key(to) ==> r.stop_keys@.len()
                == self.stop_keys@.len(),
            forall|s: int| 0 <= s < r.footpaths@.len() && s != r.stop_by_key@[from].0 ==> #[trigger] r.footpaths_of(s)
                == self.footpaths_of(s),
            (r.stop_by_key@, r.stop_keys@.len()) == interned_stops(self.stop_by_key@, self.stop_keys@.len(), seq![from, to]),
            forall|s: int| 0 <= s < r.routes_for_stop@.len() ==> #[trigger] r.serving_of(s) == self.serving_of(s),
    {
        let mut tt = self;
        let from_idx = tt.intern_stop(from);
        let ghost mid_tt = tt;
        let to_idx = tt.intern_stop(to);
        proof {
            lemma_interned_stops_push(self.stop_by_key@, self.stop_keys@.len(), seq![from], to);
            assert(seq![from].push(to) =~= seq![from, to]);
            assert forall|s: int| 0 <= s < tt.routes_for_stop@.len() implies #[trigger] tt.serving_of(s) == self.serving_of(s) by {
                if s < mid_tt.routes_for_stop@.len() {
                    assert(tt.routes_for_stop@[s] == mid_tt.routes_for_stop@[s]);
                }
            }
        }
        let ghost mid = tt.footpaths@;
        let mut v = tt.footpaths[from_idx.0 as usize].clone();
        proof {
            assert(v@ == mid[from_idx.0 as int]@);
            if from_idx.0 >= self.footpaths@.len() {
                assert(v@ =~= self.footpaths_of(from_idx.0 as int));
            }
        }
        v.push(to_idx);
        tt.footpaths.set(from_idx.0 as usize, v);
        proof {
            assert forall|s: int, i: int|
                0 <= s < tt.footpaths@.len() && 0 <= i < tt.footpaths@[s]@.len() implies (
                #[trigger] tt.footpaths@[s]@[i]).0 < tt.stop_keys@.len() by {
                if s != from_idx.0 {
                    assert(tt.footpaths@[s] == mid[s]);
                } else if i < mid[s]@.len() {
                    assert(tt.footpaths@[s]@[i] == mid[s]@[i]);
                }
            }
        }
        proof {
            if self.routes_indexed() {
                Self::lemma_indexed_frame(self, tt);
            }
        }
        tt
    }

    /// The footpaths out of stop `s`, empty for a stop not yet interned.
    pub open spec fn footpaths_of(&self, s: int) -> Seq<StopIdx> {
        if 0 <= s < self.footpaths@.len() {
            self.footpaths@[s]@
        } else {
            Seq::empty()
        }
    }

    /// The routes serving stop `s` with their earliest positions, empty for
    /// a stop the table does not have.
    pub open spec fn serving_of(&self, s: int) -> Seq<(RouteIdx, u32)> {
        if 0 <= s < self.routes_for_stop@.len() {
            self.routes_for_stop@[s]@
        } else {
            Seq::empty()
        }
    }

    /// Sets the walking time from `from` to `to`.
    pub fn transfer_time(self, from: S, to: S, time: Duration) -> (r: Self)
        requires
            self.inv(),
            keys_ok::<S, R, T>(),
            self.stop_keys@.len() + 2 < u32::MAX,
        ensures
            r.inv(),
            self.routes_indexed() ==> r.routes_indexed(),
            r.stop_by_key@.contains_key(from),
            r.stop_by_key@.contains_key(to),
            forall|k: S| #[trigger]
                self.stop_by_key@.contains_key(k) ==> r.stop_by_key@.contains_key(k)
                    && r.stop_by_key@[k] == self.stop_by_key@[k],
            r.transfer_times@ == self.transfer_times@.insert(
                pair_key(r.stop_by_key@[from].0, r.stop_by_key@[to].0),
                time,
            ),
            r.route_keys == self.route_keys,
            r.route_by_key == self.route_by_key,
            r.routes == self.routes,
            r.trips == self.trips,
            r.stop_keys@.len() <= self.stop_keys@.len() + 2,
            self.stop_by_key@.contains_key(from) && self.stop_by_key@.contains_key(to) ==> r.stop_keys@.len()
                == self.stop_keys@.len() && r.footpaths@ == self.footpaths@,
            (r.stop_by_key@, r.stop_keys@.len()) == interned_stops(self.stop_by_key@, self.stop_keys@.len(), seq![from, to]),
            r.footpaths@.len() == r.stop_keys@.len(),
            forall|s: int| 0 <= s < r.footpaths@.len() ==> #[trigger] r.footpaths_of(s) == self.footpaths_of(s),
            forall|s: int| 0 <= s < r.routes_for_stop@.len() ==> #[trigger] r.serving_of(s) == self.serving_of(s),
    {
        let mut tt = self;
        let from_idx = tt.intern_stop(from);
        let ghost mid_tt = tt;
        let to_idx = tt.intern_stop(to);
        proof {
            lemma_interned_stops_push(self.stop_by_key@, self.stop_keys@.len(), seq![from], to);
            assert(seq![from].push(to) =~= seq![from, to]);
            assert forall|s: int| 0 <= s < tt.routes_for_stop@.len() implies #[trigger] tt.serving_of(s) == self.serving_of(s) by {
                if s < mid_tt.routes_for_stop@.len() {
                    assert(tt.routes_for_stop@[s] == mid_tt.routes_for_stop@[s]);
                }
            }
            assert forall|s: int| 0 <= s < tt.footpaths@.len() implies #[trigger] tt.footpaths_of(s) == self.footpaths_of(s) by {
                if s < mid_tt.footpaths@.len() {
                    assert(tt.footpaths@[s] == mid_tt.footpaths@[s]);
                }
            }
        }
        assert(self.stop_by_key@.contains_key(from) && self.stop_by_key@.contains_key(to) ==> tt.footpaths@ =~= self.footpaths@);
        let k = pair_key_exec(from_idx, to_idx);
        tt.transfer_times.insert(k, time);
        proof {
            if self.routes_indexed() {
                Self::lemma_indexed_frame(self, tt);
            }
        }
        tt
    }

    /// The stop index of `key`.
    pub fn stop_idx_of(&self, key: &S) -> (r: StopIdx)
        requires
            keys_ok::<S, R, T>(),
            self.stop_by_key@.contains_key(*key),
        ensures
            r == self.stop_by_key@[*key],
    {
        *self.stop_by_key.get(key).unwrap()
    }

    /// The route index of `key`.
    pub fn route_idx_of(&self, key: &R) -> (r: RouteIdx)
        requires
            keys_ok::<S, R, T>(),
            self.route_by_key@.contains_key(*key),
        ensures
            r == self.route_by_key@[*key],
    {
        *self.route_by_key.get(key).unwrap()
    }

    /// The trip index of `key`.
    pub fn trip_idx_of(&self, key: &T) -> (r: TripIdx)
        requires
            keys_ok::<S, R, T>(),
            self.trip_by_key@.contains_key(*key),
        ensures
            r == self.trip_by_key@[*key],
    {
        *self.trip_by_key.get(key).unwrap()
    }
}


impl<S: Hash + Eq + Copy, R: Hash + Eq + Copy, T: Hash + Eq + Copy> Timetable for SimpleTimetable<S, R, T> {
    open spec fn stop_count(&self) -> nat {
        self.stop_keys@.len()
    }

    open spec fn route_count(&self) -> nat {
        self.routes@.len()
    }

    open spec fn trip_count(&self) -> nat {
        self.trips@.len()
    }

    open spec fn route_stops(&self, route: nat) -> Seq<StopIdx> {
        self.routes@[route as int]@
    }

    open spec fn routes_at(&self, stop: nat) -> Seq<(RouteIdx, u32)> {
        self.routes_for_stop@[stop as int]@
    }

    open spec fn footpaths_at(&self, stop: nat) -> Seq<StopIdx> {
        self.footpaths@[stop as int]@
    }

    open spec fn trip_route(&self, trip: nat) -> nat {
        self.trips@[trip as int].0.0 as nat
    }

    open spec fn dep_at(&self, trip: nat, pos: nat) -> u32 {
        self.trips@[trip as int].1@[pos as int].1.0
    }

    open spec fn arr_at(&self, trip: nat, pos: nat) -> u32 {
        self.trips@[trip as int].1@[pos as int].0.0
    }

    open spec fn earliest_trip(&self, route: nat, at: u32, pos: nat) -> Option<nat> {
        self.earliest_upto(route, at, pos, self.trips@.len())
    }

    open spec fn transfer_secs(&self, from: nat, to: nat) -> u32 {
        if from <= u32::MAX && to <= u32::MAX && self.transfer_times@.contains_key(pair_key(from as u32, to as u32)) {
            self.transfer_times@[pair_key(from as u32, to as u32)].0
        } else {
            1
        }
    }

    open spec fn well_formed(&self) -> bool {
        self.inv()
    }

    /// Every trip picks up everywhere.
    open spec fn may_board(&self, trip: nat, pos: nat) -> bool {
        true
    }

    /// Every trip drops off everywhere.
    open spec fn may_alight(&self, trip: nat, pos: nat) -> bool {
        true
    }

    /// Every trip is accessible.
    open spec fn trip_accessible(&self, trip: nat) -> bool {
        true
    }

    /// Every stop is accessible.
    open spec fn stop_accessible(&self, stop: nat) -> bool {
        true
    }

    /// Footpaths are not declared closed.
    open spec fn declares_closed(&self) -> bool {
        false
    }

    proof fn lemma_shape(&self) {
        assert forall|t: nat| #![trigger self.trip_route(t)] t < self.trip_count() implies self.trip_route(t)
            < self.route_count() by {
            let (rr, times) = self.trips@[t as int];
        }
        assert forall|s: nat, i: int| #![trigger self.routes_at(s)[i]]
            s < self.stop_count() && 0 <= i < self.routes_at(s).len() implies {
                let (r, p) = self.routes_at(s)[i];
                &&& r.0 < self.route_count()
                &&& p < self.route_stops(r.0 as nat).len()
                &&& self.route_stops(r.0 as nat)[p as int].0 == s
            } by {
            let (r, p) = self.routes_for_stop@[s as int]@[i];
        }
    }

    fn n_stops(&self) -> (r: usize) {
        self.stop_keys.len()
    }

    fn n_routes(&self) -> (r: usize) {
        self.routes.len()
    }

    fn get_routes_serving_stop(&self, stop: StopIdx) -> (r: &[(RouteIdx, u32)]) {
        self.routes_for_stop[stop.0 as usize].as_slice()
    }

    fn get_stops_after(&self, route: RouteIdx, pos: u32) -> (r: &[StopIdx]) {
        let stops = self.routes[route.0 as usize].as_slice();
        vstd::slice::slice_subrange(stops, pos as usize, stops.len())
    }

    fn stop_at(&self, route: RouteIdx, pos: u32) -> (r: StopIdx) {
        self.routes[route.0 as usize][pos as usize]
    }

    fn get_earliest_trip(&self, route: RouteIdx, at: SecondOfDay, pos: u32) -> (r: Option<TripIdx>) {
        let mut best: Option<TripIdx> = None;
        let mut i: usize = 0;
        while i < self.trips.len()
            invariant
                self.inv(),
                route.0 < self.routes@.len(),
                pos < self.routes@[route.0 as int]@.len(),
                i <= self.trips@.len(),
                best matches Some(b) ==> b.0 < i && self.trip_route(b.0 as nat) == route.0
                    && self.dep_at(b.0 as nat, pos as nat) >= at.0,
                best matches Some(b) ==> forall|u: nat|
                    u < i && self.trip_route(u) == route.0 && #[trigger] self.dep_at(u, pos as nat)
                        >= at.0 ==> self.dep_at(b.0 as nat, pos as nat) <= self.dep_at(u, pos as nat),
                best is None ==> forall|u: nat|
                    u < i && self.trip_route(u) == route.0 ==> #[trigger] self.dep_at(u, pos as nat)
                        < at.0,
                match best {
                    Some(b) => self.earliest_upto(route.0 as nat, at.0, pos as nat, i as nat) == Some(b.0 as nat),
                    None => self.earliest_upto(route.0 as nat, at.0, pos as nat, i as nat) is None,
                },
            decreases self.trips@.len() - i,
        {
            let (tr, times) = &self.trips[i];
            if tr.0 == route.0 {
                let dep = times[pos as usize].1;
                if dep.0 >= at.0 {
                    match best {
                        None => {
                            best = Some(TripIdx(i as u32));
                        },
                        Some(b) => {
                            let bdep = self.trips[b.0 as usize].1[pos as usize].1;
                            if dep.0 < bdep.0 {
                                best = Some(TripIdx(i as u32));
                            }
                        },
                    }
                }
            }
            i = i + 1;
        }
        assert(i as nat == self.trips@.len());
        assert(self.earliest_trip(route.0 as nat, at.0, pos as nat) == self.earliest_upto(route.0 as nat, at.0, pos as nat, i as nat));
        best
    }

    fn get_arrival_time(&self, trip: TripIdx, pos: u32) -> (r: SecondOfDay) {
        self.trips[trip.0 as usize].1[pos as usize].0
    }

    fn get_departure_time(&self, trip: TripIdx, pos: u32) -> (r: SecondOfDay) {
        self.trips[trip.0 as usize].1[pos as usize].1
    }

    fn get_footpaths_from(&self, stop: StopIdx) -> (r: &[StopIdx]) {
        self.footpaths[stop.0 as usize].as_slice()
    }

    fn get_transfer_time(&self, from: StopIdx, to: StopIdx) -> (r: Duration) {
        let k = pair_key_exec(from, to);
        match self.transfer_times.get(&k) {
            Some(d) => *d,
            None => Duration(1),
        }
    }

    fn pickup_allowed(&self, trip: TripIdx, pos: u32) -> (r: bool) {
        true
    }

    fn drop_off_allowed(&self, trip: TripIdx, pos: u32) -> (r: bool) {
        true
    }

    fn trip_wheelchair_accessible(&self, trip: TripIdx) -> (r: bool) {
        assert(self.trip_accessible(trip.0 as nat));
        true
    }

    fn stop_wheelchair_accessible(&self, stop: StopIdx) -> (r: bool) {
        true
    }

    fn footpaths_are_transitively_closed(&self) -> (r: bool) {
        false
    }
}

} // verus!
