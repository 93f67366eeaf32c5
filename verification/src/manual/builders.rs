//! Synthetic networks for benchmarks and rendering: each `build_*` makes a
//! [`SimpleTimetable`] keyed by `usize` stop, route and trip numbers.

use vstd::prelude::*;

use super::{interned_stops, interned_trips, keys_ok, lemma_interned_stops_known, pair_key, trip_keys_of, SimpleTimetable};
use crate::ids::{RouteIdx, StopIdx, TripIdx};
use crate::time::{Duration, SecondOfDay};

verus! {

broadcast use vstd::std_specs::hash::group_hash_axioms;

/// The schedule that starts at `base`, advances `step` seconds per stop
/// and dwells `dwell` seconds at each of `n` stops.
pub open spec fn sched(base: int, step: int, dwell: int, n: nat) -> Seq<(SecondOfDay, SecondOfDay)> {
    Seq::new(n, |i: int| (SecondOfDay((base + i * step) as u32), SecondOfDay((base + i * step + dwell) as u32)))
}

/// Per-stop `(arrival, departure)` pairs: see [`sched`].
fn schedule(base: u32, step: u32, dwell: u32, stops: usize) -> (v: Vec<(SecondOfDay, SecondOfDay)>)
    requires
        stops <= u32::MAX,
        base + stops * step + dwell <= u32::MAX,
    ensures
        v@ == sched(base as int, step as int, dwell as int, stops as nat),
{
    let mut v: Vec<(SecondOfDay, SecondOfDay)> = Vec::new();
    let mut i: usize = 0;
    while i < stops
        invariant
            i <= stops,
            stops <= u32::MAX,
            base + stops * step + dwell <= u32::MAX,
            v@ == sched(base as int, step as int, dwell as int, i as nat),
        decreases stops - i,
    {
        proof {
            assert(i * step <= stops * step) by (nonlinear_arith)
                requires i <= stops;
        }
        let arr = base + (i as u32) * step;
        v.push((SecondOfDay(arr), SecondOfDay(arr + dwell)));
        assert(v@ =~= sched(base as int, step as int, dwell as int, (i + 1) as nat));
        i = i + 1;
    }
    v
}

/// The keys `lo..hi`.
fn key_range(lo: usize, hi: usize) -> (v: Vec<usize>)
    requires
        lo <= hi,
    ensures
        v@.len() == hi - lo,
        forall|i: int| 0 <= i < v@.len() ==> #[trigger] v@[i] == lo + i,
{
    let mut v: Vec<usize> = Vec::new();
    let mut k = lo;
    while k < hi
        invariant
            lo <= k <= hi,
            v@.len() == k - lo,
            forall|i: int| 0 <= i < v@.len() ==> #[trigger] v@[i] == lo + i,
        decreases hi - k,
    {
        v.push(k);
        k = k + 1;
    }
    v
}

/// Interning the keys `0..n` in order into an empty map gives key `k` the
/// index `k`.
proof fn lemma_interned_range(keys: Seq<usize>)
    requires
        forall|i: int| 0 <= i < keys.len() ==> #[trigger] keys[i] == i,
        keys.len() < u32::MAX,
    ensures
        interned_stops(Map::<usize, StopIdx>::empty(), 0, keys) == (
        Map::new(|k: usize| k < keys.len(), |k: usize| StopIdx(k as u32)),
        keys.len(),
        ),
    decreases keys.len(),
{
    if keys.len() > 0 {
        let n = (keys.len() - 1) as nat;
        let prev = keys.drop_last();
        assert forall|i: int| 0 <= i < prev.len() implies #[trigger] prev[i] == i by {
            assert(prev[i] == keys[i]);
        }
        lemma_interned_range(prev);
        assert(keys.last() == n);
        assert(Map::new(|k: usize| k < n, |k: usize| StopIdx(k as u32)).insert(n as usize, StopIdx(n as u32)) =~= Map::new(
            |k: usize| k < keys.len(),
            |k: usize| StopIdx(k as u32),
        ));
    }
}

/// Interning the trip keys `0..n` in order into an empty map gives key `k`
/// the index `k`.
proof fn lemma_interned_trip_range(keys: Seq<usize>)
    requires
        forall|i: int| 0 <= i < keys.len() ==> #[trigger] keys[i] == i,
        keys.len() < u32::MAX,
    ensures
        interned_trips(Map::<usize, TripIdx>::empty(), 0, keys) == (
        Map::new(|k: usize| k < keys.len(), |k: usize| TripIdx(k as u32)),
        keys.len(),
        ),
    decreases keys.len(),
{
    if keys.len() > 0 {
        let n = (keys.len() - 1) as nat;
        let prev = keys.drop_last();
        assert forall|i: int| 0 <= i < prev.len() implies #[trigger] prev[i] == i by {
            assert(prev[i] == keys[i]);
        }
        lemma_interned_trip_range(prev);
        assert(keys.last() == n);
        assert(Map::new(|k: usize| k < n, |k: usize| TripIdx(k as u32)).insert(n as usize, TripIdx(n as u32)) =~= Map::new(
            |k: usize| k < keys.len(),
            |k: usize| TripIdx(k as u32),
        ));
    }
}

/// One route over stops `0..stops` with `trips` back-to-back trips; trip
/// `t` starts at `t * stops * 2`, advances two seconds per stop and dwells
/// one second.
pub fn build_linear(stops: usize, trips: usize) -> (r: SimpleTimetable<usize, usize, usize>)
    requires
        stops + 3 < u32::MAX,
        trips + 3 < u32::MAX,
        trips * stops * 2 + stops * 2 + 1 <= u32::MAX,
    ensures
        r.inv(),
        r.routes@.len() == 1,
        r.route_by_key@ == Map::<usize, RouteIdx>::empty().insert(0, RouteIdx(0)),
        r.routes@[0]@.len() == stops,
        forall|i: usize| i < stops ==> (#[trigger] r.stop_by_key@.contains_key(i)) && r.routes@[0]@[i as int]
            == r.stop_by_key@[i],
        forall|t: usize| t < trips ==> #[trigger] r.trip_by_key@.contains_key(t),
        forall|t: usize| t < trips ==> #[trigger] r.trips@[r.trip_by_key@[t].0 as int].0 == RouteIdx(0),
        forall|t: usize|
            t < trips ==> #[trigger] r.trips@[r.trip_by_key@[t].0 as int].1@ == sched(t * stops * 2, 2, 1, stops as nat),
        r.stop_keys@.len() == stops,
        forall|i: usize| i < stops ==> #[trigger] r.stop_by_key@[i] == StopIdx(i as u32),
        r.trip_keys@.len() == trips,
        forall|t: usize| t < trips ==> #[trigger] r.trip_by_key@[t] == TripIdx(t as u32),
        forall|s: int| #[trigger] r.footpaths_of(s).len() == 0,
        r.transfer_times@ == Map::<u64, Duration>::empty(),
{
    proof {
        assert(keys_ok::<usize, usize, usize>());
    }
    let stop_keys = key_range(0, stops);
    proof {
        lemma_interned_range(stop_keys@);
    }
    let mut trip_times: Vec<Vec<(SecondOfDay, SecondOfDay)>> = Vec::new();
    let mut t: usize = 0;
    while t < trips
        invariant
            t <= trips,
            trips * stops * 2 + stops * 2 + 1 <= u32::MAX,
            trip_times@.len() == t,
            forall|x: int| 0 <= x < t ==> (#[trigger] trip_times@[x])@ == sched(x * stops * 2, 2, 1, stops as nat),
        decreases trips - t,
    {
        proof {
            assert(t * stops * 2 <= trips * stops * 2) by (nonlinear_arith)
                requires t <= trips;
        }
        let times = schedule((t * stops * 2) as u32, 2, 1, stops);
        trip_times.push(times);
        t = t + 1;
    }
    let mut specs: Vec<(usize, &[(SecondOfDay, SecondOfDay)])> = Vec::new();
    let mut q: usize = 0;
    while q < trip_times.len()
        invariant
            q <= trip_times@.len(),
            specs@.len() == q,
            forall|x: int| 0 <= x < q ==> (#[trigger] specs@[x]).0 == x && specs@[x].1@ == trip_times@[x]@,
        decreases trip_times@.len() - q,
    {
        specs.push((q, trip_times[q].as_slice()));
        q = q + 1;
    }
    let tt: SimpleTimetable<usize, usize, usize> = SimpleTimetable::new();
    let r = tt.route(0, stop_keys.as_slice(), specs.as_slice());
    proof {
        let tk = trip_keys_of(specs@);
        assert forall|i: int| 0 <= i < tk.len() implies #[trigger] tk[i] == i by {
            assert(specs@[i].0 == i);
        }
        lemma_interned_trip_range(tk);
        assert(tk.len() == trips);
        assert(tt.trip_by_key@ == Map::<usize, TripIdx>::empty());
        assert forall|t: usize| t < trips implies #[trigger] r.trip_by_key@[t] == TripIdx(t as u32) by {
            assert(r.trip_by_key@ == Map::new(|k: usize| k < tk.len(), |k: usize| TripIdx(k as u32)));
        }
        assert forall|s: int| #[trigger] r.footpaths_of(s).len() == 0 by {
            if 0 <= s < r.footpaths@.len() {
                assert(r.footpaths_of(s) == tt.footpaths_of(s));
            }
        }
        assert forall|i: usize| i < stops implies (#[trigger] r.stop_by_key@.contains_key(i)) && r.routes@[0]@[i as int]
            == r.stop_by_key@[i] by {
            assert(stop_keys@[i as int] == i);
        }
        assert forall|t: usize|
            t < trips implies (#[trigger] r.trip_by_key@.contains_key(t)) && r.trips@[r.trip_by_key@[t].0 as int].0
                == RouteIdx(0) && r.trips@[r.trip_by_key@[t].0 as int].1@ == sched(t * stops * 2, 2, 1, stops as nat) by {
            assert(specs@[t as int].0 == t);
            assert forall|l: int| t < l < specs@.len() implies specs@[l].0 != specs@[t as int].0 by {
                assert(specs@[l].0 == l);
            }
        }
        assert forall|t: usize| t < trips implies #[trigger] r.trips@[r.trip_by_key@[t].0 as int].0 == RouteIdx(0) by {
            assert(r.trip_by_key@.contains_key(t));
        }
        assert forall|t: usize|
            t < trips implies #[trigger] r.trips@[r.trip_by_key@[t].0 as int].1@ == sched(t * stops * 2, 2, 1, stops as nat) by {
            assert(r.trip_by_key@.contains_key(t));
        }
    }
    r
}

/// The two stop times of chain segment `s`.
pub open spec fn chain_times(s: usize) -> Seq<(SecondOfDay, SecondOfDay)> {
    seq![
        (SecondOfDay((s * 20) as u32), SecondOfDay((s * 20 + 5) as u32)),
        (SecondOfDay((s * 20 + 10) as u32), SecondOfDay((s * 20 + 15) as u32)),
    ]
}

/// A chain of single-leg routes `0 -> 1 -> 2 -> ...`; segment `s` is route
/// and trip `s`, departing `s * 20 + 5` and arriving `s * 20 + 10`.
#[verifier::spinoff_prover]
#[verifier::rlimit(40)]
pub fn build_chain(segments: usize) -> (r: SimpleTimetable<usize, usize, usize>)
    requires
        segments * 20 + 15 <= u32::MAX,
    ensures
        r.inv(),
        r.routes@.len() == segments,
        forall|s: usize| s < segments ==> #[trigger] r.route_by_key@.contains_key(s) && r.route_by_key@[s] == RouteIdx(s as u32),
        forall|s: usize|
            s < segments ==> #[trigger] r.routes@[s as int]@ =~= seq![r.stop_by_key@[s], r.stop_by_key@[(s + 1) as usize]],
        forall|s: usize| s < segments ==> #[trigger] r.trip_by_key@.contains_key(s),
        forall|s: usize| s < segments ==> #[trigger] r.trips@[r.trip_by_key@[s].0 as int].1@ == chain_times(s),
{
    proof {
        assert(keys_ok::<usize, usize, usize>());
    }
    let mut tt: SimpleTimetable<usize, usize, usize> = SimpleTimetable::new();
    let mut seg: usize = 0;
    while seg < segments
        invariant
            tt.inv(),
            seg <= segments,
            segments * 20 + 15 <= u32::MAX,
            tt.routes@.len() == seg,
            tt.route_keys@.len() == seg,
            tt.stop_keys@.len() <= seg * 2,
            tt.trip_keys@.len() <= seg,
            forall|k: usize| #[trigger] tt.route_by_key@.contains_key(k) <==> k < seg,
            forall|s: usize| s < seg ==> #[trigger] tt.route_by_key@[s] == RouteIdx(s as u32),
            forall|k: usize| #[trigger] tt.stop_by_key@.contains_key(k) ==> k <= seg,
            forall|s: usize|
                s < seg ==> #[trigger] tt.routes@[s as int]@ == seq![tt.stop_by_key@[s], tt.stop_by_key@[(s + 1) as usize]],
            forall|s: usize| s <= seg && seg > 0 ==> #[trigger] tt.stop_by_key@.contains_key(s),
            forall|k: usize| #[trigger] tt.trip_by_key@.contains_key(k) ==> k < seg,
            forall|s: usize|
                s < seg ==> (#[trigger] tt.trip_by_key@.contains_key(s)) && tt.trips@[tt.trip_by_key@[s].0 as int].1@ =~= chain_times(s),
        decreases segments - seg,
    {
        let base = (seg * 20) as u32;
        let times = [
            (SecondOfDay(base), SecondOfDay(base + 5)),
            (SecondOfDay(base + 10), SecondOfDay(base + 15)),
        ];
        let stops = [seg, seg + 1];
        let specs = [(seg, times.as_slice())];
        let ghost before = tt;
        tt = tt.route(seg, stops.as_slice(), specs.as_slice());
        proof {
            assert(specs@[0].0 == seg);
            assert(stops@[0] == seg && stops@[1] == seg + 1);
            assert(tt.stop_by_key@.contains_key(stops@[0]));
            assert(tt.stop_by_key@.contains_key(stops@[1]));
            assert(tt.trip_by_key@.contains_key(specs@[0].0));
            assert forall|k: usize| #[trigger] tt.route_by_key@.contains_key(k) <==> k < seg + 1 by {
                if k == seg {
                    assert(tt.route_by_key@.contains_key(seg));
                }
            }
            assert forall|s: usize| s < seg + 1 implies #[trigger] tt.route_by_key@[s] == RouteIdx(s as u32) by {
                if s < seg {
                    assert(before.route_by_key@[s] == RouteIdx(s as u32));
                }
            }
            assert(tt.routes@[seg as int]@ =~= seq![tt.stop_by_key@[seg], tt.stop_by_key@[(seg + 1) as usize]]) by {
                assert(tt.routes@[seg as int]@[0] == tt.stop_by_key@[stops@[0]]);
                assert(tt.routes@[seg as int]@[1] == tt.stop_by_key@[stops@[1]]);
            }
            assert forall|s: usize|
                s < seg + 1 implies #[trigger] tt.routes@[s as int]@ == seq![tt.stop_by_key@[s], tt.stop_by_key@[(s + 1) as usize]] by {
                if s < seg {
                    assert(tt.routes@[s as int] == before.routes@[s as int]);
                    assert(before.stop_by_key@.contains_key(s));
                    assert(before.stop_by_key@.contains_key((s + 1) as usize));
                }
            }
            assert forall|k: usize| #[trigger] tt.stop_by_key@.contains_key(k) implies k <= seg + 1 by {
                if !before.stop_by_key@.contains_key(k) {
                    assert(k == seg || k == seg + 1);
                }
            }
            assert forall|s: usize| s <= seg + 1 implies #[trigger] tt.stop_by_key@.contains_key(s) by {
                if s < seg {
                    assert(before.stop_by_key@.contains_key(s));
                }
            }
            assert forall|k: usize| #[trigger] tt.trip_by_key@.contains_key(k) implies k < seg + 1 by {
                if !before.trip_by_key@.contains_key(k) {
                    assert(k == seg);
                }
            }
            assert(tt.trips@[tt.trip_by_key@[seg].0 as int].1@ == times@);
            assert forall|s: usize|
                s < seg + 1 implies (#[trigger] tt.trip_by_key@.contains_key(s)) && tt.trips@[tt.trip_by_key@[s].0 as int].1@ =~= chain_times(s) by {
                if s < seg {
                    assert(before.trip_by_key@.contains_key(s));
                    assert(tt.trip_by_key@[s] == before.trip_by_key@[s]);
                    assert forall|q: int| 0 <= q < specs@.len() implies (#[trigger] specs@[q]).0 != s by {
                        assert(q == 0);
                    }
                    assert(tt.trips@[tt.trip_by_key@[s].0 as int] == before.trips@[before.trip_by_key@[s].0 as int]);
                } else {
                    assert(times@ =~= chain_times(s));
                }
            }
        }
        seg = seg + 1;
    }
    assert forall|s: usize| s < segments implies #[trigger] tt.trips@[tt.trip_by_key@[s].0 as int].1@ == chain_times(s) by {
        assert(tt.trip_by_key@.contains_key(s));
    }
    tt
}


/// The facts every builder below keeps about the network built so far:
/// routes `0..n` exist under keys `0..n`, and the key counts stay small.
pub open spec fn routes_so_far(tt: SimpleTimetable<usize, usize, usize>, n: nat, stop_cap: nat) -> bool {
    &&& tt.inv()
    &&& tt.routes@.len() == n
    &&& tt.route_keys@.len() == n
    &&& tt.trip_keys@.len() <= n
    &&& tt.stop_keys@.len() <= stop_cap
    &&& forall|k: usize| #[trigger] tt.route_by_key@.contains_key(k) <==> k < n
    &&& forall|k: usize| k < n ==> #[trigger] tt.route_by_key@[k] == RouteIdx(k as u32)
}

/// The network has no footpaths and no walking times.
pub open spec fn walk_free(tt: SimpleTimetable<usize, usize, usize>) -> bool {
    &&& tt.transfer_times@ == Map::<u64, Duration>::empty()
    &&& forall|s: int| #[trigger] tt.footpaths_of(s).len() == 0
}

/// Adds route and trip `id` over `stops` with one trip `times`.
fn add_route(
    tt: SimpleTimetable<usize, usize, usize>,
    id: usize,
    stops: &[usize],
    times: &[(SecondOfDay, SecondOfDay)],
    Ghost(cap): Ghost<nat>,
) -> (r: SimpleTimetable<usize, usize, usize>)
    requires
        routes_so_far(tt, id as nat, cap),
        times@.len() == stops@.len(),
        id + 3 < u32::MAX,
        cap + stops@.len() + 2 < u32::MAX,
    ensures
        routes_so_far(r, (id + 1) as nat, cap + stops@.len()),
        r.routes@[id as int]@.len() == stops@.len(),
        forall|q: int| 0 <= q < id ==> #[trigger] r.routes@[q] == tt.routes@[q],
        r.transfer_times == tt.transfer_times,
        forall|k: usize| #[trigger] tt.stop_by_key@.contains_key(k) ==> r.stop_by_key@.contains_key(k) && r.stop_by_key@[k]
            == tt.stop_by_key@[k],
        walk_free(tt) ==> walk_free(r),
        forall|i: int| 0 <= i < stops@.len() ==> r.stop_by_key@.contains_key(#[trigger] stops@[i]) && r.routes@[id as int]@[i]
            == r.stop_by_key@[stops@[i]],
        (r.stop_by_key@, r.stop_keys@.len()) == interned_stops(tt.stop_by_key@, tt.stop_keys@.len(), stops@),
        r.trip_by_key@.contains_key(id),
        r.trips@[r.trip_by_key@[id].0 as int].0 == RouteIdx(id as u32),
        r.trips@[r.trip_by_key@[id].0 as int].1@ == times@,
        forall|k: usize|
            #[trigger] tt.trip_by_key@.contains_key(k) && k != id ==> r.trip_by_key@.contains_key(k) && r.trip_by_key@[k]
                == tt.trip_by_key@[k] && r.trips@[r.trip_by_key@[k].0 as int] == tt.trips@[tt.trip_by_key@[k].0 as int],
{
    proof {
        assert(keys_ok::<usize, usize, usize>());
    }
    let specs = [(id, times)];
    let r = tt.route(id, stops, specs.as_slice());
    proof {
        assert(specs@[0].0 == id);
        assert(specs@.len() == 1);
        assert(r.trip_by_key@.contains_key(specs@[0].0));
        assert forall|k: usize| #[trigger] tt.trip_by_key@.contains_key(k) && k != id implies r.trip_by_key@.contains_key(k)
            && r.trip_by_key@[k] == tt.trip_by_key@[k] && r.trips@[r.trip_by_key@[k].0 as int] == tt.trips@[tt.trip_by_key@[k].0 as int] by {
            assert forall|q: int| 0 <= q < specs@.len() implies (#[trigger] specs@[q]).0 != k by {
                assert(q == 0);
            }
        }
        if walk_free(tt) {
            assert forall|s: int| #[trigger] r.footpaths_of(s).len() == 0 by {
                if 0 <= s < r.footpaths@.len() {
                    assert(r.footpaths_of(s) == tt.footpaths_of(s));
                }
            }
        }
        assert forall|k: usize| #[trigger] r.route_by_key@.contains_key(k) <==> k < id + 1 by {
            if k == id {
                assert(r.route_by_key@.contains_key(id));
            }
        }
        assert forall|k: usize| k < id + 1 implies #[trigger] r.route_by_key@[k] == RouteIdx(k as u32) by {
            if k < id {
                assert(tt.route_by_key@[k] == RouteIdx(k as u32));
            }
        }
    }
    r
}

/// `routes` horizontal routes of `stops_per_route` stops each (route `r`
/// over stops `r * stops_per_route ..`), joined by `connectors` vertical
/// routes that each link one column of stops across all horizontal
/// routes. Routes are keyed `0, 1, ...` in that order.
pub fn build_grid(routes: usize, stops_per_route: usize, connectors: usize) -> (r: SimpleTimetable<usize, usize, usize>)
    requires
        routes * stops_per_route + routes * connectors + routes + connectors + 16 < u32::MAX,
        stops_per_route * 10 + routes * 3 + 16 < u32::MAX,
    ensures
        routes_so_far(r, (routes + connectors) as nat, (routes * stops_per_route + connectors * routes) as nat),
        forall|q: int| 0 <= q < routes ==> (#[trigger] r.routes@[q])@.len() == stops_per_route,
        forall|c: int| 0 <= c < connectors ==> (#[trigger] r.routes@[routes + c])@.len() == routes,
{
    let mut tt: SimpleTimetable<usize, usize, usize> = SimpleTimetable::new();
    let mut id: usize = 0;
    let mut rr: usize = 0;
    while rr < routes
        invariant
            rr <= routes,
            id == rr,
            routes * stops_per_route + routes * connectors + routes + connectors + 16 < u32::MAX,
            stops_per_route * 10 + routes * 3 + 16 < u32::MAX,
            routes_so_far(tt, id as nat, (rr * stops_per_route) as nat),
            forall|q: int| 0 <= q < rr ==> (#[trigger] tt.routes@[q])@.len() == stops_per_route,
        decreases routes - rr,
    {
        proof {
            assert(rr * stops_per_route + stops_per_route == (rr + 1) * stops_per_route) by (nonlinear_arith);
            assert((rr + 1) * stops_per_route <= routes * stops_per_route) by (nonlinear_arith)
                requires rr + 1 <= routes;
        }
        let stops = key_range(rr * stops_per_route, (rr + 1) * stops_per_route);
        let times = schedule(0, 10, 5, stops_per_route);
        tt = add_route(tt, id, stops.as_slice(), times.as_slice(), Ghost((rr * stops_per_route) as nat));
        id = id + 1;
        rr = rr + 1;
    }
    let col_step = (if stops_per_route > 1 { stops_per_route } else { 1 }) / (if connectors > 1 { connectors } else { 1 });
    proof {
        let a = if stops_per_route > 1 { stops_per_route } else { 1 };
        let b = if connectors > 1 { connectors } else { 1 };
        assert(col_step * b <= a) by (nonlinear_arith)
            requires col_step == a / b, b >= 1, a >= 0;
    }
    let mut c: usize = 0;
    while c < connectors
        invariant
            c <= connectors,
            id == routes + c,
            rr == routes,
            col_step * (if connectors > 1 { connectors } else { 1 }) <= (if stops_per_route > 1 { stops_per_route } else { 1 }),
            routes * stops_per_route + routes * connectors + routes + connectors + 16 < u32::MAX,
            stops_per_route * 10 + routes * 3 + 16 < u32::MAX,
            routes_so_far(tt, id as nat, (routes * stops_per_route + c * routes) as nat),
            c * routes <= routes * connectors,
            forall|q: int| 0 <= q < routes ==> (#[trigger] tt.routes@[q])@.len() == stops_per_route,
            forall|q: int| 0 <= q < c ==> (#[trigger] tt.routes@[routes + q])@.len() == routes,
        decreases connectors - c,
    {
        proof {
            let b = if connectors > 1 { connectors } else { 1 };
            assert(c * col_step <= col_step * b) by (nonlinear_arith)
                requires c < connectors, connectors <= b, col_step >= 0;
        }
        let col = c * col_step;
        assert(col <= stops_per_route + 1);
        let mut stops: Vec<usize> = Vec::new();
        let mut times: Vec<(SecondOfDay, SecondOfDay)> = Vec::new();
        let mut k: usize = 0;
        while k < routes
            invariant
                k <= routes,
                col <= (if stops_per_route > 1 { stops_per_route } else { 1 }),
                col <= stops_per_route + 1,
                col * 10 <= stops_per_route * 10 + 10,
                routes * stops_per_route + routes * connectors + routes + connectors + 16 < u32::MAX,
                stops_per_route * 10 + routes * 3 + 16 < u32::MAX,
                stops@.len() == k,
                times@.len() == k,
            decreases routes - k,
        {
            proof {
                assert(k * stops_per_route + stops_per_route <= routes * stops_per_route) by (nonlinear_arith)
                    requires k < routes;
                assert(k * 3 <= routes * 3) by (nonlinear_arith)
                    requires k <= routes;
            }
            stops.push(k * stops_per_route + col);
            let t = (col * 10) as u32 + (k as u32) * 3;
            times.push((SecondOfDay(t), SecondOfDay(t + 1)));
            k = k + 1;
        }
        proof {
            assert(routes * stops_per_route + c * routes + routes == routes * stops_per_route + (c + 1) * routes) by (nonlinear_arith);
            assert(routes * stops_per_route + (c + 1) * routes <= routes * stops_per_route + routes * connectors) by (nonlinear_arith)
                requires c + 1 <= connectors;
        }
        let ghost before = tt;
        tt = add_route(tt, id, stops.as_slice(), times.as_slice(), Ghost((routes * stops_per_route + c * routes) as nat));
        proof {
            assert forall|q: int| 0 <= q < routes implies (#[trigger] tt.routes@[q])@.len() == stops_per_route by {
                assert(tt.routes@[q] == before.routes@[q]);
            }
            assert forall|q: int| 0 <= q < c + 1 implies (#[trigger] tt.routes@[routes + q])@.len() == routes by {
                if q < c {
                    assert(tt.routes@[routes + q] == before.routes@[routes + q]);
                }
            }
        }
        id = id + 1;
        c = c + 1;
    }
    tt
}

/// Distinct stop pairs have distinct keys in the transfer-time table.
proof fn lemma_pair_key_injective(a: u32, b: u32, c: u32, d: u32)
    requires
        pair_key(a, b) == pair_key(c, d),
    ensures
        a == c,
        b == d,
{
    assert(a as u64 * 4294967296 + b as u64 <= u64::MAX) by (nonlinear_arith)
        requires
            a <= u32::MAX,
            b <= u32::MAX,
    ;
    assert(c as u64 * 4294967296 + d as u64 <= u64::MAX) by (nonlinear_arith)
        requires
            c <= u32::MAX,
            d <= u32::MAX,
    ;
    assert(a == c && b == d) by (nonlinear_arith)
        requires
            a * 4294967296 + b == c * 4294967296 + d,
            a <= u32::MAX,
            b <= u32::MAX,
            c <= u32::MAX,
            d <= u32::MAX,
            0 <= a,
            0 <= b,
            0 <= c,
            0 <= d,
    ;
}

/// The stops of hubs `0..n` other than hub `i`, in hub order, as `m`
/// indexes them.
pub open spec fn other_hubs(m: Map<usize, StopIdx>, i: nat, n: nat) -> Seq<StopIdx>
    decreases n,
{
    if n == 0 {
        Seq::empty()
    } else {
        let prev = other_hubs(m, i, (n - 1) as nat);
        if n - 1 == i {
            prev
        } else {
            prev.push(m[(n - 1) as usize])
        }
    }
}

/// When no other hub shares hub `i`'s stop, [`other_hubs`] does not list
/// that stop.
proof fn lemma_other_hubs_excludes(m: Map<usize, StopIdx>, i: usize, n: nat)
    requires
        n <= usize::MAX,
        forall|a: usize| a < n && a != i ==> #[trigger] m[a] != m[i],
    ensures
        !other_hubs(m, i as nat, n).contains(m[i]),
    decreases n,
{
    if n > 0 {
        let prev = other_hubs(m, i as nat, (n - 1) as nat);
        lemma_other_hubs_excludes(m, i, (n - 1) as nat);
        assert forall|x: int| 0 <= x < other_hubs(m, i as nat, n).len() implies other_hubs(m, i as nat, n)[x] != m[i] by {
            if x < prev.len() {
                assert(other_hubs(m, i as nat, n)[x] == prev[x]);
                if prev[x] == m[i] {
                    assert(prev.contains(m[i]));
                }
            } else {
                assert(n - 1 != i);
                let a = (n - 1) as usize;
                assert(other_hubs(m, i as nat, n)[x] == m[a]);
                assert(a < n && a != i);
                assert(m[a] != m[i]);
            }
        }
    }
}

/// Hub `j` other than `i`, among the first `n`, is listed by [`other_hubs`].
proof fn lemma_other_hubs_contains(m: Map<usize, StopIdx>, i: nat, n: nat, j: usize)
    requires
        j < n,
        j != i,
    ensures
        other_hubs(m, i, n).contains(m[j]),
    decreases n,
{
    let prev = other_hubs(m, i, (n - 1) as nat);
    if j < n - 1 {
        lemma_other_hubs_contains(m, i, (n - 1) as nat, j);
        let x = choose|x: int| 0 <= x < prev.len() && prev[x] == m[j];
        assert(other_hubs(m, i, n)[x] == m[j]);
    } else {
        assert(other_hubs(m, i, n)[prev.len() as int] == m[j]);
    }
}

/// The walk from hub `a` to hub `b`, as `m` indexes them, takes two
/// seconds in `times`.
pub open spec fn walk_of_two(times: Map<u64, Duration>, m: Map<usize, StopIdx>, a: usize, b: usize) -> bool {
    &&& times.contains_key(pair_key(m[a].0, m[b].0))
    &&& times[pair_key(m[a].0, m[b].0)] == Duration(2)
}

/// Setting the walk from hub `i` to hub `j` to two seconds keeps every
/// two-second walk set before, when distinct hubs have distinct stops.
proof fn lemma_walk_step(
    before: Map<u64, Duration>,
    after: Map<u64, Duration>,
    m: Map<usize, StopIdx>,
    hubs: usize,
    i: usize,
    j: usize,
)
    requires
        i < hubs,
        j < hubs,
        i != j,
        after == before.insert(pair_key(m[i].0, m[j].0), Duration(2)),
        forall|a: usize, b: usize| a < hubs && b < hubs && #[trigger] m[a] == #[trigger] m[b] ==> a == b,
        forall|a: usize, b: usize|
            ((a < i && b < hubs) || (a == i && b < j)) && a != b ==> #[trigger] walk_of_two(before, m, a, b),
    ensures
        forall|a: usize, b: usize|
            ((a < i && b < hubs) || (a == i && b < j + 1)) && a != b ==> #[trigger] walk_of_two(after, m, a, b),
{
    assert forall|a: usize, b: usize|
        ((a < i && b < hubs) || (a == i && b < j + 1)) && a != b implies #[trigger] walk_of_two(after, m, a, b) by {
        if !(a == i && b == j) {
            assert(walk_of_two(before, m, a, b));
            if pair_key(m[a].0, m[b].0) == pair_key(m[i].0, m[j].0) {
                lemma_pair_key_injective(m[a].0, m[b].0, m[i].0, m[j].0);
                assert(m[a] == m[i]);
                assert(m[b] == m[j]);
            }
        }
    }
}

/// Adds the footpath from the registered stop `i` to the registered stop
/// `j`, with a walking time of two seconds.
fn connect_pair(tt: SimpleTimetable<usize, usize, usize>, i: usize, j: usize) -> (r: SimpleTimetable<usize, usize, usize>)
    requires
        tt.inv(),
        tt.stop_keys@.len() + 2 < u32::MAX,
        tt.stop_by_key@.contains_key(i),
        tt.stop_by_key@.contains_key(j),
    ensures
        r.inv(),
        tt.routes_indexed() ==> r.routes_indexed(),
        r.stop_by_key@ == tt.stop_by_key@,
        r.stop_keys@.len() == tt.stop_keys@.len(),
        r.route_keys == tt.route_keys,
        r.route_by_key == tt.route_by_key,
        r.trip_keys@.len() == tt.trip_keys@.len(),
        r.routes == tt.routes,
        r.trips == tt.trips,
        r.footpaths_of(tt.stop_by_key@[i].0 as int) == tt.footpaths_of(tt.stop_by_key@[i].0 as int).push(tt.stop_by_key@[j]),
        forall|s: int| s != tt.stop_by_key@[i].0 ==> #[trigger] r.footpaths_of(s) == tt.footpaths_of(s),
        r.transfer_times@ == tt.transfer_times@.insert(
            pair_key(tt.stop_by_key@[i].0, tt.stop_by_key@[j].0),
            Duration(2),
        ),
{
    proof {
        assert(keys_ok::<usize, usize, usize>());
    }
    let ghost m = tt.stop_by_key@;
    let ghost t0 = tt;
    let t1 = tt.footpath(i, j);
    proof {
        lemma_interned_stops_known(m, t0.stop_keys@.len(), seq![i, j]);
        assert(t1.stop_by_key@ == m);
    }
    let r = t1.transfer_time(i, j, Duration(2));
    proof {
        lemma_interned_stops_known(m, t1.stop_keys@.len(), seq![i, j]);
        assert(r.stop_by_key@ == m);
        assert(r.footpaths@ == t1.footpaths@);
        assert forall|s: int| s != m[i].0 implies #[trigger] r.footpaths_of(s) == t0.footpaths_of(s) by {
            assert(r.footpaths_of(s) == t1.footpaths_of(s));
            if 0 <= s < t1.footpaths@.len() {
                assert(t1.footpaths_of(s) == t0.footpaths_of(s));
            }
        }
        assert(r.footpaths_of(m[i].0 as int) == t1.footpaths_of(m[i].0 as int));
    }
    r
}

/// Joins every ordered pair of distinct hubs `0..hubs`, all registered
/// already, by a footpath with a walking time of two seconds, hub by hub
/// and within a hub in hub order.
#[verifier::rlimit(60)]
#[verifier::spinoff_prover]
fn connect_hubs(tt: SimpleTimetable<usize, usize, usize>, hubs: usize) -> (r: SimpleTimetable<usize, usize, usize>)
    requires
        tt.inv(),
        tt.stop_keys@.len() + 2 < u32::MAX,
        forall|x: usize| x < hubs ==> #[trigger] tt.stop_by_key@.contains_key(x),
    ensures
        r.inv(),
        tt.routes_indexed() ==> r.routes_indexed(),
        r.stop_by_key@ == tt.stop_by_key@,
        r.stop_keys@.len() == tt.stop_keys@.len(),
        r.route_keys == tt.route_keys,
        r.route_by_key == tt.route_by_key,
        r.trip_keys@.len() == tt.trip_keys@.len(),
        r.routes == tt.routes,
        r.trips == tt.trips,
        forall|i: usize| i < hubs ==> #[trigger] r.footpaths_of(r.stop_by_key@[i].0 as int) == tt.footpaths_of(
            tt.stop_by_key@[i].0 as int,
        ) + other_hubs(tt.stop_by_key@, i as nat, hubs as nat),
        forall|s: int|
            (forall|i: usize| i < hubs ==> s != (#[trigger] tt.stop_by_key@[i]).0) ==> #[trigger] r.footpaths_of(s)
                == tt.footpaths_of(s),
        forall|i: usize, j: usize|
            i < hubs && j < hubs && i != j ==> #[trigger] walk_of_two(r.transfer_times@, tt.stop_by_key@, i, j),
{
    let ghost m = tt.stop_by_key@;
    let ghost t0 = tt;
    let mut tt = tt;
    proof {
        assert(keys_ok::<usize, usize, usize>());
    }
    let mut i: usize = 0;
    while i < hubs
        invariant
            keys_ok::<usize, usize, usize>(),
            i <= hubs,
            tt.inv(),
            t0.routes_indexed() ==> tt.routes_indexed(),
            tt.stop_by_key@ == m,
            m == t0.stop_by_key@,
            tt.stop_keys@.len() == t0.stop_keys@.len(),
            t0.stop_keys@.len() + 2 < u32::MAX,
            forall|x: usize| x < hubs ==> #[trigger] m.contains_key(x),
            tt.route_keys == t0.route_keys,
            tt.route_by_key == t0.route_by_key,
            tt.trip_keys@.len() == t0.trip_keys@.len(),
            tt.routes == t0.routes,
            tt.trips == t0.trips,
            forall|a: usize| a < i ==> #[trigger] tt.footpaths_of(m[a].0 as int) == t0.footpaths_of(m[a].0 as int)
                + other_hubs(m, a as nat, hubs as nat),
            forall|s: int|
                (forall|a: usize| a < i ==> s != (#[trigger] m[a]).0) ==> #[trigger] tt.footpaths_of(s) == t0.footpaths_of(s),
            forall|a: usize, b: usize|
                a < i && b < hubs && a != b ==> #[trigger] walk_of_two(tt.transfer_times@, m, a, b),
        decreases hubs - i,
    {
        let ghost ti = tt;
        let mut j: usize = 0;
        proof {
            assert forall|a: usize, b: usize|
                ((a < i && b < hubs) || (a == i && b < j)) && a != b implies #[trigger] walk_of_two(tt.transfer_times@, m, a, b) by {
                assert(a < i);
            }
            assert(other_hubs(m, i as nat, 0) =~= Seq::<StopIdx>::empty());
            assert(tt.footpaths_of(m[i].0 as int) =~= ti.footpaths_of(m[i].0 as int) + other_hubs(m, i as nat, 0));
        }
        while j < hubs
            invariant
                keys_ok::<usize, usize, usize>(),
                i < hubs,
                j <= hubs,
                tt.inv(),
                t0.routes_indexed() ==> tt.routes_indexed(),
                tt.stop_by_key@ == m,
                m == t0.stop_by_key@,
                tt.stop_keys@.len() == t0.stop_keys@.len(),
                t0.stop_keys@.len() + 2 < u32::MAX,
                forall|x: usize| x < hubs ==> #[trigger] m.contains_key(x),
                tt.route_keys == t0.route_keys,
                tt.route_by_key == t0.route_by_key,
                tt.trip_keys@.len() == t0.trip_keys@.len(),
                tt.routes == t0.routes,
                tt.trips == t0.trips,
                tt.footpaths_of(m[i].0 as int) == ti.footpaths_of(m[i].0 as int) + other_hubs(m, i as nat, j as nat),
                forall|s: int| s != m[i].0 ==> #[trigger] tt.footpaths_of(s) == ti.footpaths_of(s),
                forall|a: usize, b: usize|
                    ((a < i && b < hubs) || (a == i && b < j)) && a != b ==> #[trigger] walk_of_two(tt.transfer_times@, m, a, b),
                forall|a: usize, b: usize|
                    a < i && b < hubs && a != b ==> #[trigger] walk_of_two(ti.transfer_times@, m, a, b),
            decreases hubs - j,
        {
            let ghost tj = tt;
            if i != j {
                assert(m.contains_key(i) && m.contains_key(j));
                tt = connect_pair(tt, i, j);
                proof {
                    assert(other_hubs(m, i as nat, (j + 1) as nat) == other_hubs(m, i as nat, j as nat).push(m[j]));
                    assert(tt.footpaths_of(m[i].0 as int) =~= ti.footpaths_of(m[i].0 as int) + other_hubs(m, i as nat, (j + 1) as nat));
                    assert forall|s: int| s != m[i].0 implies #[trigger] tt.footpaths_of(s) == ti.footpaths_of(s) by {
                        assert(tt.footpaths_of(s) == tj.footpaths_of(s));
                    }
                    assert forall|a: usize, b: usize| a < hubs && b < hubs && #[trigger] m[a] == #[trigger] m[b] implies a == b by {
                        assert(tt.stop_by_key@.contains_key(a) && tt.stop_by_key@.contains_key(b));
                        assert(tt.stop_keys@[m[a].0 as int] == a);
                        assert(tt.stop_keys@[m[b].0 as int] == b);
                    }
                    lemma_walk_step(tj.transfer_times@, tt.transfer_times@, m, hubs, i, j);
                }
            } else {
                proof {
                    assert(other_hubs(m, i as nat, (j + 1) as nat) == other_hubs(m, i as nat, j as nat));
                }
            }
            j = j + 1;
        }
        proof {
            assert forall|a: usize| a < i + 1 implies #[trigger] tt.footpaths_of(m[a].0 as int) == t0.footpaths_of(m[a].0 as int)
                + other_hubs(m, a as nat, hubs as nat) by {
                if a < i {
                    assert(m.contains_key(a) && m.contains_key(i));
                    if m[a].0 == m[i].0 {
                        assert(tt.stop_keys@[m[a].0 as int] == a);
                        assert(tt.stop_keys@[m[i].0 as int] == i);
                    }
                    assert(tt.footpaths_of(m[a].0 as int) == ti.footpaths_of(m[a].0 as int));
                } else {
                    assert forall|x: usize| x < i implies m[i].0 != (#[trigger] m[x]).0 by {
                        assert(m.contains_key(x) && m.contains_key(i));
                        if m[x].0 == m[i].0 {
                            assert(tt.stop_keys@[m[x].0 as int] == x);
                            assert(tt.stop_keys@[m[i].0 as int] == i);
                        }
                    }
                    assert(ti.footpaths_of(m[i].0 as int) == t0.footpaths_of(m[i].0 as int));
                }
            }
            assert forall|s: int| (forall|a: usize| a < i + 1 ==> s != (#[trigger] m[a]).0) implies #[trigger] tt.footpaths_of(s)
                == t0.footpaths_of(s) by {
                assert(s != m[i].0);
                assert(tt.footpaths_of(s) == ti.footpaths_of(s));
            }
        }
        i = i + 1;
    }
    tt
}

/// Interning a hub key `h` and then `k` fresh keys `base..base + k` adds
/// those keys, and one index for each key that was not there.
proof fn lemma_intern_hub_route(m: Map<usize, StopIdx>, n: nat, keys: Seq<usize>, h: usize, base: nat, k: nat)
    requires
        keys.len() == k + 1,
        keys[0] == h,
        forall|i: int| 1 <= i <= k ==> #[trigger] keys[i] == base + i - 1,
        h < base,
        forall|x: usize| base <= x < base + k ==> !#[trigger] m.contains_key(x),
    ensures
        forall|x: usize|
            #[trigger] interned_stops(m, n, keys).0.contains_key(x) <==> (m.contains_key(x) || x == h || (base <= x < base + k)),
        interned_stops(m, n, keys).1 == n + (if m.contains_key(h) { 0nat } else { 1nat }) + k,
    decreases k,
{
    if k == 0 {
        assert(keys.drop_last() =~= Seq::<usize>::empty());
        assert(interned_stops(m, n, keys.drop_last()) == (m, n));
        assert(keys.last() == h);
        assert forall|x: usize|
            #[trigger] interned_stops(m, n, keys).0.contains_key(x) <==> (m.contains_key(x) || x == h || (base <= x < base + k)) by {
        }
    } else {
        let prev = keys.drop_last();
        assert forall|i: int| 1 <= i <= k - 1 implies #[trigger] prev[i] == base + i - 1 by {
            assert(prev[i] == keys[i]);
        }
        lemma_intern_hub_route(m, n, prev, h, base, (k - 1) as nat);
        let last = keys.last();
        assert(last == keys[k as int]);
        assert(last == base + k - 1);
        let (m0, n0) = interned_stops(m, n, prev);
        assert(!m0.contains_key(last)) by {
            assert(!m.contains_key(last));
        }
        assert(interned_stops(m, n, keys) == (m0.insert(last, StopIdx(n0 as u32)), n0 + 1));
        assert forall|x: usize|
            #[trigger] interned_stops(m, n, keys).0.contains_key(x) <==> (m.contains_key(x) || x == h || (base <= x < base + k)) by {
            assert(m0.contains_key(x) <==> (m.contains_key(x) || x == h || (base <= x < base + k - 1)));
        }
    }
}

/// `hubs` hub stops (keys `0..hubs`), each the first stop of
/// `routes_per_hub` routes that run out to `spokes` fresh spoke stops;
/// every ordered pair of distinct hubs is joined by a footpath with a
/// transfer time of two seconds.
pub fn build_hub_spoke(hubs: usize, routes_per_hub: usize, spokes: usize) -> (r: SimpleTimetable<usize, usize, usize>)
    requires
        hubs * routes_per_hub * (spokes + 1) + hubs + 16 < u32::MAX,
        hubs * routes_per_hub * (spokes + 1) * 10 + 16 < u32::MAX,
    ensures
        routes_so_far(r, (hubs * routes_per_hub) as nat, (hubs * routes_per_hub * (spokes + 1) + hubs) as nat),
        forall|q: int| 0 <= q < hubs * routes_per_hub ==> (#[trigger] r.routes@[q])@.len() == spokes + 1,
        forall|k: usize| k < hubs && hubs >= 2 ==> #[trigger] r.stop_by_key@.contains_key(k),
        hubs < 2 ==> walk_free(r),
        hubs >= 2 || routes_per_hub > 0 ==> r.stop_keys@.len() == hubs + hubs * routes_per_hub * spokes,
        hubs >= 2 ==> forall|i: usize| i < hubs ==> #[trigger] r.footpaths_of(r.stop_by_key@[i].0 as int) == other_hubs(
            r.stop_by_key@,
            i as nat,
            hubs as nat,
        ),
        hubs >= 2 ==> forall|i: usize| i < hubs ==> !(#[trigger] r.footpaths_of(r.stop_by_key@[i].0 as int)).contains(
            r.stop_by_key@[i],
        ),
        hubs >= 2 ==> forall|i: usize, j: usize| i < hubs && j < hubs && i != j ==> #[trigger] walk_of_two(
            r.transfer_times@,
            r.stop_by_key@,
            i,
            j,
        ),
        forall|s: int|
            (forall|i: usize| i < hubs ==> s != (#[trigger] r.stop_by_key@[i]).0) ==> #[trigger] r.footpaths_of(s).len() == 0,
{
    let mut tt: SimpleTimetable<usize, usize, usize> = SimpleTimetable::new();
    let mut id: usize = 0;
    let mut next_spoke = hubs;
    let mut h: usize = 0;
    let ghost per: nat = (spokes + 1) as nat;
    let ghost total: nat = (hubs * routes_per_hub) as nat;
    proof {
        assert(total * per == hubs * routes_per_hub * (spokes + 1)) by (nonlinear_arith)
            requires total == hubs * routes_per_hub, per == spokes + 1;
    }
    while h < hubs
        invariant
            h <= hubs,
            id == h * routes_per_hub,
            per == spokes + 1,
            total == hubs * routes_per_hub,
            total * per + hubs + 16 < u32::MAX,
            total * per * 10 + 16 < u32::MAX,
            next_spoke == hubs + id * spokes,
            routes_so_far(tt, id as nat, (id * per) as nat),
            forall|q: int| 0 <= q < id ==> (#[trigger] tt.routes@[q])@.len() == spokes + 1,
            walk_free(tt),
            forall|x: usize| #[trigger] tt.stop_by_key@.contains_key(x) <==> ((x < h && routes_per_hub > 0) || (hubs <= x < hubs
                + id * spokes)),
            tt.stop_keys@.len() == (if routes_per_hub > 0 { h as int } else { 0 }) + id * spokes,
        decreases hubs - h,
    {
        let mut rr: usize = 0;
        while rr < routes_per_hub
            invariant
                h < hubs,
                rr <= routes_per_hub,
                id == h * routes_per_hub + rr,
                per == spokes + 1,
                total == hubs * routes_per_hub,
                total * per + hubs + 16 < u32::MAX,
                total * per * 10 + 16 < u32::MAX,
                next_spoke == hubs + id * spokes,
                routes_so_far(tt, id as nat, (id * per) as nat),
                forall|q: int| 0 <= q < id ==> (#[trigger] tt.routes@[q])@.len() == spokes + 1,
                walk_free(tt),
                forall|x: usize| #[trigger] tt.stop_by_key@.contains_key(x) <==> (((x < h && routes_per_hub > 0) || (x == h && rr
                    > 0)) || (hubs <= x < hubs + id * spokes)),
                tt.stop_keys@.len() == (if routes_per_hub > 0 { h as int } else { 0 }) + (if rr > 0 { 1int } else { 0 }) + id
                    * spokes,
            decreases routes_per_hub - rr,
        {
            proof {
                assert(id + 1 <= total) by (nonlinear_arith)
                    requires id == h * routes_per_hub + rr, rr < routes_per_hub, h < hubs, total == hubs * routes_per_hub;
                assert((id + 1) * per <= total * per) by (nonlinear_arith)
                    requires id + 1 <= total, per >= 0;
                assert(id * per + per == (id + 1) * per) by (nonlinear_arith);
                assert(id * spokes + spokes <= total * per) by (nonlinear_arith)
                    requires id + 1 <= total, per == spokes + 1, spokes >= 0;
                assert((id + 1) * per * 10 <= total * per * 10) by (nonlinear_arith)
                    requires (id + 1) * per <= total * per;
                assert(hubs + id * spokes + spokes == hubs + (id + 1) * spokes) by (nonlinear_arith);
                assert(id * (spokes + 1) * 10 == id * per * 10);
                assert(total <= total * per) by (nonlinear_arith)
                    requires per >= 1;
            }
            let mut stops: Vec<usize> = Vec::new();
            stops.push(h);
            let mut k: usize = 0;
            while k < spokes
                invariant
                    k <= spokes,
                    stops@.len() == k + 1,
                    stops@[0] == h,
                    forall|i: int| 1 <= i <= k ==> #[trigger] stops@[i] == hubs + id * spokes + i - 1,
                    next_spoke == hubs + id * spokes + k,
                    hubs + id * spokes + spokes <= total * per + hubs,
                    total * per + hubs + 16 < u32::MAX,
                decreases spokes - k,
            {
                stops.push(next_spoke);
                next_spoke = next_spoke + 1;
                k = k + 1;
            }
            let base = (id * (spokes + 1) * 10) as u32;
            let times = schedule(base, 10, 5, spokes + 1);
            let ghost before = tt;
            tt = add_route(tt, id, stops.as_slice(), times.as_slice(), Ghost((id * per) as nat));
            proof {
                assert(h < hubs + id * spokes);
                lemma_intern_hub_route(before.stop_by_key@, before.stop_keys@.len(), stops@, h, (hubs + id * spokes) as nat, spokes as nat);
                assert(before.stop_by_key@.contains_key(h) == (rr > 0));
                assert(hubs + id * spokes + spokes == hubs + (id + 1) * spokes) by (nonlinear_arith);
                assert forall|x: usize| #[trigger] tt.stop_by_key@.contains_key(x) <==> (((x < h && routes_per_hub > 0) || (x
                    == h && rr + 1 > 0)) || (hubs <= x < hubs + (id + 1) * spokes)) by {
                    let im = interned_stops(before.stop_by_key@, before.stop_keys@.len(), stops@);
                    assert(tt.stop_by_key@ == im.0);
                    assert(im.0.contains_key(x) <==> (before.stop_by_key@.contains_key(x) || x == h || (hubs + id * spokes <= x
                        < hubs + id * spokes + spokes)));
                }
                assert forall|q: int| 0 <= q < id + 1 implies (#[trigger] tt.routes@[q])@.len() == spokes + 1 by {
                    if q < id {
                        assert(tt.routes@[q] == before.routes@[q]);
                    }
                }
            }
            id = id + 1;
            rr = rr + 1;
        }
        proof {
            assert((h + 1) * routes_per_hub == h * routes_per_hub + routes_per_hub) by (nonlinear_arith);
        }
        h = h + 1;
    }
    proof {
        assert(keys_ok::<usize, usize, usize>());
        assert(id == total);
        if routes_per_hub == 0 {
            assert(total == 0) by (nonlinear_arith)
                requires total == hubs * routes_per_hub, routes_per_hub == 0;
        }
        assert(total * spokes == hubs * routes_per_hub * spokes) by (nonlinear_arith)
            requires total == hubs * routes_per_hub;
    }
    let ghost cap: nat = (total * per) as nat;
    // With two or more hubs every hub takes part in a footpath; the
    // footpaths below would give each hub not on a route its index in hub
    // order, which registering them in order up front does too.
    if hubs >= 2 {
        let mut k: usize = 0;
        while k < hubs
            invariant
                k <= hubs,
                total == hubs * routes_per_hub,
                cap == total * per,
                total * per + hubs + 16 < u32::MAX,
                routes_so_far(tt, total, (cap + k) as nat),
                forall|q: int| 0 <= q < total ==> (#[trigger] tt.routes@[q])@.len() == spokes + 1,
                forall|x: usize| x < k ==> #[trigger] tt.stop_by_key@.contains_key(x),
                walk_free(tt),
                forall|x: usize| #[trigger] tt.stop_by_key@.contains_key(x) <==> ((x < hubs && routes_per_hub > 0) || x < k || (hubs
                    <= x < hubs + total * spokes)),
                tt.stop_keys@.len() == (if routes_per_hub > 0 { hubs as int } else { k as int }) + total * spokes,
                total * spokes == 0 || routes_per_hub > 0,
            decreases hubs - k,
        {
            let ghost before = tt;
            tt = tt.register_stop(k);
            proof {
                assert forall|s: int| #[trigger] tt.footpaths_of(s).len() == 0 by {
                    if 0 <= s < tt.footpaths@.len() {
                        assert(tt.footpaths_of(s) == before.footpaths_of(s));
                    }
                }
                assert forall|x: usize| x < k + 1 implies #[trigger] tt.stop_by_key@.contains_key(x) by {
                    if x < k {
                        assert(before.stop_by_key@.contains_key(x));
                    }
                }
            }
            k = k + 1;
        }
        let ghost before = tt;
        tt = connect_hubs(tt, hubs);
        proof {
            let m = before.stop_by_key@;
            assert forall|i: usize| i < hubs implies #[trigger] tt.footpaths_of(tt.stop_by_key@[i].0 as int) == other_hubs(
                tt.stop_by_key@,
                i as nat,
                hubs as nat,
            ) by {
                assert(before.footpaths_of(m[i].0 as int).len() == 0);
                assert(tt.footpaths_of(m[i].0 as int) =~= other_hubs(m, i as nat, hubs as nat));
            }
            assert forall|i: usize| i < hubs implies !(#[trigger] tt.footpaths_of(tt.stop_by_key@[i].0 as int)).contains(
                tt.stop_by_key@[i],
            ) by {
                assert forall|a: usize| a < hubs && a != i implies #[trigger] m[a] != m[i] by {
                    assert(m.contains_key(a) && m.contains_key(i));
                    if m[a] == m[i] {
                        assert(before.stop_keys@[m[a].0 as int] == a);
                        assert(before.stop_keys@[m[i].0 as int] == i);
                    }
                }
                lemma_other_hubs_excludes(m, i, hubs as nat);
                assert(tt.footpaths_of(tt.stop_by_key@[i].0 as int) == other_hubs(tt.stop_by_key@, i as nat, hubs as nat));
            }
            assert forall|s: int| (forall|i: usize| i < hubs ==> s != (#[trigger] tt.stop_by_key@[i]).0) implies #[trigger] tt.footpaths_of(
                s,
            ).len() == 0 by {
                assert(tt.footpaths_of(s) == before.footpaths_of(s));
            }
        }
    }
    tt
}


/// Number of legs of parallel path `p`.
pub open spec fn path_legs(p: nat, max_legs: nat) -> nat {
    (p % max_legs) + 1
}

/// Total legs of the first `n` parallel paths.
pub open spec fn total_legs(n: nat, max_legs: nat) -> nat
    decreases n,
{
    if n == 0 {
        0
    } else {
        total_legs((n - 1) as nat, max_legs) + path_legs((n - 1) as nat, max_legs)
    }
}

proof fn lemma_total_legs_bound(n: nat, max_legs: nat)
    requires
        max_legs >= 1,
    ensures
        total_legs(n, max_legs) <= n * max_legs,
    decreases n,
{
    if n > 0 {
        lemma_total_legs_bound((n - 1) as nat, max_legs);
        assert((n - 1) * max_legs + max_legs == n * max_legs) by (nonlinear_arith);
    }
}

/// The key of the first intermediate stop of parallel path `p`: keys `0`
/// and `1` are the two ends, and each path takes fresh keys for the stops
/// between its legs.
pub open spec fn first_intermediate(p: nat, max_legs: nat) -> int {
    2 + total_legs(p, max_legs) - p
}

/// The key of the stop that leg `l` of path `p` leaves.
pub open spec fn leg_from_key(p: nat, l: nat, max_legs: nat) -> int {
    if l == 0 {
        0
    } else {
        first_intermediate(p, max_legs) + l - 1
    }
}

/// The key of the stop that leg `l` of path `p` reaches.
pub open spec fn leg_to_key(p: nat, l: nat, max_legs: nat) -> int {
    if l + 1 == path_legs(p, max_legs) {
        1
    } else {
        first_intermediate(p, max_legs) + l
    }
}

/// The time each leg of path `p` takes: the path's `1000 - 50 p` seconds
/// shared evenly (rounding down) among its legs.
pub open spec fn leg_time_of(p: nat, max_legs: nat) -> int {
    (1000 - p * 50) / (path_legs(p, max_legs) as int)
}

/// The single trip of leg `l` of path `p`: it leaves at `l` leg times
/// (plus a second of dwell) and arrives five seconds before the next leg
/// time.
pub open spec fn leg_times(p: nat, l: nat, max_legs: nat) -> Seq<(SecondOfDay, SecondOfDay)> {
    let d = l * leg_time_of(p, max_legs);
    let a = d + leg_time_of(p, max_legs) - 5;
    seq![(SecondOfDay(d as u32), SecondOfDay((d + 1) as u32)), (SecondOfDay(a as u32), SecondOfDay((a + 1) as u32))]
}

/// Leg `l` of path `p` is in `r`: route and trip `total_legs(p) + l` run
/// from the leg's first stop to its second on [`leg_times`].
pub open spec fn leg_built(r: SimpleTimetable<usize, usize, usize>, p: nat, l: nat, max_legs: nat) -> bool {
    let q = total_legs(p, max_legs) + l;
    let from = leg_from_key(p, l, max_legs) as usize;
    let to = leg_to_key(p, l, max_legs) as usize;
    &&& r.stop_by_key@.contains_key(from)
    &&& r.stop_by_key@.contains_key(to)
    &&& r.routes@[q as int]@ == seq![r.stop_by_key@[from], r.stop_by_key@[to]]
    &&& r.trip_by_key@.contains_key(q as usize)
    &&& r.trips@[r.trip_by_key@[q as usize].0 as int].0 == RouteIdx(q as u32)
    &&& r.trips@[r.trip_by_key@[q as usize].0 as int].1@ == leg_times(p, l, max_legs)
}

/// `path_count` parallel paths from stop `0` to stop `1`: path `p` has
/// `p % max_legs + 1` legs over fresh intermediate stops, takes
/// `1000 - 50 p` seconds in total, and each leg is a route and trip of its
/// own, keyed `0, 1, ...` in order.
pub fn build_parallel_paths(path_count: usize, max_legs: usize) -> (r: SimpleTimetable<usize, usize, usize>)
    requires
        max_legs >= 1,
        max_legs < 1000,
        forall|p: nat|
            p < path_count ==> p * 50 <= 1000 && (1000 - p * 50) as int / (#[trigger] path_legs(p, max_legs as nat)) as int >= 5,
    ensures
        routes_so_far(r, total_legs(path_count as nat, max_legs as nat), 2 * total_legs(path_count as nat, max_legs as nat)),
        walk_free(r),
        forall|p: nat, l: nat| p < path_count && l < path_legs(p, max_legs as nat) ==> #[trigger] leg_built(r, p, l, max_legs as nat),
{
    let mut tt: SimpleTimetable<usize, usize, usize> = SimpleTimetable::new();
    let mut id: usize = 0;
    let mut next_intermediate: usize = 2;
    let mut p: usize = 0;
    proof {
        assert(path_count <= 21) by {
            if path_count > 21 {
                assert(path_legs(21, max_legs as nat) >= 1);
            }
        }
        lemma_total_legs_bound(path_count as nat, max_legs as nat);
        assert(path_count * max_legs <= 21 * 1000) by (nonlinear_arith)
            requires path_count <= 21, max_legs < 1000;
    }
    while p < path_count
        invariant
            p <= path_count,
            path_count <= 21,
            max_legs >= 1,
            max_legs < 1000,
            total_legs(path_count as nat, max_legs as nat) <= 21000,
            forall|q: nat|
                q < path_count ==> q * 50 <= 1000 && (1000 - q * 50) as int / (#[trigger] path_legs(q, max_legs as nat)) as int >= 5,
            id == total_legs(p as nat, max_legs as nat),
            next_intermediate <= 2 + id,
            next_intermediate == first_intermediate(p as nat, max_legs as nat),
            routes_so_far(tt, id as nat, 2 * id as nat),
            walk_free(tt),
            forall|p2: nat, l2: nat| p2 < p && l2 < path_legs(p2, max_legs as nat) ==> #[trigger] leg_built(tt, p2, l2, max_legs as nat),
        decreases path_count - p,
    {
        proof {
            assert(path_legs(p as nat, max_legs as nat) >= 1);
            assert(total_legs((p + 1) as nat, max_legs as nat) == id + path_legs(p as nat, max_legs as nat));
            lemma_total_legs_prefix(p as nat + 1, path_count as nat, max_legs as nat);
        }
        let m = p % max_legs + 1;
        let legs = if m < max_legs { m } else { max_legs };
        assert(legs == path_legs(p as nat, max_legs as nat));
        let leg_time = (1000 - p * 50) / legs;
        proof {
            let num: int = 1000 - p * 50;
            assert(leg_time * legs <= num) by (nonlinear_arith)
                requires leg_time == num / (legs as int), legs >= 1, num >= 0;
        }
        let mut prev: usize = 0;
        let mut leg: usize = 0;
        let ghost id0 = id;
        assert(leg_time == leg_time_of(p as nat, max_legs as nat));
        while leg < legs
            invariant
                leg <= legs,
                legs >= 1,
                legs < 1000,
                leg_time >= 5,
                leg_time * legs <= 1000,
                id == id0 + leg,
                id0 + legs <= 21000,
                next_intermediate <= 2 + id,
                routes_so_far(tt, id as nat, 2 * id as nat),
                walk_free(tt),
                p < path_count,
                max_legs >= 1,
                id0 == total_legs(p as nat, max_legs as nat),
                legs == path_legs(p as nat, max_legs as nat),
                leg_time == leg_time_of(p as nat, max_legs as nat),
                leg < legs ==> next_intermediate == first_intermediate(p as nat, max_legs as nat) + leg,
                leg == legs ==> next_intermediate == first_intermediate(p as nat, max_legs as nat) + legs - 1,
                leg < legs ==> prev == leg_from_key(p as nat, leg as nat, max_legs as nat),
                forall|p2: nat, l2: nat|
                    ((p2 < p && l2 < path_legs(p2, max_legs as nat)) || (p2 == p && l2 < leg)) ==> #[trigger] leg_built(
                        tt,
                        p2,
                        l2,
                        max_legs as nat,
                    ),
            decreases legs - leg,
        {
            let is_last = leg + 1 == legs;
            let curr = if is_last {
                1
            } else {
                let s = next_intermediate;
                next_intermediate = next_intermediate + 1;
                s
            };
            proof {
                assert(leg * leg_time + leg_time <= 1000) by (nonlinear_arith)
                    requires leg < legs, leg_time * legs <= 1000, leg_time >= 0;
            }
            let depart = (leg * leg_time) as u32;
            let arrive = depart + leg_time as u32 - 5;
            let times = [
                (SecondOfDay(depart), SecondOfDay(depart + 1)),
                (SecondOfDay(arrive), SecondOfDay(arrive + 1)),
            ];
            let stops = [prev, curr];
            let ghost before = tt;
            proof {
                assert(curr == leg_to_key(p as nat, leg as nat, max_legs as nat));
                assert(times@ =~= leg_times(p as nat, leg as nat, max_legs as nat));
            }
            tt = add_route(tt, id, stops.as_slice(), times.as_slice(), Ghost(2 * id as nat));
            proof {
                assert(stops@[0] == prev && stops@[1] == curr);
                assert(tt.routes@[id as int]@ =~= seq![tt.stop_by_key@[prev], tt.stop_by_key@[curr]]);
                assert(leg_built(tt, p as nat, leg as nat, max_legs as nat));
                assert forall|p2: nat, l2: nat|
                    ((p2 < p && l2 < path_legs(p2, max_legs as nat)) || (p2 == p && l2 < leg + 1)) implies #[trigger] leg_built(
                    tt,
                    p2,
                    l2,
                    max_legs as nat,
                ) by {
                    if !(p2 == p && l2 == leg) {
                        assert(leg_built(before, p2, l2, max_legs as nat));
                        let q2 = total_legs(p2, max_legs as nat) + l2;
                        if p2 < p {
                            lemma_total_legs_prefix(p2 + 1, p as nat, max_legs as nat);
                        }
                        assert(q2 < id);
                        assert(tt.routes@[q2 as int] == before.routes@[q2 as int]);
                        let from = leg_from_key(p2, l2, max_legs as nat) as usize;
                        let to = leg_to_key(p2, l2, max_legs as nat) as usize;
                        assert(before.stop_by_key@.contains_key(from) && before.stop_by_key@.contains_key(to));
                        assert(before.trip_by_key@.contains_key(q2 as usize));
                    }
                }
            }
            id = id + 1;
            prev = curr;
            leg = leg + 1;
        }
        p = p + 1;
    }
    tt
}

proof fn lemma_total_legs_prefix(a: nat, b: nat, max_legs: nat)
    requires
        a <= b,
    ensures
        total_legs(a, max_legs) <= total_legs(b, max_legs),
    decreases b - a,
{
    if a < b {
        lemma_total_legs_prefix(a, (b - 1) as nat, max_legs);
    }
}
} // verus!
