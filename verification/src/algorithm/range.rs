//! The range-query scan (rRAPTOR): one reverse-chronological pass over the
//! departure times that keeps labels from one departure to the next, and
//! the helper that marks stops where a trip becomes catchable between two
//! departures.

use fixedbitset::FixedBitSet;
use vstd::prelude::*;

use crate::algorithm::boarding::{extract_target_journeys, rides_from_round_one, tree_valid};
use crate::algorithm::itinerary::{labels_sound, lemma_sound_earlier};
use crate::algorithm::per_call::{
    all_sound, journey_sound, lemma_extracted_sound, lemma_sound_empty,
    all_fit, fill_origin_set, journey_fits, lemma_extracted_fit, origin_bits, run_raptor_rounds, seed_departure,
};
use crate::bitset::{bit_capacity, bits_of, bitset_clear, bitset_insert};
use crate::cache::RaptorCache;
use crate::endpoints::Endpoints;
use crate::ids::{RouteIdx, StopIdx};
use crate::journey::Journey;
use crate::label::{ArrivalTime, Label};
use crate::pareto::is_swept_front;
use crate::query::{filter_range_pareto_front, strictly_descending, RangeJourney};
use crate::time::{Duration, SecondOfDay};
use crate::timetable::Timetable;

verus! {

broadcast use {vstd::std_specs::btree::group_btree_axioms, vstd::laws_cmp::group_laws_cmp};

/// Some trip of `route` leaves position `pos` at a time in `[lo, hi)`.
pub open spec fn departs_in<T: Timetable>(tt: &T, route: nat, pos: nat, lo: u32, hi: u32) -> bool {
    exists|u: nat| u < tt.trip_count() && tt.trip_route(u) == route && lo <= #[trigger] tt.dep_at(u, pos) < hi
}

/// Stop `s` sits at a position of some route where a trip leaves in
/// `[lo, hi)`, among the positions before `(r_end, p_end)` in
/// route-then-position order.
pub open spec fn active_before<T: Timetable>(tt: &T, s: nat, lo: u32, hi: u32, r_end: nat, p_end: nat) -> bool {
    exists|r: nat, p: nat|
        (r < r_end || (r == r_end && p < p_end)) && r < tt.route_count() && p < tt.route_stops(r).len()
            && #[trigger] tt.route_stops(r)[p as int].0 == s && departs_in(tt, r, p, lo, hi)
}

/// Stop `s` becomes catchable in `[lo, hi)`: the window is not empty and
/// at some position of `s` on some route a trip leaves within it.
pub open spec fn newly_active<T: Timetable>(tt: &T, s: nat, lo: u32, hi: u32) -> bool {
    &&& lo < hi
    &&& exists|r: nat, p: nat|
        r < tt.route_count() && p < tt.route_stops(r).len() && #[trigger] tt.route_stops(r)[p as int].0 == s
            && departs_in(tt, r, p, lo, hi)
}

/// Marks every stop where some trip leaves in `[lo, hi)` (nothing when the
/// window is empty); bits already set stay set.
pub fn newly_active_stops_into<T: Timetable>(tt: &T, lo: SecondOfDay, hi: SecondOfDay, marked: &mut FixedBitSet)
    requires
        tt.well_formed(),
        bit_capacity(*old(marked)) == tt.stop_count(),
    ensures
        bit_capacity(*final(marked)) == bit_capacity(*old(marked)),
        forall|x: nat| #[trigger]
            bits_of(*final(marked)).contains(x) <==> bits_of(*old(marked)).contains(x) || newly_active(tt, x, lo.0, hi.0),
{
    if lo.0 >= hi.0 {
        return;
    }
    proof {
        tt.lemma_shape();
    }
    let ghost old_bits = bits_of(*marked);
    let n_routes = tt.n_routes() as u32;
    let mut r: u32 = 0;
    while r < n_routes
        invariant
            tt.well_formed(),
            lo.0 < hi.0,
            n_routes == tt.route_count(),
            r <= n_routes,
            bit_capacity(*marked) == tt.stop_count(),
            forall|x: nat| #[trigger]
                bits_of(*marked).contains(x) <==> old_bits.contains(x) || active_before(tt, x, lo.0, hi.0, r as nat, 0),
        decreases n_routes - r,
    {
        proof {
            tt.lemma_shape();
        }
        let route = RouteIdx(r);
        let stops = tt.get_stops_after(route, 0);
        let ghost rs = tt.route_stops(r as nat);
        assert(stops@ =~= rs);
        let mut pos: usize = 0;
        while pos < stops.len()
            invariant
                tt.well_formed(),
                lo.0 < hi.0,
                n_routes == tt.route_count(),
                r < n_routes,
                route == RouteIdx(r),
                rs == tt.route_stops(r as nat),
                rs.len() <= u32::MAX,
                stops@ == rs,
                pos <= stops@.len(),
                bit_capacity(*marked) == tt.stop_count(),
                forall|x: nat| #[trigger]
                    bits_of(*marked).contains(x) <==> old_bits.contains(x) || active_before(tt, x, lo.0, hi.0, r as nat, pos as nat),
            decreases stops@.len() - pos,
        {
            proof {
                tt.lemma_shape();
            }
            let stop = stops[pos];
            assert(stop == tt.route_stops(r as nat)[pos as int]);
            let ghost here = departs_in(tt, r as nat, pos as nat, lo.0, hi.0);
            let ghost before = bits_of(*marked);
            let hit = match tt.get_earliest_trip(route, lo, pos as u32) {
                Some(trip) => tt.get_departure_time(trip, pos as u32).0 < hi.0,
                None => false,
            };
            assert(hit == here);
            if hit {
                bitset_insert(marked, stop.0 as usize);
            }
            proof {
                assert forall|x: nat| #[trigger]
                    bits_of(*marked).contains(x) <==> old_bits.contains(x) || active_before(tt, x, lo.0, hi.0, r as nat, (pos + 1) as nat) by {
                    if active_before(tt, x, lo.0, hi.0, r as nat, (pos + 1) as nat) {
                        let (r2, p2) = choose|r2: nat, p2: nat|
                            (r2 < r || (r2 == r && p2 < pos + 1)) && r2 < tt.route_count() && p2 < tt.route_stops(r2).len()
                                && #[trigger] tt.route_stops(r2)[p2 as int].0 == x && departs_in(tt, r2, p2, lo.0, hi.0);
                        if !(r2 == r && p2 == pos) {
                            assert(active_before(tt, x, lo.0, hi.0, r as nat, pos as nat));
                        }
                    }
                    if active_before(tt, x, lo.0, hi.0, r as nat, pos as nat) {
                        let (r2, p2) = choose|r2: nat, p2: nat|
                            (r2 < r || (r2 == r && p2 < pos)) && r2 < tt.route_count() && p2 < tt.route_stops(r2).len()
                                && #[trigger] tt.route_stops(r2)[p2 as int].0 == x && departs_in(tt, r2, p2, lo.0, hi.0);
                        assert(tt.route_stops(r2)[p2 as int].0 == x);
                    }
                    if hit && x == stop.0 {
                        assert(tt.route_stops(r as nat)[pos as int].0 == x);
                    }
                }
            }
            pos = pos + 1;
        }
        proof {
            assert forall|x: nat| #[trigger]
                bits_of(*marked).contains(x) <==> old_bits.contains(x) || active_before(tt, x, lo.0, hi.0, (r + 1) as nat, 0) by {
                if active_before(tt, x, lo.0, hi.0, (r + 1) as nat, 0) {
                    let (r2, p2) = choose|r2: nat, p2: nat|
                        (r2 < r + 1 || (r2 == r + 1 && p2 < 0)) && r2 < tt.route_count() && p2 < tt.route_stops(r2).len()
                            && #[trigger] tt.route_stops(r2)[p2 as int].0 == x && departs_in(tt, r2, p2, lo.0, hi.0);
                    assert(active_before(tt, x, lo.0, hi.0, r as nat, stops@.len() as nat));
                }
                if active_before(tt, x, lo.0, hi.0, r as nat, stops@.len() as nat) {
                    let (r2, p2) = choose|r2: nat, p2: nat|
                        (r2 < r || (r2 == r && p2 < stops@.len())) && r2 < tt.route_count() && p2 < tt.route_stops(r2).len()
                            && #[trigger] tt.route_stops(r2)[p2 as int].0 == x && departs_in(tt, r2, p2, lo.0, hi.0);
                    assert(tt.route_stops(r2)[p2 as int].0 == x);
                }
            }
        }
        r = r + 1;
    }
    proof {
        assert forall|x: nat| #[trigger] bits_of(*marked).contains(x) <==> old_bits.contains(x) || newly_active(tt, x, lo.0, hi.0) by {
            if newly_active(tt, x, lo.0, hi.0) {
                let (r2, p2) = choose|r2: nat, p2: nat|
                    r2 < tt.route_count() && p2 < tt.route_stops(r2).len() && #[trigger] tt.route_stops(r2)[p2 as int].0 == x
                        && departs_in(tt, r2, p2, lo.0, hi.0);
                assert(active_before(tt, x, lo.0, hi.0, n_routes as nat, 0));
            }
            if active_before(tt, x, lo.0, hi.0, n_routes as nat, 0) {
                let (r2, p2) = choose|r2: nat, p2: nat|
                    (r2 < n_routes || (r2 == n_routes && p2 < 0)) && r2 < tt.route_count() && p2 < tt.route_stops(r2).len()
                        && #[trigger] tt.route_stops(r2)[p2 as int].0 == x && departs_in(tt, r2, p2, lo.0, hi.0);
                assert(tt.route_stops(r2)[p2 as int].0 == x);
            }
        }
    }
}


/// Every entry departs at one of `departures` and its journey fits the
/// query.
pub open spec fn all_range_fit<T: Timetable, L: Label>(
    tt: &T,
    departures: Seq<SecondOfDay>,
    origins: Seq<(StopIdx, Duration)>,
    targets: Seq<(StopIdx, Duration)>,
    transfers: nat,
    rs: Seq<RangeJourney<L>>,
) -> bool {
    forall|i: int|
        0 <= i < rs.len() ==> departures.contains((#[trigger] rs[i]).depart) && journey_fits(
            tt,
            origins,
            targets,
            transfers,
            rs[i].journey,
        )
}

/// Each entry's journey is sound for the entry's own departure.
pub open spec fn all_range_sound<T: Timetable, L: Label>(
    tt: &T,
    origins: Seq<(StopIdx, Duration)>,
    transfers: nat,
    rs: Seq<RangeJourney<L>>,
) -> bool {
    forall|i: int| 0 <= i < rs.len() ==> journey_sound(tt, origins, (#[trigger] rs[i]).depart.0, transfers, rs[i].journey)
}

/// The range query for arrival-time labels, as one reverse-chronological
/// scan: the cache is reset once, and for each departure `tau` in the
/// order given (latest first), the origins are seeded at `tau` plus their
/// walk, the stops where a trip leaves in `[tau, previous tau)` are marked,
/// the rounds run on the labels kept from the later departures, and every
/// target label is traced back into a journey departing at `tau`. The
/// result is the Pareto profile of all of them.
pub(crate) fn raptor_range_rrap_arrival<T: Timetable>(
    tt: &T,
    cache: &mut RaptorCache<ArrivalTime>,
    transfers: usize,
    departures: &[SecondOfDay],
    origins: Endpoints,
    targets: Endpoints,
    require_wheelchair_accessible: bool,
) -> (r: Vec<RangeJourney<ArrivalTime>>)
    requires
        tt.well_formed(),
        old(cache).n_stops == tt.stop_count(),
        old(cache).n_routes == tt.route_count(),
        old(cache).dims_ok(),
        (transfers + 1) * 100 <= usize::MAX,
        forall|i: int| 0 <= i < origins.stops@.len() ==> (#[trigger] origins.stops@[i]).0.0 < tt.stop_count(),
        forall|i: int| 0 <= i < targets.stops@.len() ==> (#[trigger] targets.stops@[i]).0.0 < tt.stop_count(),
    ensures
        final(cache).ready(tt, transfers as nat),
        exists|cands: Seq<RangeJourney<ArrivalTime>>|
            #[trigger] is_swept_front(cands, r@) && all_range_fit(
                tt,
                departures@,
                origins.stops@,
                targets.stops@,
                transfers as nat,
                cands,
            ) && (strictly_descending(departures@) ==> all_range_sound(tt, origins.stops@, transfers as nat, cands)),
{
    proof {
        tt.lemma_shape();
    }
    let ctx = ArrivalTime::default_ctx();
    let os = origins.as_slice();
    let ts = targets.as_slice();
    let ghost op = os@;
    let ghost tp = ts@;
    let n_stops = tt.n_stops() as u32;
    let n_routes = tt.n_routes() as u32;
    cache.reset_for_query(transfers, n_stops, n_routes);
    proof {
        assert(tree_valid(tt, cache.board_detail@));
        assert(rides_from_round_one(cache.board_detail@));
    }
    let ghost mut lo: u32 = u32::MAX;
    proof {
        lemma_sound_empty(tt, op, lo, cache.labels@);
    }
    fill_origin_set(tt, cache, os, Ghost(transfers as nat));
    let mut output: Vec<RangeJourney<ArrivalTime>> = Vec::new();
    let mut prev: Option<SecondOfDay> = None;
    let mut di: usize = 0;
    while di < departures.len()
        invariant
            tt.well_formed(),
            di <= departures@.len(),
            (transfers + 1) * 100 <= usize::MAX,
            os@ == op,
            ts@ == tp,
            op == origins.stops@,
            tp == targets.stops@,
            forall|i: int| 0 <= i < op.len() ==> (#[trigger] op[i]).0.0 < tt.stop_count(),
            forall|i: int| 0 <= i < tp.len() ==> (#[trigger] tp[i]).0.0 < tt.stop_count(),
            cache.ready(tt, transfers as nat),
            origin_bits(bits_of(cache.origin_set), op),
            all_range_fit(tt, departures@, op, tp, transfers as nat, output@),
            labels_sound(tt, op, lo, cache.labels@),
            strictly_descending(departures@) ==> all_range_sound(tt, op, transfers as nat, output@),
            strictly_descending(departures@) && di > 0 ==> lo == departures@[di - 1].0,
            di == 0 ==> lo == u32::MAX,
        decreases departures@.len() - di,
    {
        let tau = departures[di];
        let ghost lo2: u32 = if tau.0 < lo { tau.0 } else { lo };
        proof {
            lemma_sound_earlier(tt, op, lo2, lo, cache.labels@);
        }
        bitset_clear(&mut cache.marked_stops);
        proof {
            assert forall|x: nat| #[trigger] bits_of(cache.marked_stops).contains(x) implies x < bit_capacity(cache.marked_stops) by {
            }
        }
        seed_departure(tt, &ctx, cache, os, tau, Ghost(transfers as nat), Ghost(lo2));
        if let Some(p) = prev {
            newly_active_stops_into(tt, tau, p, &mut cache.marked_stops);
            proof {
                assert forall|x: nat| #[trigger] bits_of(cache.marked_stops).contains(x) implies x < bit_capacity(cache.marked_stops) by {
                    if newly_active(tt, x, tau.0, p.0) {
                        let (r2, p2) = choose|r2: nat, p2: nat|
                            r2 < tt.route_count() && p2 < tt.route_stops(r2).len() && #[trigger] tt.route_stops(r2)[p2 as int].0 == x
                                && departs_in(tt, r2, p2, tau.0, p.0);
                        tt.lemma_shape();
                        assert(tt.route_stops(r2)[p2 as int].0 < tt.stop_count());
                    }
                }
            }
        }
        run_raptor_rounds(tt, &ctx, cache, transfers, require_wheelchair_accessible, ts, Ghost(op), Ghost(lo2));
        let mut snapshot = extract_target_journeys(&ctx, &cache.labels, &cache.board_detail, &cache.origin_set, ts, transfers);
        proof {
            lemma_extracted_fit(tt, *cache, op, tp, transfers, snapshot@);
            assert(departures@[di as int] == tau);
            lemma_extracted_sound(tt, *cache, op, tp, lo2, transfers, snapshot@);
            if strictly_descending(departures@) && di > 0 {
                assert(departures@[di - 1].0 > departures@[di as int].0);
            }
        }
        let mut reversed: Vec<Journey<ArrivalTime>> = Vec::new();
        while snapshot.len() > 0
            invariant
                all_fit(tt, op, tp, transfers as nat, snapshot@),
                all_fit(tt, op, tp, transfers as nat, reversed@),
                all_sound(tt, op, lo2, transfers as nat, snapshot@),
                all_sound(tt, op, lo2, transfers as nat, reversed@),
            decreases snapshot@.len(),
        {
            let ghost r0 = reversed@;
            let ghost s0 = snapshot@;
            if let Some(j) = snapshot.pop() {
                assert(s0[s0.len() - 1] == j);
                reversed.push(j);
                assert forall|i: int| 0 <= i < reversed@.len() implies journey_fits(tt, op, tp, transfers as nat, #[trigger] reversed@[i]) by {
                    if i < r0.len() {
                        assert(reversed@[i] == r0[i]);
                    }
                }
                assert forall|i: int| 0 <= i < snapshot@.len() implies journey_fits(tt, op, tp, transfers as nat, #[trigger] snapshot@[i]) by {
                    assert(snapshot@[i] == s0[i]);
                }
                assert forall|i: int| 0 <= i < reversed@.len() implies journey_sound(tt, op, lo2, transfers as nat, #[trigger] reversed@[i]) by {
                    if i < r0.len() {
                        assert(reversed@[i] == r0[i]);
                    }
                }
                assert forall|i: int| 0 <= i < snapshot@.len() implies journey_sound(tt, op, lo2, transfers as nat, #[trigger] snapshot@[i]) by {
                    assert(snapshot@[i] == s0[i]);
                }
            }
        }
        while reversed.len() > 0
            invariant
                departures@.contains(tau),
                all_fit(tt, op, tp, transfers as nat, reversed@),
                all_range_fit(tt, departures@, op, tp, transfers as nat, output@),
                all_sound(tt, op, lo2, transfers as nat, reversed@),
                strictly_descending(departures@) ==> lo2 == tau.0,
                strictly_descending(departures@) ==> all_range_sound(tt, op, transfers as nat, output@),
            decreases reversed@.len(),
        {
            let ghost o0 = output@;
            let ghost s0 = reversed@;
            if let Some(j) = reversed.pop() {
                assert(s0[s0.len() - 1] == j);
                output.push(RangeJourney { depart: tau, journey: j });
                assert forall|i: int| 0 <= i < output@.len() implies departures@.contains((#[trigger] output@[i]).depart)
                    && journey_fits(tt, op, tp, transfers as nat, output@[i].journey) by {
                    if i < o0.len() {
                        assert(output@[i] == o0[i]);
                    }
                }
                assert forall|i: int| 0 <= i < reversed@.len() implies journey_fits(tt, op, tp, transfers as nat, #[trigger] reversed@[i]) by {
                    assert(reversed@[i] == s0[i]);
                }
                assert forall|i: int| 0 <= i < reversed@.len() implies journey_sound(tt, op, lo2, transfers as nat, #[trigger] reversed@[i]) by {
                    assert(reversed@[i] == s0[i]);
                }
                proof {
                    if strictly_descending(departures@) {
                        assert forall|i: int| 0 <= i < output@.len() implies journey_sound(tt, op, (#[trigger] output@[i]).depart.0, transfers as nat, output@[i].journey) by {
                            if i < o0.len() {
                                assert(output@[i] == o0[i]);
                            } else {
                                assert(journey_sound(tt, op, lo2, transfers as nat, s0[s0.len() - 1]));
                            }
                        }
                    }
                }
            }
        }
        prev = Some(tau);
        proof {
            lo = lo2;
        }
        di = di + 1;
    }
    let ghost all = output@;
    let out = filter_range_pareto_front(output);
    proof {
        assert(is_swept_front(all, out@));
    }
    out
}

} // verus!
