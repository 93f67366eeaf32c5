//! The rounds loop shared by single-departure and range queries
//! ([`run_raptor_rounds`]) and the single-departure query itself
//! ([`run_per_call_query`]).

use vstd::prelude::*;

use crate::algorithm::boarding::{
    journey_trace, best_to_any_target, extract_target_journeys, extracted, from_tree, plan_step_valid, rides_from_round_one, step_valid,
    tree_valid, Step,
};
use crate::algorithm::footpaths::{
    no_new_rides,
    keeps_arrivals, keeps_best, lemma_keeps_arrivals_of_row, lemma_keeps_arrivals_trans, lemma_keeps_best_trans,
    lemma_walks_relaxed_kept, pass_frame, relax_footpaths_round, relax_footpaths_round_closed, walks_relaxed,
};
use crate::algorithm::itinerary::{
    grew_by, labels_sound, leg_step, lemma_reaches_earlier, lemma_reaches_leg, lemma_reaches_more, lemma_reaches_seed, lemma_sound_grew,
    reaches, Leg,
};
use crate::algorithm::label_bag::{
    arrives_by, bag_insert, lemma_arrives_by_insert, lemma_arrives_by_later, lemma_bag_insert_members,
    lemma_min_arrival_arrives, min_arrival_of, some_dominates, LabelBag,
};
use crate::bitset::{bit_capacity, bits_of, bitset_clear, bitset_insert, bitset_is_clear, set_bits};
use crate::cache::{stop_set, RaptorCache};
use crate::endpoints::IntoEndpoints;
use crate::journey::Journey;
use crate::pareto::{is_swept_front, pareto_sweep, ParetoItem};
use crate::ids::{RouteIdx, StopIdx, TripIdx};
use crate::label::{Label, TripContext};
use crate::manual::copy_vec;
use crate::time::{sat_add, Duration, SecondOfDay};
use crate::timetable::Timetable;

verus! {

broadcast use {vstd::std_specs::btree::group_btree_axioms, vstd::laws_cmp::group_laws_cmp};

/// What a step of a round keeps: the cache stays consistent, rows other
/// than `k` keep their bags, and the origins and the route queue are
/// untouched.
pub open spec fn round_frame<T: Timetable, L: Label>(tt: &T, a: RaptorCache<L>, b: RaptorCache<L>, k: int, rounds: nat) -> bool {
    &&& b.state_ok(tt, rounds)
    &&& b.labels@.len() == a.labels@.len()
    &&& forall|x: int| 0 <= x < a.labels@.len() && x != k ==> #[trigger] b.labels@[x]@ == a.labels@[x]@
    &&& b.origin_set == a.origin_set
    &&& b.q_entry == a.q_entry
    &&& b.q_routes == a.q_routes
}

/// Moves the stops the last footpath pass reported into the marked set.
fn drain_walked<T: Timetable, L: Label>(tt: &T, cache: &mut RaptorCache<L>, Ghost(rounds): Ghost<nat>)
    requires
        old(cache).state_ok(tt, rounds),
    ensures
        final(cache).state_ok(tt, rounds),
        grid_same(old(cache).labels@, final(cache).labels@),
        final(cache).origin_set == old(cache).origin_set,
        final(cache).q_entry == old(cache).q_entry,
        final(cache).q_routes == old(cache).q_routes,
        final(cache).walked_buf@.len() == 0,
        final(cache).best_arrival == old(cache).best_arrival,
        final(cache).board_detail == old(cache).board_detail,
{
    let mut i: usize = 0;
    while i < cache.walked_buf.len()
        invariant
            i <= cache.walked_buf@.len(),
            cache.state_ok(tt, rounds),
            cache.labels == old(cache).labels,
            cache.best_arrival == old(cache).best_arrival,
            cache.board_detail == old(cache).board_detail,
            cache.walked_buf == old(cache).walked_buf,
            cache.origin_set == old(cache).origin_set,
            cache.q_entry == old(cache).q_entry,
            cache.q_routes == old(cache).q_routes,
        decreases cache.walked_buf@.len() - i,
    {
        let s = cache.walked_buf[i];
        bitset_insert(&mut cache.marked_stops, s.0 as usize);
        proof {
            assert forall|x: nat| #[trigger] bits_of(cache.marked_stops).contains(x) implies x < bit_capacity(cache.marked_stops) by {
            }
        }
        i = i + 1;
    }
    cache.walked_buf.clear();
}

/// Two label matrices hold the same bags.
pub open spec fn grid_same<L>(a: Seq<Vec<LabelBag<L>>>, b: Seq<Vec<LabelBag<L>>>) -> bool {
    &&& a.len() == b.len()
    &&& forall|x: int| 0 <= x < a.len() ==> #[trigger] b[x]@ == a[x]@
}

/// Copies round `k - 1`'s bags into round `k` at every stop reached so far.
fn carry_forward<T: Timetable, L: Label>(tt: &T, cache: &mut RaptorCache<L>, k: usize, Ghost(rounds): Ghost<nat>)
    requires
        old(cache).state_ok(tt, rounds),
        1 <= k < rounds,
    ensures
        round_frame(tt, *old(cache), *final(cache), k as int, rounds),
        final(cache).marked_stops == old(cache).marked_stops,
        final(cache).ever_reached == old(cache).ever_reached,
        final(cache).best_arrival == old(cache).best_arrival,
        final(cache).board_detail == old(cache).board_detail,
        final(cache).labels@[k as int]@.len() == old(cache).labels@[k as int]@.len(),
        forall|s: int|
            0 <= s < old(cache).labels@[k as int]@.len() ==> #[trigger] final(cache).labels@[k as int]@[s].items@ == (
            if bits_of(old(cache).ever_reached).contains(s as nat) {
                old(cache).labels@[k - 1]@[s].items@
            } else {
                old(cache).labels@[k as int]@[s].items@
            }),
{
    let bits = set_bits(&cache.ever_reached);
    let ghost c0 = *cache;
    let mut i: usize = 0;
    while i < bits.len()
        invariant
            1 <= k < rounds,
            i <= bits@.len(),
            c0.state_ok(tt, rounds),
            forall|j: int| 0 <= j < bits@.len() ==> bits_of(c0.ever_reached).contains(#[trigger] bits@[j] as nat),
            round_frame(tt, c0, *cache, k as int, rounds),
            cache.marked_stops == c0.marked_stops,
            cache.ever_reached == c0.ever_reached,
            cache.board_detail == c0.board_detail,
            cache.best_arrival == c0.best_arrival,
            cache.walked_buf == c0.walked_buf,
            cache.relax_heap == c0.relax_heap,
            forall|a: int, b: int| 0 <= a < b < bits@.len() ==> bits@[a] < bits@[b],
            cache.labels@[k as int]@.len() == c0.labels@[k as int]@.len(),
            forall|s: int|
                0 <= s < c0.labels@[k as int]@.len() ==> #[trigger] cache.labels@[k as int]@[s].items@ == (
                if bits@.subrange(0, i as int).contains(s as usize) {
                    c0.labels@[k - 1]@[s].items@
                } else {
                    c0.labels@[k as int]@[s].items@
                }),
        decreases bits@.len() - i,
    {
        let bit = bits[i];
        assert(bits_of(c0.ever_reached).contains(bit as nat));
        let bag = cache.labels[k - 1][bit].copy();
        let ghost before = cache.labels@;
        assert(before[k - 1]@ == c0.labels@[k - 1]@);
        cache.labels[k].set(bit, bag);
        proof {
            assert forall|x: int| 0 <= x < c0.labels@.len() && x != k implies #[trigger] cache.labels@[x]@ == c0.labels@[x]@ by {
                assert(cache.labels@[x]@ == before[x]@);
            }
            let pre = bits@.subrange(0, i as int);
            let post = bits@.subrange(0, i + 1);
            assert(post =~= pre.push(bit));
            assert forall|s: int| 0 <= s < c0.labels@[k as int]@.len() implies #[trigger] cache.labels@[k as int]@[s].items@ == (
                if post.contains(s as usize) {
                    c0.labels@[k - 1]@[s].items@
                } else {
                    c0.labels@[k as int]@[s].items@
                }) by {
                if s == bit as int {
                    assert(post[i as int] == bit);
                } else {
                    assert(cache.labels@[k as int]@[s] == before[k as int]@[s]);
                    if post.contains(s as usize) {
                        let w = choose|w: int| 0 <= w < post.len() && post[w] == s as usize;
                        assert(pre[w] == s as usize);
                    }
                    if pre.contains(s as usize) {
                        let w = choose|w: int| 0 <= w < pre.len() && pre[w] == s as usize;
                        assert(post[w] == s as usize);
                    }
                }
            }
        }
        i = i + 1;
    }
    proof {
        assert(bits@.subrange(0, bits@.len() as int) =~= bits@);
        assert forall|s: int| 0 <= s < c0.labels@[k as int]@.len() implies #[trigger] bits@.contains(s as usize) == bits_of(
            c0.ever_reached,
        ).contains(s as nat) by {
            if bits_of(c0.ever_reached).contains(s as nat) {
                let w = choose|w: int| 0 <= w < bits@.len() && bits@[w] == s as nat;
                assert(bits@[w] == s as usize);
            }
            if bits@.contains(s as usize) {
                let w = choose|w: int| 0 <= w < bits@.len() && bits@[w] == s as usize;
                assert(bits_of(c0.ever_reached).contains(bits@[w] as nat));
            }
        }
    }
}

/// The route queue: a queued route has an entry position on it and is
/// listed; every listed route exists and is queued.
pub open spec fn queue_ok<T: Timetable>(tt: &T, q_entry: Seq<Option<u32>>, q_routes: Seq<RouteIdx>) -> bool {
    &&& q_entry.len() == tt.route_count()
    &&& forall|r: int|
        0 <= r < q_entry.len() ==> (#[trigger] q_entry[r] matches Some(p) ==> p < tt.route_stops(r as nat).len()
            && q_routes.contains(RouteIdx(r as u32)))
    &&& forall|i: int| 0 <= i < q_routes.len() ==> (#[trigger] q_routes[i]).0 < tt.route_count() && q_entry[q_routes[i].0 as int] is Some
}

/// Route `rp.0` is queued at a position no later than `rp.1`.
pub open spec fn queued_by(q_entry: Seq<Option<u32>>, rp: (RouteIdx, u32)) -> bool {
    q_entry[rp.0.0 as int] matches Some(e) && e <= rp.1
}

/// Position `p` on route `r` is where some stop of `marked` lies on it,
/// as the stop's route index lists it.
pub open spec fn marked_entry<T: Timetable>(tt: &T, marked: Set<nat>, r: int, p: u32) -> bool {
    exists|s: nat, j: int|
        marked.contains(s) && 0 <= j < tt.routes_at(s).len() && #[trigger] tt.routes_at(s)[j] == (RouteIdx(r as u32), p)
}

/// Queues every route through a marked stop, at the earliest position of
/// a marked stop on it.
fn build_route_queue<T: Timetable, L: Label>(tt: &T, cache: &mut RaptorCache<L>, Ghost(rounds): Ghost<nat>)
    requires
        tt.well_formed(),
        old(cache).state_ok(tt, rounds),
        forall|r: int| 0 <= r < old(cache).q_entry@.len() ==> (#[trigger] old(cache).q_entry@[r]) is None,
        old(cache).q_routes@.len() == 0,
    ensures
        final(cache).state_ok(tt, rounds),
        queue_ok(tt, final(cache).q_entry@, final(cache).q_routes@),
        final(cache).labels == old(cache).labels,
        final(cache).origin_set == old(cache).origin_set,
        final(cache).marked_stops == old(cache).marked_stops,
        final(cache).best_arrival == old(cache).best_arrival,
        final(cache).board_detail == old(cache).board_detail,
        forall|s: nat, j: int|
            bits_of(old(cache).marked_stops).contains(s) && 0 <= j < tt.routes_at(s).len() ==> queued_by(
                final(cache).q_entry@,
                #[trigger] tt.routes_at(s)[j],
            ),
        forall|r: int|
            0 <= r < final(cache).q_entry@.len() ==> (#[trigger] final(cache).q_entry@[r] matches Some(e) ==> marked_entry(
                tt,
                bits_of(old(cache).marked_stops),
                r,
                e,
            )),
{
    proof {
        tt.lemma_shape();
    }
    let marked = set_bits(&cache.marked_stops);
    let ghost mset = bits_of(cache.marked_stops);
    let ghost c0 = *cache;
    let mut i: usize = 0;
    while i < marked.len()
        invariant
            tt.well_formed(),
            i <= marked@.len(),
            c0.state_ok(tt, rounds),
            forall|j: int| 0 <= j < marked@.len() ==> bits_of(c0.marked_stops).contains(#[trigger] marked@[j] as nat),
            cache.state_ok(tt, rounds),
            queue_ok(tt, cache.q_entry@, cache.q_routes@),
            cache.labels == c0.labels,
            cache.origin_set == c0.origin_set,
            cache.marked_stops == c0.marked_stops,
            cache.best_arrival == c0.best_arrival,
            cache.board_detail == c0.board_detail,
            mset == bits_of(c0.marked_stops),
            forall|a: int, jj: int|
                0 <= a < i && 0 <= jj < tt.routes_at(marked@[a] as nat).len() ==> queued_by(
                    cache.q_entry@,
                    #[trigger] tt.routes_at(marked@[a] as nat)[jj],
                ),
            forall|r: int|
                0 <= r < cache.q_entry@.len() ==> (#[trigger] cache.q_entry@[r] matches Some(e) ==> marked_entry(tt, mset, r, e)),
        decreases marked@.len() - i,
    {
        proof {
            tt.lemma_shape();
        }
        let stop = StopIdx(marked[i] as u32);
        assert(bits_of(c0.marked_stops).contains(marked@[i as int] as nat));
        let served = tt.get_routes_serving_stop(stop);
        let mut j: usize = 0;
        while j < served.len()
            invariant
                tt.well_formed(),
                stop.0 < tt.stop_count(),
                served@ == tt.routes_at(stop.0 as nat),
                j <= served@.len(),
                cache.state_ok(tt, rounds),
                queue_ok(tt, cache.q_entry@, cache.q_routes@),
                cache.labels == c0.labels,
                cache.origin_set == c0.origin_set,
                cache.marked_stops == c0.marked_stops,
                cache.best_arrival == c0.best_arrival,
            cache.board_detail == c0.board_detail,
                mset == bits_of(c0.marked_stops),
                mset.contains(stop.0 as nat),
                c0.state_ok(tt, rounds),
                forall|jm: int| 0 <= jm < marked@.len() ==> bits_of(c0.marked_stops).contains(#[trigger] marked@[jm] as nat),
                stop.0 == marked@[i as int],
                i < marked@.len(),
                forall|a: int, jj: int|
                    0 <= a < i && 0 <= jj < tt.routes_at(marked@[a] as nat).len() ==> queued_by(
                        cache.q_entry@,
                        #[trigger] tt.routes_at(marked@[a] as nat)[jj],
                    ),
                forall|jj: int| 0 <= jj < j ==> queued_by(cache.q_entry@, #[trigger] tt.routes_at(stop.0 as nat)[jj]),
                forall|r: int|
                    0 <= r < cache.q_entry@.len() ==> (#[trigger] cache.q_entry@[r] matches Some(e) ==> marked_entry(tt, mset, r, e)),
            decreases served@.len() - j,
        {
            proof {
                tt.lemma_shape();
            }
            let (route, pos) = served[j];
            assert(served@[j as int] == tt.routes_at(stop.0 as nat)[j as int]);
            let ghost qe = cache.q_entry@;
            let ghost qr = cache.q_routes@;
            let ghost here = tt.routes_at(stop.0 as nat)[j as int];
            match cache.q_entry[route.0 as usize] {
                None => {
                    cache.q_entry.set(route.0 as usize, Some(pos));
                    cache.q_routes.push(route);
                    proof {
                        assert(cache.q_routes@[qr.len() as int] == route);
                        assert forall|r: int| 0 <= r < cache.q_entry@.len() implies (#[trigger] cache.q_entry@[r] matches Some(p) ==> p
                            < tt.route_stops(r as nat).len() && cache.q_routes@.contains(RouteIdx(r as u32))) by {
                            if r != route.0 {
                                assert(cache.q_entry@[r] == qe[r]);
                                if qe[r] is Some {
                                    let q = choose|q: int| 0 <= q < qr.len() && qr[q] == RouteIdx(r as u32);
                                    assert(cache.q_routes@[q] == qr[q]);
                                }
                            } else {
                                assert(RouteIdx(r as u32) == route);
                            }
                        }
                        assert forall|x: int| 0 <= x < cache.q_routes@.len() implies (#[trigger] cache.q_routes@[x]).0 < tt.route_count()
                            && cache.q_entry@[cache.q_routes@[x].0 as int] is Some by {
                            if x < qr.len() {
                                assert(cache.q_routes@[x] == qr[x]);
                            }
                        }
                    }
                },
                Some(prev) => {
                    if pos < prev {
                        cache.q_entry.set(route.0 as usize, Some(pos));
                        proof {
                            assert forall|r: int| 0 <= r < cache.q_entry@.len() implies (#[trigger] cache.q_entry@[r] matches Some(p) ==> p
                                < tt.route_stops(r as nat).len() && cache.q_routes@.contains(RouteIdx(r as u32))) by {
                                if r != route.0 {
                                    assert(cache.q_entry@[r] == qe[r]);
                                } else {
                                    assert(qe[r] is Some);
                                }
                            }
                        }
                    }
                },
            }
            proof {
                assert(here == (route, pos));
                assert(cache.q_entry@[route.0 as int] matches Some(e) && e <= pos);
                assert forall|rp: (RouteIdx, u32)| queued_by(qe, rp) && 0 <= rp.0.0 < qe.len() implies #[trigger] queued_by(
                    cache.q_entry@,
                    rp,
                ) by {
                    if rp.0.0 != route.0 {
                        assert(cache.q_entry@[rp.0.0 as int] == qe[rp.0.0 as int]);
                    }
                }
                assert forall|a: int, jj: int|
                    0 <= a < i && 0 <= jj < tt.routes_at(marked@[a] as nat).len() implies queued_by(
                        cache.q_entry@,
                        #[trigger] tt.routes_at(marked@[a] as nat)[jj],
                    ) by {
                    assert(bits_of(c0.marked_stops).contains(marked@[a] as nat));
                    assert(queued_by(qe, tt.routes_at(marked@[a] as nat)[jj]));
                }
                assert forall|jj: int| 0 <= jj < j + 1 implies queued_by(
                    cache.q_entry@,
                    #[trigger] tt.routes_at(stop.0 as nat)[jj],
                ) by {
                    if jj < j {
                        assert(queued_by(qe, tt.routes_at(stop.0 as nat)[jj]));
                    }
                }
                assert forall|r: int|
                    0 <= r < cache.q_entry@.len() implies (#[trigger] cache.q_entry@[r] matches Some(e) ==> marked_entry(
                        tt,
                        mset,
                        r,
                        e,
                    )) by {
                    if r != route.0 {
                        assert(cache.q_entry@[r] == qe[r]);
                    } else if cache.q_entry@[r] != qe[r] {
                        assert(RouteIdx(r as u32) == route);
                        assert(tt.routes_at(stop.0 as nat)[j as int] == (RouteIdx(r as u32), pos));
                    }
                }
            }
            j = j + 1;
        }
        i = i + 1;
    }
    proof {
        assert forall|s: nat, j: int|
            bits_of(old(cache).marked_stops).contains(s) && 0 <= j < tt.routes_at(s).len() implies queued_by(
                cache.q_entry@,
                #[trigger] tt.routes_at(s)[j],
            ) by {
            let a = choose|a: int| 0 <= a < marked@.len() && marked@[a] == s;
            assert(marked@[a] as nat == s);
        }
    }
}

/// Empties the route queue.
fn reset_route_queue<T: Timetable, L: Label>(tt: &T, cache: &mut RaptorCache<L>, Ghost(rounds): Ghost<nat>)
    requires
        old(cache).state_ok(tt, rounds),
        queue_ok(tt, old(cache).q_entry@, old(cache).q_routes@),
    ensures
        final(cache).state_ok(tt, rounds),
        forall|r: int| 0 <= r < final(cache).q_entry@.len() ==> (#[trigger] final(cache).q_entry@[r]) is None,
        final(cache).q_routes@.len() == 0,
        final(cache).labels == old(cache).labels,
        final(cache).origin_set == old(cache).origin_set,
        final(cache).marked_stops == old(cache).marked_stops,
        final(cache).best_arrival == old(cache).best_arrival,
        final(cache).board_detail == old(cache).board_detail,
{
    let ghost qr = cache.q_routes@;
    let ghost qe0 = cache.q_entry@;
    let mut i: usize = 0;
    while i < cache.q_routes.len()
        invariant
            i <= cache.q_routes@.len(),
            cache.q_routes@ == qr,
            cache.q_entry@.len() == qe0.len(),
            queue_ok(tt, qe0, qr),
            cache.state_ok(tt, rounds),
            cache.labels == old(cache).labels,
            cache.origin_set == old(cache).origin_set,
            cache.marked_stops == old(cache).marked_stops,
            cache.best_arrival == old(cache).best_arrival,
            cache.board_detail == old(cache).board_detail,
            forall|r: int| 0 <= r < qe0.len() ==> (#[trigger] cache.q_entry@[r]) is None || (cache.q_entry@[r] == qe0[r]
                && exists|x: int| i <= x < qr.len() && qr[x] == RouteIdx(r as u32)),
        decreases cache.q_routes@.len() - i,
    {
        let r = cache.q_routes[i];
        let ghost qe = cache.q_entry@;
        cache.q_entry.set(r.0 as usize, None);
        proof {
            assert forall|x: int| 0 <= x < qe0.len() implies (#[trigger] cache.q_entry@[x]) is None || (cache.q_entry@[x] == qe0[x]
                && exists|y: int| i + 1 <= y < qr.len() && qr[y] == RouteIdx(x as u32)) by {
                if x != r.0 {
                    assert(cache.q_entry@[x] == qe[x]);
                    if qe[x] is Some {
                        let y = choose|y: int| i <= y < qr.len() && qr[y] == RouteIdx(x as u32);
                        if y == i {
                            assert(RouteIdx(x as u32) == r);
                        }
                    }
                }
            }
        }
        i = i + 1;
    }
    cache.q_routes.clear();
    proof {
        assert forall|r: int| 0 <= r < cache.q_entry@.len() implies (#[trigger] cache.q_entry@[r]) is None by {
            if cache.q_entry@[r] is Some {
                assert(qe0[r] is Some);
                let p = qe0[r]->0;
                assert(qr.contains(RouteIdx(r as u32)));
            }
        }
    }
}


/// A riding entry of a route scan: the boarding label, a trip of the
/// route, and where on the route it was boarded.
pub open spec fn riding_ok<T: Timetable, L: Label>(tt: &T, route: RouteIdx, e: (L, TripIdx, StopIdx, u32)) -> bool {
    &&& e.1.0 < tt.trip_count()
    &&& tt.trip_route(e.1.0 as nat) == route.0
    &&& e.3 < tt.route_stops(route.0 as nat).len()
    &&& tt.route_stops(route.0 as nat)[e.3 as int] == e.2
    &&& e.2.0 < tt.stop_count()
}

/// Every ride recorded in `tree` alights at a wheelchair-accessible stop.
pub open spec fn rides_accessible<T: Timetable>(tt: &T, tree: Map<(usize, u32, u32), Step>) -> bool {
    forall|key: (usize, u32, u32)| #[trigger] tree.contains_key(key) && tree[key] is Boarded ==> tt.stop_accessible(key.1 as nat)
}

/// Recording no new rides keeps the rides accessible.
proof fn lemma_rides_accessible_kept<T: Timetable>(tt: &T, a: Map<(usize, u32, u32), Step>, b: Map<(usize, u32, u32), Step>)
    requires
        rides_accessible(tt, a),
        no_new_rides(a, b),
    ensures
        rides_accessible(tt, b),
{
    assert forall|key: (usize, u32, u32)| #[trigger] b.contains_key(key) && b[key] is Boarded implies tt.stop_accessible(key.1 as nat) by {
        assert(a.contains_key(key) && a[key] == b[key]);
    }
}

/// A riding entry was boarded by a label reached with one ride fewer than
/// the round allows, on a departure no earlier than that label's arrival.
pub open spec fn rider_sound<T: Timetable, L: Label>(
    tt: &T,
    os: Seq<(StopIdx, Duration)>,
    depart: u32,
    k: int,
    e: (L, TripIdx, StopIdx, u32),
) -> bool {
    &&& reaches(tt, os, depart, (k - 1) as nat, e.2.0 as nat, e.0.arrival_of())
    &&& tt.dep_at(e.1.0 as nat, e.3 as nat) >= e.0.arrival_of()
}

/// If trip `u` leaves position `i` no later than trip `v`, it also leaves
/// and reaches position `i + 1` no later.
pub open spec fn no_overtake_at<T: Timetable>(tt: &T, u: nat, v: nat, i: nat) -> bool {
    tt.dep_at(u, i) <= tt.dep_at(v, i) ==> tt.dep_at(u, i + 1) <= tt.dep_at(v, i + 1) && tt.arr_at(u, i + 1) <= tt.arr_at(
        v,
        i + 1,
    )
}

/// No trip of `route` overtakes another between consecutive positions.
pub open spec fn route_fifo<T: Timetable>(tt: &T, route: nat) -> bool {
    forall|u: nat, v: nat, i: nat|
        u < tt.trip_count() && v < tt.trip_count() && tt.trip_route(u) == route && tt.trip_route(v) == route && i + 1
            < tt.route_stops(route).len() ==> #[trigger] no_overtake_at(tt, u, v, i)
}

/// Every trip of `route` lets passengers alight at every position.
pub open spec fn route_alights<T: Timetable>(tt: &T, route: nat) -> bool {
    forall|u: nat, i: nat|
        u < tt.trip_count() && tt.trip_route(u) == route && i < tt.route_stops(route).len() ==> #[trigger] tt.may_alight(u, i)
}

/// Round `k` of `c` reaches stop `s` by `t`, or a label arriving there at
/// `t` is pruned: the stop's best bag, or the target threshold `pt`,
/// already does as well.
pub open spec fn scan_covered<L: Label>(c: RaptorCache<L>, k: int, s: int, t: u32, pt: u32) -> bool {
    ||| arrives_by(c.labels@[k]@[s].items@, t)
    ||| arrives_by(c.best_arrival@[s].items@, t)
    ||| pt <= t
}

/// A trip of `route` that boards from a round `k - 1` label `l` at
/// position `i`: the earliest trip leaving there no earlier than `l`
/// arrives.
pub open spec fn boards_with<T: Timetable>(tt: &T, route: nat, i: int, at: u32, u: nat) -> bool {
    &&& tt.earliest_trip(route, at, i as nat) == Some(u)
    &&& u < tt.trip_count()
    &&& tt.trip_route(u) == route
}

/// Some riding entry leaves position `pos` no later than trip `u`.
pub open spec fn bag_beats<T: Timetable, L: Label>(tt: &T, bag: Seq<(L, TripIdx, StopIdx, u32)>, u: nat, pos: int) -> bool {
    exists|j: int| 0 <= j < bag.len() && tt.dep_at((#[trigger] bag[j]).1.0 as nat, pos as nat) <= tt.dep_at(u, pos as nat)
}

/// What a scan of `route` from `from` has covered by position `upto`: for
/// every label of round `k - 1` (in `c0`) at a stop from which it boards
/// a trip, every later stop up to `upto` is covered in `c` at that trip's
/// arrival there.
pub open spec fn scan_complete<T: Timetable, L: Label>(
    tt: &T,
    c0: RaptorCache<L>,
    c: RaptorCache<L>,
    k: int,
    route: nat,
    from: int,
    upto: int,
    pt: u32,
) -> bool {
    forall|i: int, m: int, l: L, u: nat|
        #![trigger c0.labels@[k - 1]@[tt.route_stops(route)[i].0 as int].items@.contains(l), boards_with(tt, route, i, l.arrival_of(), u), tt.route_stops(route)[m]]
        from <= i < m < upto && c0.labels@[k - 1]@[tt.route_stops(route)[i].0 as int].items@.contains(l) && boards_with(
            tt,
            route,
            i,
            l.arrival_of(),
            u,
        ) ==> scan_covered(c, k, tt.route_stops(route)[m].0 as int, tt.arr_at(u, m as nat), pt)
}

/// A value in the first `c + 1` entries of `s` but not in the first `c` is
/// entry `c`.
proof fn lemma_prefix_step<A>(s: Seq<A>, c: int, x: A)
    requires
        0 <= c < s.len(),
        s.subrange(0, c + 1).contains(x),
        !s.subrange(0, c).contains(x),
    ensures
        x == s[c],
{
    let sub = s.subrange(0, c + 1);
    let q = choose|q: int| 0 <= q < sub.len() && #[trigger] sub[q] == x;
    if q < c {
        assert(s.subrange(0, c)[q] == x);
    }
}

/// Covered stays covered while round `k`'s bags and the best bags keep
/// their arrivals.
proof fn lemma_covered_kept<L: Label>(a: RaptorCache<L>, b: RaptorCache<L>, k: int, s: int, t: u32, pt: u32)
    requires
        keeps_arrivals(a, b, k),
        scan_covered(a, k, s, t, pt),
        0 <= s < a.labels@[k]@.len(),
        0 <= s < a.best_arrival@.len(),
    ensures
        scan_covered(b, k, s, t, pt),
{
    if arrives_by(a.labels@[k]@[s].items@, t) {
        assert(arrives_by(b.labels@[k]@[s].items@, t));
    } else if arrives_by(a.best_arrival@[s].items@, t) {
        assert(arrives_by(b.best_arrival@[s].items@, t));
    }
}

/// Covered at `t1` means covered at any later `t2`.
proof fn lemma_covered_later<L: Label>(c: RaptorCache<L>, k: int, s: int, t1: u32, t2: u32, pt: u32)
    requires
        scan_covered(c, k, s, t1, pt),
        t1 <= t2,
    ensures
        scan_covered(c, k, s, t2, pt),
{
    if arrives_by(c.labels@[k]@[s].items@, t1) {
        lemma_arrives_by_later(c.labels@[k]@[s].items@, t1, t2);
    } else if arrives_by(c.best_arrival@[s].items@, t1) {
        lemma_arrives_by_later(c.best_arrival@[s].items@, t1, t2);
    }
}

/// A scan's coverage survives a step that keeps round `k`'s arrivals.
proof fn lemma_scan_complete_kept<T: Timetable, L: Label>(
    tt: &T,
    c0: RaptorCache<L>,
    a: RaptorCache<L>,
    b: RaptorCache<L>,
    k: int,
    route: nat,
    from: int,
    upto: int,
    pt: u32,
)
    requires
        tt.well_formed(),
        route < tt.route_count(),
        0 <= from,
        upto <= tt.route_stops(route).len(),
        a.labels@[k]@.len() == tt.stop_count(),
        a.best_arrival@.len() == tt.stop_count(),
        keeps_arrivals(a, b, k),
        scan_complete(tt, c0, a, k, route, from, upto, pt),
    ensures
        scan_complete(tt, c0, b, k, route, from, upto, pt),
{
    tt.lemma_shape();
    assert forall|i: int, m: int, l: L, u: nat|
        #![trigger c0.labels@[k - 1]@[tt.route_stops(route)[i].0 as int].items@.contains(l), boards_with(tt, route, i, l.arrival_of(), u), tt.route_stops(route)[m]]
        from <= i < m < upto && c0.labels@[k - 1]@[tt.route_stops(route)[i].0 as int].items@.contains(l) && boards_with(
            tt,
            route,
            i,
            l.arrival_of(),
            u,
        ) implies scan_covered(b, k, tt.route_stops(route)[m].0 as int, tt.arr_at(u, m as nat), pt) by {
        assert(tt.route_stops(route)[m].0 < tt.stop_count());
        lemma_covered_kept(a, b, k, tt.route_stops(route)[m].0 as int, tt.arr_at(u, m as nat), pt);
    }
}

/// Scans `route` from position `p_pos` in round `k`: at each stop, every
/// riding entry alights when drop-off (and, if asked, wheelchair access)
/// is allowed and the trip's arrival beats both the stop's best arrival
/// and `pt`; then every label of round `k - 1` at the stop boards the
/// earliest catchable trip, unless a riding entry with a dominating label
/// on a trip leaving no later makes it redundant, and evicts the entries
/// it makes redundant.
fn scan_route<T: Timetable, L: Label>(
    tt: &T,
    ctx: &L::Ctx,
    cache: &mut RaptorCache<L>,
    k: usize,
    route: RouteIdx,
    p_pos: u32,
    pt: SecondOfDay,
    require_wheelchair_accessible: bool,
    Ghost(rounds): Ghost<nat>,
    Ghost(os): Ghost<Seq<(StopIdx, Duration)>>,
    Ghost(depart): Ghost<u32>,
)
    requires
        tt.well_formed(),
        old(cache).state_ok(tt, rounds),
        labels_sound(tt, os, depart, old(cache).labels@),
        1 <= k < rounds,
        route.0 < tt.route_count(),
        p_pos < tt.route_stops(route.0 as nat).len(),
    ensures
        round_frame(tt, *old(cache), *final(cache), k as int, rounds),
        keeps_best(*old(cache), *final(cache)),
        labels_sound(tt, os, depart, final(cache).labels@),
        require_wheelchair_accessible && rides_accessible(tt, old(cache).board_detail@) ==> rides_accessible(
            tt,
            final(cache).board_detail@,
        ),
        route_fifo(tt, route.0 as nat) && route_alights(tt, route.0 as nat) && !require_wheelchair_accessible
            ==> scan_complete(
            tt,
            *old(cache),
            *final(cache),
            k as int,
            route.0 as nat,
            p_pos as int,
            tt.route_stops(route.0 as nat).len() as int,
            pt.0,
        ),
{
    proof {
        tt.lemma_shape();
    }
    let ghost c0 = *cache;
    let ghost rs = tt.route_stops(route.0 as nat);
    let ghost comp = route_fifo(tt, route.0 as nat) && route_alights(tt, route.0 as nat) && !require_wheelchair_accessible;
    let stops = tt.get_stops_after(route, p_pos);
    let mut route_bag: Vec<(L, TripIdx, StopIdx, u32)> = Vec::new();
    let mut off: usize = 0;
    while off < stops.len()
        invariant
            tt.well_formed(),
            1 <= k < rounds,
            route.0 < tt.route_count(),
            rs == tt.route_stops(route.0 as nat),
            rs.len() <= u32::MAX,
            p_pos < rs.len(),
            stops@ == rs.subrange(p_pos as int, rs.len() as int),
            off <= stops@.len(),
            c0.state_ok(tt, rounds),
            round_frame(tt, c0, *cache, k as int, rounds),
            keeps_best(c0, *cache),
            forall|i: int| 0 <= i < route_bag@.len() ==> riding_ok(tt, route, #[trigger] route_bag@[i]),
            labels_sound(tt, os, depart, cache.labels@),
            require_wheelchair_accessible && rides_accessible(tt, c0.board_detail@) ==> rides_accessible(tt, cache.board_detail@),
            forall|i: int| 0 <= i < route_bag@.len() ==> rider_sound(tt, os, depart, k as int, #[trigger] route_bag@[i]),
            forall|i: int| 0 <= i < route_bag@.len() ==> (#[trigger] route_bag@[i]).3 < p_pos + off,
            comp == (route_fifo(tt, route.0 as nat) && route_alights(tt, route.0 as nat) && !require_wheelchair_accessible),
            comp ==> scan_complete(tt, c0, *cache, k as int, route.0 as nat, p_pos as int, p_pos + off, pt.0),
            comp && off > 0 ==> forall|i: int, l: L, u: nat|
                #![trigger c0.labels@[k - 1]@[rs[i].0 as int].items@.contains(l), boards_with(tt, route.0 as nat, i, l.arrival_of(), u)]
                p_pos <= i < p_pos + off && c0.labels@[k - 1]@[rs[i].0 as int].items@.contains(l) && boards_with(
                    tt,
                    route.0 as nat,
                    i,
                    l.arrival_of(),
                    u,
                ) ==> bag_beats(tt, route_bag@, u, p_pos + off - 1),
        decreases stops@.len() - off,
    {
        proof {
            tt.lemma_shape();
        }
        let pos = p_pos + off as u32;
        let pi = stops[off];
        assert(pi == rs[pos as int]);
        assert(rs.contains(pi));
        // Alight every riding entry at `pi`.
        let stop_ok = !require_wheelchair_accessible || tt.stop_wheelchair_accessible(pi);
        let mut b: usize = 0;
        while b < route_bag.len()
            invariant
                tt.well_formed(),
                1 <= k < rounds,
                route.0 < tt.route_count(),
                rs == tt.route_stops(route.0 as nat),
                pos < rs.len(),
                pi == rs[pos as int],
                pi.0 < tt.stop_count(),
                rs.contains(pi),
                b <= route_bag@.len(),
                stop_ok ==> (!require_wheelchair_accessible || tt.stop_accessible(pi.0 as nat)),
                round_frame(tt, c0, *cache, k as int, rounds),
                keeps_best(c0, *cache),
                forall|i: int| 0 <= i < route_bag@.len() ==> riding_ok(tt, route, #[trigger] route_bag@[i]),
                labels_sound(tt, os, depart, cache.labels@),
                require_wheelchair_accessible && rides_accessible(tt, c0.board_detail@) ==> rides_accessible(tt, cache.board_detail@),
                forall|i: int| 0 <= i < route_bag@.len() ==> rider_sound(tt, os, depart, k as int, #[trigger] route_bag@[i]),
                forall|i: int| 0 <= i < route_bag@.len() ==> (#[trigger] route_bag@[i]).3 < pos,
                pos == p_pos + off,
                p_pos <= pos,
                c0.state_ok(tt, rounds),
                comp == (route_fifo(tt, route.0 as nat) && route_alights(tt, route.0 as nat) && !require_wheelchair_accessible),
                comp ==> stop_ok,
                comp ==> scan_complete(tt, c0, *cache, k as int, route.0 as nat, p_pos as int, pos as int, pt.0),
                comp ==> forall|j: int| 0 <= j < b ==> scan_covered(
                    *cache,
                    k as int,
                    pi.0 as int,
                    tt.arr_at((#[trigger] route_bag@[j]).1.0 as nat, pos as nat),
                    pt.0,
                ),
            decreases route_bag@.len() - b,
        {
            let (bl, trip, bstop, bpos) = route_bag[b];
            assert(riding_ok(tt, route, route_bag@[b as int]));
            let ghost cb = *cache;
            let ghost alit = false;
            proof {
                if comp {
                    assert(tt.may_alight(trip.0 as nat, pos as nat));
                }
            }
            if tt.drop_off_allowed(trip, pos) && stop_ok {
                let arr = tt.get_arrival_time(trip, pos);
                let best_to_pi = cache.best_arrival[pi.0 as usize].min_arrival();
                let time_to_beat = if best_to_pi.0 < pt.0 {
                    best_to_pi.0
                } else {
                    pt.0
                };
                if arr.0 < time_to_beat {
                    let leg = TripContext {
                        trip,
                        route,
                        board_stop: bstop,
                        board_pos: bpos,
                        alight_stop: pi,
                        alight_pos: pos,
                        arrival: arr,
                    };
                    let new_label = bl.extend_by_trip(ctx, leg);
                    let ghost before = *cache;
                    proof {
                        assert(rider_sound(tt, os, depart, k as int, route_bag@[b as int]));
                        assert(bpos < pos);
                        assert(leg_step(tt, (bstop.0 as nat, bl.arrival_of()), Leg::Ride { trip: trip.0, board: bpos, alight: pos })
                            == Some((pi.0 as nat, new_label.arrival_of())));
                        lemma_reaches_leg(
                            tt,
                            os,
                            depart,
                            (k - 1) as nat,
                            bstop.0 as nat,
                            bl.arrival_of(),
                            Leg::Ride { trip: trip.0, board: bpos, alight: pos },
                            pi.0 as nat,
                            new_label.arrival_of(),
                        );
                    }
                    let ghost row0 = cache.labels@[k as int]@[pi.0 as int].items@;
                    let added = cache.labels[k][pi.0 as usize].insert(new_label);
                    proof {
                        if added {
                            assert(cache.labels@[k as int]@[pi.0 as int].items@ == bag_insert(row0, new_label));
                            let nb = cache.labels@[k as int]@[pi.0 as int].items@;
                            assert(nb[nb.len() - 1] == new_label);
                            assert(arrives_by(nb, arr.0));
                        } else {
                            let w = choose|w: int| 0 <= w < row0.len() && (#[trigger] row0[w]).dominates_spec(&new_label);
                            L::lemma_dominates_arrival(row0[w], new_label);
                            assert(arrives_by(row0, arr.0));
                        }
                        assert(arrives_by(cache.labels@[k as int]@[pi.0 as int].items@, arr.0));
                    }
                    if added {
                        let ghost best0 = cache.best_arrival@;
                        let _ = cache.best_arrival[pi.0 as usize].insert(new_label);
                        proof {
                            let bs = best0[pi.0 as int].items@;
                            assert forall|x: int, t: u32|
                                0 <= x < best0.len() && arrives_by(best0[x].items@, t) implies arrives_by(
                                    cache.best_arrival@[x].items@,
                                    t,
                                ) by {
                                if x == pi.0 && cache.best_arrival@[x].items@ != bs {
                                    lemma_arrives_by_insert(bs, new_label, t);
                                }
                            }
                        }
                        let step = Step::Boarded { from: bstop, route, parent_arrival: bl.arrival() };
                        let a = new_label.arrival();
                        proof {
                            assert(step_valid(tt, (k, pi.0, a.0), step));
                        }
                        let ghost tree0 = cache.board_detail@;
                        cache.board_detail.insert((k, pi.0, a.0), step);
                        proof {
                            if require_wheelchair_accessible && rides_accessible(tt, c0.board_detail@) {
                                assert(tt.stop_accessible(pi.0 as nat));
                                assert forall|key: (usize, u32, u32)|
                                    #[trigger] cache.board_detail@.contains_key(key) && cache.board_detail@[key] is Boarded implies tt.stop_accessible(
                                    key.1 as nat,
                                ) by {
                                    if key != (k, pi.0, a.0) {
                                        assert(tree0.contains_key(key));
                                    }
                                }
                            }
                        }
                        bitset_insert(&mut cache.marked_stops, pi.0 as usize);
                        bitset_insert(&mut cache.ever_reached, pi.0 as usize);
                    }
                    proof {
                        assert forall|x: int| 0 <= x < c0.labels@.len() && x != k implies #[trigger] cache.labels@[x]@ == c0.labels@[x]@ by {
                            assert(cache.labels@[x]@ == before.labels@[x]@);
                        }
                        assert(keeps_best(before, *cache));
                        lemma_keeps_best_trans(c0, before, *cache);
                        assert forall|x: int, y: int, m: L|
                            0 <= x < cache.labels@.len() && 0 <= y < cache.labels@[x]@.len() && #[trigger] cache.labels@[x]@[y].items@.contains(m)
                                implies before.labels@[x]@[y].items@.contains(m) || (x == k && y == pi.0 && m == new_label) by {
                            if x == k && y == pi.0 {
                                let ob = before.labels@[x]@[y].items@;
                                if cache.labels@[x]@[y].items@ != ob {
                                    lemma_bag_insert_members(ob, new_label, m);
                                }
                            } else if x == k {
                                assert(cache.labels@[x]@[y] == before.labels@[x]@[y]);
                            } else {
                                assert(cache.labels@[x]@ == before.labels@[x]@);
                            }
                        }
                        lemma_sound_grew(tt, os, depart, before.labels@, cache.labels@, k as int, pi.0 as int, new_label);
                        assert(keeps_arrivals(before, *cache, k as int)) by {
                            assert forall|s2: int, t: u32|
                                0 <= s2 < before.labels@[k as int]@.len() && arrives_by(before.labels@[k as int]@[s2].items@, t) implies arrives_by(
                                cache.labels@[k as int]@[s2].items@,
                                t,
                            ) by {
                                if s2 == pi.0 {
                                    if added {
                                        lemma_arrives_by_insert(row0, new_label, t);
                                    }
                                } else {
                                    assert(cache.labels@[k as int]@[s2] == before.labels@[k as int]@[s2]);
                                }
                            }
                        }
                        assert(arrives_by(cache.labels@[k as int]@[pi.0 as int].items@, arr.0));
                        assert(scan_covered(*cache, k as int, pi.0 as int, arr.0, pt.0));
                    }
                } else {
                    proof {
                        if best_to_pi.0 < pt.0 {
                            let bb = cache.best_arrival@[pi.0 as int].items@;
                            if bb.len() == 0 {
                                assert(min_arrival_of(bb) == u32::MAX);
                            }
                            lemma_min_arrival_arrives(bb, arr.0);
                        }
                        assert(scan_covered(*cache, k as int, pi.0 as int, arr.0, pt.0));
                    }
                }
            }
            proof {
                if comp {
                    assert(keeps_arrivals(cb, *cache, k as int));
                    assert(scan_covered(*cache, k as int, pi.0 as int, tt.arr_at(trip.0 as nat, pos as nat), pt.0));
                    lemma_scan_complete_kept(tt, c0, cb, *cache, k as int, route.0 as nat, p_pos as int, pos as int, pt.0);
                    assert forall|j: int| 0 <= j < b + 1 implies scan_covered(
                        *cache,
                        k as int,
                        pi.0 as int,
                        tt.arr_at((#[trigger] route_bag@[j]).1.0 as nat, pos as nat),
                        pt.0,
                    ) by {
                        if j < b {
                            lemma_covered_kept(cb, *cache, k as int, pi.0 as int, tt.arr_at(route_bag@[j].1.0 as nat, pos as nat), pt.0);
                        }
                    }
                }
            }
            b = b + 1;
        }
        proof {
            if comp {
                assert forall|i: int, m: int, l: L, u: nat|
                    #![trigger c0.labels@[k - 1]@[tt.route_stops(route.0 as nat)[i].0 as int].items@.contains(l), boards_with(tt, route.0 as nat, i, l.arrival_of(), u), tt.route_stops(route.0 as nat)[m]]
                    p_pos <= i < m < pos + 1 && c0.labels@[k - 1]@[tt.route_stops(route.0 as nat)[i].0 as int].items@.contains(l)
                        && boards_with(tt, route.0 as nat, i, l.arrival_of(), u) implies scan_covered(
                    *cache,
                    k as int,
                    tt.route_stops(route.0 as nat)[m].0 as int,
                    tt.arr_at(u, m as nat),
                    pt.0,
                ) by {
                    if m == pos {
                        assert(c0.labels@[k - 1]@[rs[i].0 as int].items@.contains(l));
                        assert(bag_beats(tt, route_bag@, u, pos - 1));
                        let j = choose|j: int| 0 <= j < route_bag@.len() && tt.dep_at((#[trigger] route_bag@[j]).1.0 as nat, (pos - 1) as nat) <= tt.dep_at(u, (pos - 1) as nat);
                        assert(riding_ok(tt, route, route_bag@[j]));
                        assert(no_overtake_at(tt, route_bag@[j].1.0 as nat, u, (pos - 1) as nat));
                        assert(scan_covered(*cache, k as int, pi.0 as int, tt.arr_at(route_bag@[j].1.0 as nat, pos as nat), pt.0));
                        lemma_covered_later(*cache, k as int, pi.0 as int, tt.arr_at(route_bag@[j].1.0 as nat, pos as nat), tt.arr_at(u, pos as nat), pt.0);
                    }
                }
                assert forall|i: int, l: L, u: nat|
                    #![trigger c0.labels@[k - 1]@[rs[i].0 as int].items@.contains(l), boards_with(tt, route.0 as nat, i, l.arrival_of(), u)]
                    p_pos <= i < pos && c0.labels@[k - 1]@[rs[i].0 as int].items@.contains(l) && boards_with(
                        tt,
                        route.0 as nat,
                        i,
                        l.arrival_of(),
                        u,
                    ) implies bag_beats(tt, route_bag@, u, pos as int) by {
                    assert(bag_beats(tt, route_bag@, u, pos - 1));
                    let j = choose|j: int| 0 <= j < route_bag@.len() && tt.dep_at((#[trigger] route_bag@[j]).1.0 as nat, (pos - 1) as nat) <= tt.dep_at(u, (pos - 1) as nat);
                    assert(riding_ok(tt, route, route_bag@[j]));
                    assert(no_overtake_at(tt, route_bag@[j].1.0 as nat, u, (pos - 1) as nat));
                    assert(tt.dep_at(route_bag@[j].1.0 as nat, pos as nat) <= tt.dep_at(u, pos as nat));
                }
            }
        }
        // Board from round `k - 1`'s labels at `pi`.
        let staged = copy_vec(&cache.labels[k - 1][pi.0 as usize].items);
        proof {
            assert(c0.labels@[k - 1]@ == cache.labels@[k - 1]@);
            assert(staged@ == c0.labels@[k - 1]@[pi.0 as int].items@);
            assert forall|i: int| 0 <= i < staged@.len() implies reaches(tt, os, depart, (k - 1) as nat, pi.0 as nat, (#[trigger] staged@[i]).arrival_of()) by {
                assert(cache.labels@[k - 1]@[pi.0 as int].items@.contains(staged@[i]));
            }
        }
        let mut c: usize = 0;
        while c < staged.len()
            invariant
                tt.well_formed(),
                1 <= k < rounds,
                route.0 < tt.route_count(),
                rs == tt.route_stops(route.0 as nat),
                pos < rs.len(),
                pi == rs[pos as int],
                pi.0 < tt.stop_count(),
                c <= staged@.len(),
                round_frame(tt, c0, *cache, k as int, rounds),
                keeps_best(c0, *cache),
                forall|i: int| 0 <= i < route_bag@.len() ==> riding_ok(tt, route, #[trigger] route_bag@[i]),
                labels_sound(tt, os, depart, cache.labels@),
                require_wheelchair_accessible && rides_accessible(tt, c0.board_detail@) ==> rides_accessible(tt, cache.board_detail@),
                forall|i: int| 0 <= i < route_bag@.len() ==> rider_sound(tt, os, depart, k as int, #[trigger] route_bag@[i]),
                forall|i: int| 0 <= i < route_bag@.len() ==> (#[trigger] route_bag@[i]).3 <= pos,
                forall|i: int| 0 <= i < staged@.len() ==> reaches(tt, os, depart, (k - 1) as nat, pi.0 as nat, (#[trigger] staged@[i]).arrival_of()),
                pos == p_pos + off,
                p_pos <= pos,
                comp == (route_fifo(tt, route.0 as nat) && route_alights(tt, route.0 as nat) && !require_wheelchair_accessible),
                staged@ == c0.labels@[k - 1]@[pi.0 as int].items@,
                comp ==> scan_complete(tt, c0, *cache, k as int, route.0 as nat, p_pos as int, pos + 1, pt.0),
                comp ==> forall|i: int, l: L, u: nat|
                    #![trigger c0.labels@[k - 1]@[rs[i].0 as int].items@.contains(l), boards_with(tt, route.0 as nat, i, l.arrival_of(), u)]
                    p_pos <= i <= pos && c0.labels@[k - 1]@[rs[i].0 as int].items@.contains(l) && boards_with(
                        tt,
                        route.0 as nat,
                        i,
                        l.arrival_of(),
                        u,
                    ) && (i < pos || staged@.subrange(0, c as int).contains(l)) ==> bag_beats(tt, route_bag@, u, pos as int),
            decreases staged@.len() - c,
        {
            let candidate = staged[c];
            let cand_arr = candidate.arrival();
            let ghost rb0 = route_bag@;
            match tt.earliest_accessible_trip(route, cand_arr, pos, require_wheelchair_accessible) {
                None => {
                    proof {
                        if comp {
                            assert forall|i: int, l: L, u: nat|
                    #![trigger c0.labels@[k - 1]@[rs[i].0 as int].items@.contains(l), boards_with(tt, route.0 as nat, i, l.arrival_of(), u)]
                    p_pos <= i <= pos && c0.labels@[k - 1]@[rs[i].0 as int].items@.contains(l) && boards_with(
                        tt,
                        route.0 as nat,
                        i,
                        l.arrival_of(),
                        u,
                    ) && (i < pos || staged@.subrange(0, c + 1).contains(l)) implies bag_beats(tt, route_bag@, u, pos as int) by {
                                if !(i < pos || staged@.subrange(0, c as int).contains(l)) {
                                    lemma_prefix_step(staged@, c as int, l);
                                    assert(l == candidate && i == pos);
                                }
                            }
                        }
                    }
                },
                Some(trip) => {
                    let trip_dep = tt.get_departure_time(trip, pos);
                    let mut redundant = false;
                    let mut e: usize = 0;
                    while e < route_bag.len()
                        invariant
                            redundant ==> bag_beats(tt, route_bag@, trip.0 as nat, pos as int),
                            trip_dep.0 == tt.dep_at(trip.0 as nat, pos as nat),
                            tt.well_formed(),
                            route.0 < tt.route_count(),
                            rs == tt.route_stops(route.0 as nat),
                            pos < rs.len(),
                            e <= route_bag@.len(),
                            forall|i: int| 0 <= i < route_bag@.len() ==> riding_ok(tt, route, #[trigger] route_bag@[i]),
                            forall|i: int| 0 <= i < route_bag@.len() ==> rider_sound(tt, os, depart, k as int, #[trigger] route_bag@[i]),
                            forall|i: int| 0 <= i < route_bag@.len() ==> (#[trigger] route_bag@[i]).3 <= pos,
                        decreases route_bag@.len() - e,
                    {
                        let (l_existing, t_existing, _, _) = route_bag[e];
                        assert(riding_ok(tt, route, route_bag@[e as int]));
                        let existing_dep = tt.get_departure_time(t_existing, pos);
                        if l_existing.dominates(&candidate) && existing_dep.0 <= trip_dep.0 {
                            redundant = true;
                            assert(tt.dep_at(route_bag@[e as int].1.0 as nat, pos as nat) <= tt.dep_at(trip.0 as nat, pos as nat));
                        }
                        e = e + 1;
                    }
                    if !redundant {
                        let mut kept: Vec<(L, TripIdx, StopIdx, u32)> = Vec::new();
                        let mut e2: usize = 0;
                        while e2 < route_bag.len()
                            invariant
                                trip_dep.0 == tt.dep_at(trip.0 as nat, pos as nat),
                                forall|j: int|
                                    0 <= j < e2 ==> kept@.contains(#[trigger] route_bag@[j]) || trip_dep.0 <= tt.dep_at(
                                        route_bag@[j].1.0 as nat,
                                        pos as nat,
                                    ),
                                tt.well_formed(),
                                route.0 < tt.route_count(),
                                rs == tt.route_stops(route.0 as nat),
                                pos < rs.len(),
                                e2 <= route_bag@.len(),
                                forall|i: int| 0 <= i < route_bag@.len() ==> riding_ok(tt, route, #[trigger] route_bag@[i]),
                                forall|i: int| 0 <= i < kept@.len() ==> riding_ok(tt, route, #[trigger] kept@[i]),
                                forall|i: int| 0 <= i < route_bag@.len() ==> rider_sound(tt, os, depart, k as int, #[trigger] route_bag@[i]),
                                forall|i: int| 0 <= i < route_bag@.len() ==> (#[trigger] route_bag@[i]).3 <= pos,
                                forall|i: int| 0 <= i < kept@.len() ==> rider_sound(tt, os, depart, k as int, #[trigger] kept@[i]),
                                forall|i: int| 0 <= i < kept@.len() ==> (#[trigger] kept@[i]).3 <= pos,
                            decreases route_bag@.len() - e2,
                        {
                            let entry = route_bag[e2];
                            assert(riding_ok(tt, route, route_bag@[e2 as int]));
                            let existing_dep = tt.get_departure_time(entry.1, pos);
                            let ghost k00 = kept@;
                            if candidate.dominates(&entry.0) && trip_dep.0 <= existing_dep.0 {
                                assert(trip_dep.0 <= tt.dep_at(route_bag@[e2 as int].1.0 as nat, pos as nat));
                            }
                            if !(candidate.dominates(&entry.0) && trip_dep.0 <= existing_dep.0) {
                                let ghost k0 = kept@;
                                kept.push(entry);
                                proof {
                                    assert(kept@[k0.len() as int] == route_bag@[e2 as int]);
                                    assert forall|j: int| 0 <= j < e2 + 1 implies kept@.contains(#[trigger] route_bag@[j])
                                        || trip_dep.0 <= tt.dep_at(route_bag@[j].1.0 as nat, pos as nat) by {
                                        if j < e2 && k0.contains(route_bag@[j]) {
                                            let q = choose|q: int| 0 <= q < k0.len() && k0[q] == route_bag@[j];
                                            assert(kept@[q] == route_bag@[j]);
                                        }
                                    }
                                    assert forall|i: int| 0 <= i < kept@.len() implies riding_ok(tt, route, #[trigger] kept@[i])
                                        && rider_sound(tt, os, depart, k as int, kept@[i]) && kept@[i].3 <= pos by {
                                        if i < k0.len() {
                                            assert(kept@[i] == k0[i]);
                                        } else {
                                            assert(kept@[i] == route_bag@[e2 as int]);
                                        }
                                    }
                                }
                            }
                            e2 = e2 + 1;
                        }
                        let ghost k1 = kept@;
                        kept.push((candidate, trip, pi, pos));
                        proof {
                            assert(reaches(tt, os, depart, (k - 1) as nat, pi.0 as nat, candidate.arrival_of()));
                            assert forall|i: int| 0 <= i < kept@.len() implies riding_ok(tt, route, #[trigger] kept@[i])
                                && rider_sound(tt, os, depart, k as int, kept@[i]) && kept@[i].3 <= pos by {
                                if i < k1.len() {
                                    assert(kept@[i] == k1[i]);
                                }
                            }
                        }
                        route_bag = kept;
                        proof {
                            assert(route_bag@[route_bag@.len() - 1] == (candidate, trip, pi, pos));
                            assert forall|j: int| 0 <= j < rb0.len() implies route_bag@.contains(#[trigger] rb0[j]) || trip_dep.0
                                <= tt.dep_at(rb0[j].1.0 as nat, pos as nat) by {
                                if k1.contains(rb0[j]) {
                                    let q = choose|q: int| 0 <= q < k1.len() && k1[q] == rb0[j];
                                    assert(route_bag@[q] == rb0[j]);
                                }
                            }
                        }
                    }
                    proof {
                        if comp {
                            assert(tt.earliest_trip(route.0 as nat, candidate.arrival_of(), pos as nat) == Some(trip.0 as nat));
                            assert forall|i: int, l: L, u: nat|
                    #![trigger c0.labels@[k - 1]@[rs[i].0 as int].items@.contains(l), boards_with(tt, route.0 as nat, i, l.arrival_of(), u)]
                    p_pos <= i <= pos && c0.labels@[k - 1]@[rs[i].0 as int].items@.contains(l) && boards_with(
                        tt,
                        route.0 as nat,
                        i,
                        l.arrival_of(),
                        u,
                    ) && (i < pos || staged@.subrange(0, c + 1).contains(l)) implies bag_beats(tt, route_bag@, u, pos as int) by {
                                if !(i < pos || staged@.subrange(0, c as int).contains(l)) {
                                    lemma_prefix_step(staged@, c as int, l);
                                    assert(l == candidate && i == pos);
                                    assert(u == trip.0);
                                    if !redundant {
                                        let last = route_bag@.len() - 1;
                                        assert(tt.dep_at(route_bag@[last].1.0 as nat, pos as nat) <= tt.dep_at(u, pos as nat));
                                    }
                                } else {
                                    assert(bag_beats(tt, rb0, u, pos as int));
                                    if !redundant {
                                        let j = choose|j: int| 0 <= j < rb0.len() && tt.dep_at((#[trigger] rb0[j]).1.0 as nat, pos as nat) <= tt.dep_at(u, pos as nat);
                                        if route_bag@.contains(rb0[j]) {
                                            let q = choose|q: int| 0 <= q < route_bag@.len() && route_bag@[q] == rb0[j];
                                            assert(tt.dep_at(route_bag@[q].1.0 as nat, pos as nat) <= tt.dep_at(u, pos as nat));
                                        } else {
                                            let last = route_bag@.len() - 1;
                                            assert(tt.dep_at(route_bag@[last].1.0 as nat, pos as nat) <= tt.dep_at(u, pos as nat));
                                        }
                                    }
                                }
                            }
                        }
                    }
                },
            }
            c = c + 1;
        }
        proof {
            if comp {
                assert(staged@.subrange(0, c as int) =~= staged@);
                assert forall|i: int, l: L, u: nat|
                    #![trigger c0.labels@[k - 1]@[rs[i].0 as int].items@.contains(l), boards_with(tt, route.0 as nat, i, l.arrival_of(), u)]
                    p_pos <= i < pos + 1 && c0.labels@[k - 1]@[rs[i].0 as int].items@.contains(l) && boards_with(
                        tt,
                        route.0 as nat,
                        i,
                        l.arrival_of(),
                        u,
                    ) implies bag_beats(tt, route_bag@, u, pos as int) by {
                    if i == pos {
                        assert(staged@.subrange(0, c as int).contains(l));
                    }
                }
            }
        }
        off = off + 1;
    }
}

/// Bag matrices with the same bags are equally sound.
proof fn lemma_sound_same_grid<T: Timetable, L: Label>(
    tt: &T,
    os: Seq<(StopIdx, Duration)>,
    depart: u32,
    a: Seq<Vec<LabelBag<L>>>,
    b: Seq<Vec<LabelBag<L>>>,
)
    requires
        labels_sound(tt, os, depart, a),
        grid_same(a, b),
    ensures
        labels_sound(tt, os, depart, b),
{
    assert forall|x: int, y: int, m: L|
        0 <= x < b.len() && 0 <= y < b[x]@.len() && #[trigger] b[x]@[y].items@.contains(m) implies reaches(
        tt,
        os,
        depart,
        x as nat,
        y as nat,
        m.arrival_of(),
    ) by {
        assert(b[x]@ == a[x]@);
    }
}

/// Carrying round `k - 1`'s bags forward keeps the bags sound: a label
/// reached with `k - 1` rides is reached with `k`.
proof fn lemma_sound_carried<T: Timetable, L: Label>(
    tt: &T,
    os: Seq<(StopIdx, Duration)>,
    depart: u32,
    a: RaptorCache<L>,
    b: RaptorCache<L>,
    k: int,
    rounds: nat,
)
    requires
        labels_sound(tt, os, depart, a.labels@),
        1 <= k < rounds,
        a.state_ok(tt, rounds),
        round_frame(tt, a, b, k, rounds),
        b.labels@[k]@.len() == a.labels@[k]@.len(),
        forall|s: int|
            0 <= s < a.labels@[k]@.len() ==> #[trigger] b.labels@[k]@[s].items@ == (if bits_of(a.ever_reached).contains(
                s as nat,
            ) {
                a.labels@[k - 1]@[s].items@
            } else {
                a.labels@[k]@[s].items@
            }),
    ensures
        labels_sound(tt, os, depart, b.labels@),
{
    assert forall|x: int, y: int, m: L|
        0 <= x < b.labels@.len() && 0 <= y < b.labels@[x]@.len() && #[trigger] b.labels@[x]@[y].items@.contains(m) implies reaches(
        tt,
        os,
        depart,
        x as nat,
        y as nat,
        m.arrival_of(),
    ) by {
        if x == k {
            if bits_of(a.ever_reached).contains(y as nat) {
                assert(b.labels@[k]@[y].items@ == a.labels@[k - 1]@[y].items@);
                assert(a.labels@[k - 1]@.len() == a.labels@[k]@.len());
                assert(a.labels@[k - 1]@[y].items@.contains(m));
                lemma_reaches_more(tt, os, depart, (k - 1) as nat, k as nat, y as nat, m.arrival_of());
            } else {
                assert(a.labels@[k]@[y].items@.contains(m));
            }
        } else {
            assert(b.labels@[x]@ == a.labels@[x]@);
        }
    }
}

/// Runs the round-0 footpath pass and then rounds `1..=transfers` on a
/// seeded cache: each round copies the previous round's bags forward,
/// queues every route through a marked stop, scans the queued routes,
/// relaxes footpaths, and marks the stops the pass improved; the rounds
/// stop early once a round marks nothing. The footpath pass is the single
/// walk when the timetable says its footpaths are transitively closed,
/// the fixed-point pass otherwise.
pub(crate) fn run_raptor_rounds<T: Timetable, L: Label>(
    tt: &T,
    ctx: &L::Ctx,
    cache: &mut RaptorCache<L>,
    transfers: usize,
    require_wheelchair_accessible: bool,
    targets: &[(StopIdx, Duration)],
    Ghost(os): Ghost<Seq<(StopIdx, Duration)>>,
    Ghost(depart): Ghost<u32>,
)
    requires
        tt.well_formed(),
        old(cache).ready(tt, transfers as nat),
        labels_sound(tt, os, depart, old(cache).labels@),
        transfers < usize::MAX,
        forall|i: int| 0 <= i < targets@.len() ==> (#[trigger] targets@[i]).0.0 < tt.stop_count(),
    ensures
        final(cache).ready(tt, transfers as nat),
        final(cache).origin_set == old(cache).origin_set,
        forall|s: nat, t: u32|
            bits_of(old(cache).marked_stops).contains(s) && t < u32::MAX && #[trigger] arrives_by(
                old(cache).labels@[0]@[s as int].items@,
                t,
            ) ==> walks_relaxed(tt, *final(cache), targets@, 0, s, t),
        bits_of(final(cache).marked_stops).is_empty(),
        labels_sound(tt, os, depart, final(cache).labels@),
        require_wheelchair_accessible && rides_accessible(tt, old(cache).board_detail@) ==> rides_accessible(
            tt,
            final(cache).board_detail@,
        ),
{
    let ghost rounds: nat = (transfers + 1) as nat;
    let ghost c_in = *cache;
    let closed = tt.footpaths_are_transitively_closed();
    if closed {
        relax_footpaths_round_closed(tt, ctx, cache, 0, targets, Ghost(rounds), Ghost(os), Ghost(depart));
    } else {
        relax_footpaths_round(tt, ctx, cache, 0, targets, Ghost(rounds), Ghost(os), Ghost(depart));
        proof {
            assert forall|s: nat, t: u32|
                bits_of(c_in.marked_stops).contains(s) && t < u32::MAX && #[trigger] arrives_by(c_in.labels@[0]@[s as int].items@, t)
                    implies walks_relaxed(tt, *cache, targets@, 0, s, t) by {
                assert(arrives_by(cache.labels@[0]@[s as int].items@, t));
            }
        }
    }
    proof {
        if require_wheelchair_accessible && rides_accessible(tt, c_in.board_detail@) {
            lemma_rides_accessible_kept(tt, c_in.board_detail@, cache.board_detail@);
        }
    }
    let ghost c_walked = *cache;
    drain_walked(tt, cache, Ghost(rounds));
    proof {
        lemma_keeps_arrivals_of_row(c_walked, *cache, 0);
        lemma_sound_same_grid(tt, os, depart, c_walked.labels@, cache.labels@);
    }
    let mut pt = best_to_any_target(&cache.best_arrival, targets);
    let mut k: usize = 1;
    let mut settled = false;
    while k <= transfers && !settled
        invariant
            tt.well_formed(),
            transfers < usize::MAX,
            rounds == transfers + 1,
            1 <= k <= transfers + 1,
            cache.ready(tt, transfers as nat),
            cache.origin_set == old(cache).origin_set,
            forall|i: int| 0 <= i < targets@.len() ==> (#[trigger] targets@[i]).0.0 < tt.stop_count(),
            c_walked.state_ok(tt, rounds),
            keeps_arrivals(c_walked, *cache, 0),
            forall|s: nat, t: u32|
                bits_of(c_in.marked_stops).contains(s) && t < u32::MAX && #[trigger] arrives_by(c_in.labels@[0]@[s as int].items@, t)
                    ==> walks_relaxed(tt, c_walked, targets@, 0, s, t),
            labels_sound(tt, os, depart, cache.labels@),
            require_wheelchair_accessible && rides_accessible(tt, c_in.board_detail@) ==> rides_accessible(tt, cache.board_detail@),
        decreases transfers + 1 - k,
    {
        let ghost c_round = *cache;
        carry_forward(tt, cache, k, Ghost(rounds));
        proof {
            lemma_sound_carried(tt, os, depart, c_round, *cache, k as int, rounds);
        }
        build_route_queue(tt, cache, Ghost(rounds));
        bitset_clear(&mut cache.marked_stops);
        let ghost c_scan = *cache;
        proof {
            assert(cache.labels@[0]@ == c_round.labels@[0]@);
            assert(keeps_best(c_round, *cache));
        }
        let mut qi: usize = 0;
        while qi < cache.q_routes.len()
            invariant
                tt.well_formed(),
                1 <= k < rounds,
                qi <= cache.q_routes@.len(),
                cache.state_ok(tt, rounds),
                queue_ok(tt, cache.q_entry@, cache.q_routes@),
                cache.origin_set == old(cache).origin_set,
                cache.labels@.len() == c_scan.labels@.len(),
                cache.labels@[0]@ == c_scan.labels@[0]@,
                keeps_best(c_scan, *cache),
                labels_sound(tt, os, depart, cache.labels@),
                require_wheelchair_accessible && rides_accessible(tt, c_in.board_detail@) ==> rides_accessible(tt, cache.board_detail@),
            decreases cache.q_routes@.len() - qi,
        {
            let route = cache.q_routes[qi];
            if let Some(p_pos) = cache.q_entry[route.0 as usize] {
                let ghost before = *cache;
                scan_route(tt, ctx, cache, k, route, p_pos, pt, require_wheelchair_accessible, Ghost(rounds), Ghost(os), Ghost(depart));
                proof {
                    assert(cache.labels@[0]@ == before.labels@[0]@);
                    lemma_keeps_best_trans(c_scan, before, *cache);
                }
            }
            qi = qi + 1;
        }
        reset_route_queue(tt, cache, Ghost(rounds));
        let ghost c_pass = *cache;
        proof {
            if require_wheelchair_accessible && rides_accessible(tt, c_in.board_detail@) {
                assert(rides_accessible(tt, c_pass.board_detail@));
            }
        }
        if closed {
            relax_footpaths_round_closed(tt, ctx, cache, k, targets, Ghost(rounds), Ghost(os), Ghost(depart));
        } else {
            relax_footpaths_round(tt, ctx, cache, k, targets, Ghost(rounds), Ghost(os), Ghost(depart));
        }
        proof {
            if require_wheelchair_accessible && rides_accessible(tt, c_in.board_detail@) {
                lemma_rides_accessible_kept(tt, c_pass.board_detail@, cache.board_detail@);
            }
            assert(cache.labels@[0]@ == c_pass.labels@[0]@);
            assert(keeps_best(c_pass, *cache));
        }
        let ghost c_drain = *cache;
        drain_walked(tt, cache, Ghost(rounds));
        proof {
            lemma_sound_same_grid(tt, os, depart, c_drain.labels@, cache.labels@);
            assert(cache.labels@[0]@ == c_drain.labels@[0]@);
            assert(keeps_best(c_drain, *cache));
            lemma_keeps_best_trans(c_round, c_scan, c_pass);
            lemma_keeps_best_trans(c_round, c_pass, *cache);
            assert(cache.labels@[0]@ == c_round.labels@[0]@);
            lemma_keeps_arrivals_of_row(c_round, *cache, 0);
            lemma_keeps_arrivals_trans(c_walked, c_round, *cache, 0);
        }
        pt = best_to_any_target(&cache.best_arrival, targets);
        settled = bitset_is_clear(&cache.marked_stops);
        k = k + 1;
    }
    let ghost c_end = *cache;
    bitset_clear(&mut cache.marked_stops);
    proof {
        assert(keeps_arrivals(c_end, *cache, 0));
        lemma_keeps_arrivals_trans(c_walked, c_end, *cache, 0);
        assert forall|x: nat| #[trigger] bits_of(cache.marked_stops).contains(x) implies x < bit_capacity(cache.marked_stops) by {
        }
    }
    proof {
        assert forall|s: nat, t: u32|
            bits_of(c_in.marked_stops).contains(s) && t < u32::MAX && #[trigger] arrives_by(c_in.labels@[0]@[s as int].items@, t)
                implies walks_relaxed(tt, *cache, targets@, 0, s, t) by {
            assert(bits_of(c_in.marked_stops).contains(s));
            lemma_walks_relaxed_kept(tt, c_walked, *cache, targets@, 0, s, t);
        }
    }
}



/// `set` holds exactly the stops of `pairs`.
pub open spec fn origin_bits(set: Set<nat>, pairs: Seq<(StopIdx, Duration)>) -> bool {
    forall|x: nat| #[trigger] set.contains(x) <==> exists|y: int| 0 <= y < pairs.len() && pairs[y].0.0 == x
}

/// Records the origins' stops in the (empty) origin set.
pub(crate) fn fill_origin_set<T: Timetable, L: Label>(
    tt: &T,
    cache: &mut RaptorCache<L>,
    os: &[(StopIdx, Duration)],
    Ghost(transfers): Ghost<nat>,
)
    requires
        old(cache).ready(tt, transfers),
        bits_of(old(cache).origin_set) == Set::<nat>::empty(),
        forall|x: int| 0 <= x < os@.len() ==> (#[trigger] os@[x]).0.0 < tt.stop_count(),
    ensures
        final(cache).ready(tt, transfers),
        origin_bits(bits_of(final(cache).origin_set), os@),
        final(cache).labels == old(cache).labels,
        final(cache).best_arrival == old(cache).best_arrival,
        final(cache).marked_stops == old(cache).marked_stops,
        final(cache).board_detail == old(cache).board_detail,
{
    let ghost op = os@;
    proof {
        assert forall|x: nat| #[trigger] bits_of(cache.origin_set).contains(x) <==> exists|y: int| 0 <= y < 0 && op[y].0.0 == x by {
        }
    }
    let mut i: usize = 0;
    while i < os.len()
        invariant
            os@ == op,
            i <= os@.len(),
            forall|x: int| 0 <= x < op.len() ==> (#[trigger] op[x]).0.0 < tt.stop_count(),
            cache.ready(tt, transfers),
            cache.labels == old(cache).labels,
            cache.best_arrival == old(cache).best_arrival,
            cache.marked_stops == old(cache).marked_stops,
            cache.board_detail == old(cache).board_detail,
            forall|x: nat| #[trigger] bits_of(cache.origin_set).contains(x) <==> exists|y: int| 0 <= y < i && op[y].0.0 == x,
        decreases os@.len() - i,
    {
        let (o, _) = os[i];
        assert(op[i as int].0.0 < tt.stop_count());
        let ghost prev = bits_of(cache.origin_set);
        bitset_insert(&mut cache.origin_set, o.0 as usize);
        proof {
            assert forall|x: nat| #[trigger] bits_of(cache.origin_set).contains(x) <==> exists|y: int| 0 <= y < i + 1 && op[y].0.0 == x by {
                if x == o.0 {
                    assert(op[i as int].0.0 == x);
                } else if bits_of(cache.origin_set).contains(x) {
                    assert(prev.contains(x));
                } else {
                    if exists|y: int| 0 <= y < i + 1 && op[y].0.0 == x {
                        let y = choose|y: int| 0 <= y < i + 1 && op[y].0.0 == x;
                        assert(y != i);
                    }
                }
            }
        }
        i = i + 1;
    }
}

/// Stop `st` is the stop of some origin of `os`.
pub open spec fn origin_stop(os: Seq<(StopIdx, Duration)>, st: int) -> bool {
    exists|x: int| 0 <= x < os.len() && #[trigger] os[x].0.0 == st
}

/// Seeds every origin at `depart` plus its walk in round 0: a seed that
/// joins the stop's bag also joins its best bag, and the stop becomes
/// marked and reached.
pub(crate) fn seed_departure<T: Timetable, L: Label>(
    tt: &T,
    ctx: &L::Ctx,
    cache: &mut RaptorCache<L>,
    os: &[(StopIdx, Duration)],
    depart: SecondOfDay,
    Ghost(transfers): Ghost<nat>,
    Ghost(d): Ghost<u32>,
)
    requires
        old(cache).ready(tt, transfers),
        d <= depart.0,
        labels_sound(tt, os@, d, old(cache).labels@),
        forall|x: int| 0 <= x < os@.len() ==> (#[trigger] os@[x]).0.0 < tt.stop_count(),
    ensures
        final(cache).ready(tt, transfers),
        final(cache).origin_set == old(cache).origin_set,
        final(cache).labels@.len() == old(cache).labels@.len(),
        forall|x: int| 1 <= x < old(cache).labels@.len() ==> #[trigger] final(cache).labels@[x]@ == old(cache).labels@[x]@,
        final(cache).labels@[0]@.len() == old(cache).labels@[0]@.len(),
        forall|st: int|
            0 <= st < old(cache).labels@[0]@.len() && !origin_stop(os@, st) ==> #[trigger] final(cache).labels@[0]@[st]
                == old(cache).labels@[0]@[st],
        forall|x: int|
            0 <= x < os@.len() ==> arrives_by(
                final(cache).labels@[0]@[(#[trigger] os@[x]).0.0 as int].items@,
                sat_add(depart.0, os@[x].1.0),
            ),
        forall|st: nat| #[trigger] bits_of(old(cache).marked_stops).contains(st) ==> bits_of(final(cache).marked_stops).contains(st),
        forall|st: nat|
            #[trigger] bits_of(final(cache).marked_stops).contains(st) ==> bits_of(old(cache).marked_stops).contains(st)
                || origin_stop(os@, st as int),
        labels_sound(tt, os@, d, final(cache).labels@),
        final(cache).board_detail == old(cache).board_detail,
{
    let ghost c0 = *cache;
    let mut s: usize = 0;
    while s < os.len()
        invariant
            s <= os@.len(),
            forall|x: int| 0 <= x < os@.len() ==> (#[trigger] os@[x]).0.0 < tt.stop_count(),
            cache.ready(tt, transfers),
            cache.origin_set == old(cache).origin_set,
            c0 == *old(cache),
            cache.labels@.len() == c0.labels@.len(),
            forall|x: int| 1 <= x < c0.labels@.len() ==> #[trigger] cache.labels@[x]@ == c0.labels@[x]@,
            cache.labels@[0]@.len() == c0.labels@[0]@.len(),
            forall|st: int|
                0 <= st < c0.labels@[0]@.len() && !origin_stop(os@, st) ==> #[trigger] cache.labels@[0]@[st]
                    == c0.labels@[0]@[st],
            forall|x: int|
                0 <= x < s ==> arrives_by(
                    cache.labels@[0]@[(#[trigger] os@[x]).0.0 as int].items@,
                    sat_add(depart.0, os@[x].1.0),
                ),
            forall|st: nat| #[trigger] bits_of(c0.marked_stops).contains(st) ==> bits_of(cache.marked_stops).contains(st),
            forall|st: nat|
                #[trigger] bits_of(cache.marked_stops).contains(st) ==> bits_of(c0.marked_stops).contains(st)
                    || origin_stop(os@, st as int),
            labels_sound(tt, os@, d, cache.labels@),
            cache.board_detail == old(cache).board_detail,
            d <= depart.0,
        decreases os@.len() - s,
    {
        let (o, walk) = os[s];
        assert(os@[s as int].0.0 < tt.stop_count());
        let seed = L::from_departure(ctx, depart.plus(walk));
        let ghost row0 = cache.labels@[0]@;
        let ghost grid = cache.labels@;
        let ghost marked0 = cache.marked_stops;
        assert(os@[s as int].0.0 == o.0);
        if cache.labels[0][o.0 as usize].insert(seed) {
            let _ = cache.best_arrival[o.0 as usize].insert(seed);
            bitset_insert(&mut cache.marked_stops, o.0 as usize);
            bitset_insert(&mut cache.ever_reached, o.0 as usize);
            proof {
                assert forall|x: nat| #[trigger] bits_of(cache.marked_stops).contains(x) implies x < bit_capacity(cache.marked_stops) by {
                }
                assert forall|x: nat| #[trigger] bits_of(cache.ever_reached).contains(x) implies x < bit_capacity(cache.ever_reached) by {
                }
            }
        }
        proof {
            lemma_reaches_seed(tt, os@, depart.0, s as int);
            lemma_reaches_earlier(tt, os@, d, depart.0, 0, o.0 as nat, seed.arrival_of());
            assert forall|x: int, y: int, m: L|
                0 <= x < cache.labels@.len() && 0 <= y < cache.labels@[x]@.len() && #[trigger] cache.labels@[x]@[y].items@.contains(m)
                    implies grid[x]@[y].items@.contains(m) || (x == 0 && y == o.0 && m == seed) by {
                if x == 0 && y == o.0 {
                    let ob = row0[y].items@;
                    if cache.labels@[x]@[y].items@ != ob {
                        lemma_bag_insert_members(ob, seed, m);
                    }
                } else if x == 0 {
                    assert(cache.labels@[0]@[y] == row0[y]);
                } else {
                    assert(cache.labels@[x] == grid[x]);
                }
            }
            lemma_sound_grew(tt, os@, d, grid, cache.labels@, 0, o.0 as int, seed);
        }
        proof {
            let bag = cache.labels@[0]@[o.0 as int].items@;
            let old_bag = row0[o.0 as int].items@;
            assert(bag == old_bag || bag == bag_insert(old_bag, seed));
            if bag == bag_insert(old_bag, seed) {
                assert(bag[bag.len() - 1] == seed);
            } else {
                assert(some_dominates(old_bag, seed));
                let w = choose|w: int| 0 <= w < old_bag.len() && (#[trigger] old_bag[w]).dominates_spec(&seed);
                L::lemma_dominates_arrival(old_bag[w], seed);
            }
            assert(arrives_by(bag, sat_add(depart.0, walk.0)));
            assert forall|x: int| 1 <= x < c0.labels@.len() implies #[trigger] cache.labels@[x]@ == c0.labels@[x]@ by {
                assert(cache.labels@[x] == grid[x]);
            }
            assert forall|st: int|
                0 <= st < c0.labels@[0]@.len() && !origin_stop(os@, st) implies #[trigger] cache.labels@[0]@[st]
                    == c0.labels@[0]@[st] by {
                if st == o.0 {
                    assert(origin_stop(os@, st));
                }
            }
            assert forall|x: int|
                0 <= x < s + 1 implies arrives_by(
                    cache.labels@[0]@[(#[trigger] os@[x]).0.0 as int].items@,
                    sat_add(depart.0, os@[x].1.0),
                ) by {
                if x < s && os@[x].0.0 == o.0 {
                    if bag != old_bag {
                        lemma_arrives_by_insert(old_bag, seed, sat_add(depart.0, os@[x].1.0));
                    }
                }
            }
            assert forall|st: nat|
                #[trigger] bits_of(cache.marked_stops).contains(st) implies bits_of(c0.marked_stops).contains(st)
                    || origin_stop(os@, st as int) by {
                if !bits_of(marked0).contains(st) {
                    assert(st == o.0);
                    assert(os@[s as int].0.0 == st as int);
                }
            }
        }
        s = s + 1;
    }
}

/// Every journey of `js` fits the query.
pub open spec fn all_fit<T: Timetable, L: Label>(
    tt: &T,
    origins: Seq<(StopIdx, Duration)>,
    targets: Seq<(StopIdx, Duration)>,
    transfers: nat,
    js: Seq<Journey<L>>,
) -> bool {
    forall|i: int| 0 <= i < js.len() ==> journey_fits(tt, origins, targets, transfers, #[trigger] js[i])
}

/// What the extraction returns fits the query, given a cache whose origin
/// set holds exactly the origins' stops.
pub(crate) proof fn lemma_extracted_fit<T: Timetable, L: Label>(
    tt: &T,
    cache: RaptorCache<L>,
    op: Seq<(StopIdx, Duration)>,
    tp: Seq<(StopIdx, Duration)>,
    transfers: usize,
    js: Seq<Journey<L>>,
)
    requires
        cache.ready(tt, transfers as nat),
        origin_bits(bits_of(cache.origin_set), op),
        forall|i: int| 0 <= i < js.len() ==> extracted(cache.labels@, cache.board_detail@, bits_of(cache.origin_set), tp, transfers, #[trigger] js[i]),
    ensures
        all_fit(tt, op, tp, transfers as nat, js),
{
    assert forall|x: int| 0 <= x < js.len() implies journey_fits(tt, op, tp, transfers as nat, #[trigger] js[x]) by {
        let j = js[x];
        assert(extracted(cache.labels@, cache.board_detail@, bits_of(cache.origin_set), tp, transfers, j));
        assert(bits_of(cache.origin_set).contains(j.origin.0 as nat));
        let y = choose|y: int| 0 <= y < op.len() && op[y].0.0 == j.origin.0 as nat;
        assert(op[y] == (j.origin, op[y].1));
        assert(op.contains((j.origin, op[y].1)));
        assert forall|p: int| 0 <= p < j.plan@.len() implies plan_step_valid(tt, #[trigger] j.plan@[p]) by {
            assert(from_tree(cache.board_detail@, j.plan@[p]));
            let key = choose|key: (usize, u32, u32)|
                #[trigger] cache.board_detail@.contains_key(key) && key.1 == j.plan@[p].1.0 && (cache.board_detail@[key] matches Step::Boarded { route, .. } && route == j.plan@[p].0);
            assert(step_valid(tt, key, cache.board_detail@[key]));
            assert(StopIdx(key.1) == j.plan@[p].1);
        }
    }
}

/// A journey a single-departure query may return: it starts at one of the
/// origins, ends at one of the target slots (with that slot's walk), takes
/// one to `transfers` trips, and each step rides an existing route to a
/// stop that route serves.
pub open spec fn journey_fits<T: Timetable, L: Label>(
    tt: &T,
    origins: Seq<(StopIdx, Duration)>,
    targets: Seq<(StopIdx, Duration)>,
    transfers: nat,
    j: Journey<L>,
) -> bool {
    &&& exists|w: Duration| #[trigger] origins.contains((j.origin, w))
    &&& targets.contains((j.target, j.target_walk))
    &&& 1 <= j.plan@.len() <= transfers
    &&& forall|i: int| 0 <= i < j.plan@.len() ==> plan_step_valid(tt, #[trigger] j.plan@[i])
}

/// The journey's label arrival is one an itinerary achieves: the target is
/// reached by some time with at most `transfers` rides from an origin
/// left no earlier than `depart` plus its walk, and the label arrives at
/// that time plus the target's walk (saturating).
pub open spec fn journey_sound<T: Timetable, L: Label>(
    tt: &T,
    origins: Seq<(StopIdx, Duration)>,
    depart: u32,
    transfers: nat,
    j: Journey<L>,
) -> bool {
    exists|t: u32|
        #[trigger] reaches(tt, origins, depart, transfers, j.target.0 as nat, t) && j.label.arrival_of() == sat_add(
            t,
            j.target_walk.0,
        )
}

/// Every journey of `js` is sound.
pub open spec fn all_sound<T: Timetable, L: Label>(
    tt: &T,
    origins: Seq<(StopIdx, Duration)>,
    depart: u32,
    transfers: nat,
    js: Seq<Journey<L>>,
) -> bool {
    forall|i: int| 0 <= i < js.len() ==> journey_sound(tt, origins, depart, transfers, #[trigger] js[i])
}

/// Bags that are all empty are sound.
pub(crate) proof fn lemma_sound_empty<T: Timetable, L: Label>(
    tt: &T,
    os: Seq<(StopIdx, Duration)>,
    depart: u32,
    labels: Seq<Vec<LabelBag<L>>>,
)
    requires
        forall|k: int, s: int| 0 <= k < labels.len() && 0 <= s < labels[k]@.len() ==> (#[trigger] labels[k]@[s]).items@.len() == 0,
    ensures
        labels_sound(tt, os, depart, labels),
{
    assert forall|k: int, s: int, l: L|
        0 <= k < labels.len() && 0 <= s < labels[k]@.len() && #[trigger] labels[k]@[s].items@.contains(l) implies reaches(
        tt,
        os,
        depart,
        k as nat,
        s as nat,
        l.arrival_of(),
    ) by {
        assert(labels[k]@[s].items@.len() == 0);
    }
}

/// What the extraction returns from sound bags is sound.
pub(crate) proof fn lemma_extracted_sound<T: Timetable, L: Label>(
    tt: &T,
    cache: RaptorCache<L>,
    op: Seq<(StopIdx, Duration)>,
    tp: Seq<(StopIdx, Duration)>,
    depart: u32,
    transfers: usize,
    js: Seq<Journey<L>>,
)
    requires
        cache.ready(tt, transfers as nat),
        labels_sound(tt, op, depart, cache.labels@),
        forall|i: int| 0 <= i < tp.len() ==> (#[trigger] tp[i]).0.0 < tt.stop_count(),
        forall|i: int| 0 <= i < js.len() ==> extracted(cache.labels@, cache.board_detail@, bits_of(cache.origin_set), tp, transfers, #[trigger] js[i]),
    ensures
        all_sound(tt, op, depart, transfers as nat, js),
{
    assert forall|x: int| 0 <= x < js.len() implies journey_sound(tt, op, depart, transfers as nat, #[trigger] js[x]) by {
        let j = js[x];
        assert(extracted(cache.labels@, cache.board_detail@, bits_of(cache.origin_set), tp, transfers, j));
        let (k, raw) = choose|k: int, raw: L|
            1 <= k <= transfers && #[trigger] cache.labels@[k]@[j.target.0 as int].items@.contains(raw) && j.label.arrival_of()
                == sat_add(raw.arrival_of(), j.target_walk.0) && raw.arrival_of() != u32::MAX && journey_trace(
                cache.board_detail@,
                bits_of(cache.origin_set),
                j.target,
                raw.arrival_of(),
                k as usize,
            ) == Some((j.origin, j.plan@));
        let y = choose|y: int| 0 <= y < tp.len() && tp[y] == (j.target, j.target_walk);
        assert(tp[y].0.0 < tt.stop_count());
        assert(cache.labels@[k]@.len() == tt.stop_count());
        lemma_reaches_more(tt, op, depart, k as nat, transfers as nat, j.target.0 as nat, raw.arrival_of());
    }
}

/// Every step of every journey of `js` alights at a wheelchair-accessible
/// stop.
pub open spec fn plans_accessible<T: Timetable, L: Label>(tt: &T, js: Seq<Journey<L>>) -> bool {
    forall|i: int, p: int|
        0 <= i < js.len() && 0 <= p < js[i].plan@.len() ==> tt.stop_accessible((#[trigger] js[i].plan@[p]).1.0 as nat)
}

/// Journeys traced through a tree of accessible rides alight only at
/// accessible stops.
proof fn lemma_extracted_accessible<T: Timetable, L: Label>(
    tt: &T,
    cache: RaptorCache<L>,
    tp: Seq<(StopIdx, Duration)>,
    transfers: usize,
    js: Seq<Journey<L>>,
)
    requires
        rides_accessible(tt, cache.board_detail@),
        forall|i: int| 0 <= i < js.len() ==> extracted(cache.labels@, cache.board_detail@, bits_of(cache.origin_set), tp, transfers, #[trigger] js[i]),
    ensures
        plans_accessible(tt, js),
{
    assert forall|i: int, p: int| 0 <= i < js.len() && 0 <= p < js[i].plan@.len() implies tt.stop_accessible(
        (#[trigger] js[i].plan@[p]).1.0 as nat,
    ) by {
        assert(extracted(cache.labels@, cache.board_detail@, bits_of(cache.origin_set), tp, transfers, js[i]));
        assert(from_tree(cache.board_detail@, js[i].plan@[p]));
        let key = choose|key: (usize, u32, u32)|
            #[trigger] cache.board_detail@.contains_key(key) && key.1 == js[i].plan@[p].1.0 && (cache.board_detail@[key] matches Step::Boarded { route, .. } && route == js[i].plan@[p].0);
    }
}

/// A single-departure query: seeds every origin at `depart` plus its walk,
/// runs the rounds, traces every target label back to an origin, and
/// returns the Pareto front of those journeys on (trip count, label),
/// fewest trips first, then earliest arrival.
pub(crate) fn run_per_call_query<T: Timetable, L: Label, O: IntoEndpoints, D: IntoEndpoints>(
    tt: &T,
    ctx: &L::Ctx,
    cache: &mut RaptorCache<L>,
    transfers: usize,
    depart: SecondOfDay,
    origins: O,
    targets: D,
    require_wheelchair_accessible: bool,
) -> (r: Vec<Journey<L>>)
    requires
        tt.well_formed(),
        old(cache).n_stops == tt.stop_count(),
        old(cache).n_routes == tt.route_count(),
        old(cache).dims_ok(),
        (transfers + 1) * 100 <= usize::MAX,
        forall|i: int| 0 <= i < origins.pairs_of().len() ==> (#[trigger] origins.pairs_of()[i]).0.0 < tt.stop_count(),
        forall|i: int| 0 <= i < targets.pairs_of().len() ==> (#[trigger] targets.pairs_of()[i]).0.0 < tt.stop_count(),
    ensures
        final(cache).ready(tt, transfers as nat),
        exists|cands: Seq<Journey<L>>|
            #[trigger] is_swept_front(cands, r@) && all_fit(tt, origins.pairs_of(), targets.pairs_of(), transfers as nat, cands)
                && all_sound(tt, origins.pairs_of(), depart.0, transfers as nat, cands) && (require_wheelchair_accessible
                ==> plans_accessible(tt, cands)),
{
    proof {
        tt.lemma_shape();
    }
    let ghost op = origins.pairs_of();
    let ghost tp = targets.pairs_of();
    let oe = origins.into_endpoints();
    let te = targets.into_endpoints();
    let os = oe.as_slice();
    let ts = te.as_slice();
    let n_stops = tt.n_stops() as u32;
    let n_routes = tt.n_routes() as u32;
    cache.reset_for_query(transfers, n_stops, n_routes);
    let ghost rounds: nat = (transfers + 1) as nat;
    proof {
        assert(tree_valid(tt, cache.board_detail@));
        assert(rides_from_round_one(cache.board_detail@));
    }
    proof {
        lemma_sound_empty(tt, os@, depart.0, cache.labels@);
        assert(rides_accessible(tt, cache.board_detail@));
    }
    fill_origin_set(tt, cache, os, Ghost(transfers as nat));
    seed_departure(tt, ctx, cache, os, depart, Ghost(transfers as nat), Ghost(depart.0));
    run_raptor_rounds(tt, ctx, cache, transfers, require_wheelchair_accessible, ts, Ghost(os@), Ghost(depart.0));
    let journeys = extract_target_journeys(ctx, &cache.labels, &cache.board_detail, &cache.origin_set, ts, transfers);
    let ghost js = journeys@;
    proof {
        lemma_extracted_fit(tt, *cache, op, tp, transfers, js);
        lemma_extracted_sound(tt, *cache, op, tp, depart.0, transfers, js);
        if require_wheelchair_accessible {
            lemma_extracted_accessible(tt, *cache, tp, transfers, js);
        }
    }
    let out = pareto_sweep(journeys);
    proof {
        assert(is_swept_front(js, out@));
    }
    out
}

} // verus!
