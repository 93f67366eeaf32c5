//! Inserting a label into a `(round, stop)` cell with target pruning, and
//! the per-round footpath relaxation: a single pass when the footpath
//! relation is transitively closed, a multi-source label-setting pass
//! otherwise.

use vstd::prelude::*;

use crate::algorithm::boarding::{step_valid, Step};
use crate::algorithm::itinerary::{grew_by, labels_sound, lemma_reaches_leg, lemma_sound_grew, reaches, Leg};
use crate::algorithm::label_bag::{
    arrives_by, lemma_arrives_by_insert, bag_insert, bag_potential, lemma_insert_lowers_potential, lemma_total_potential_update, min_arrival_of,
    some_dominates, total_potential, LabelBag,
};
use crate::bitset::{bits_of, bitset_insert};
use crate::cache::RaptorCache;
use crate::ids::StopIdx;
use crate::label::Label;
use crate::time::{sat_add, Duration, SecondOfDay};
use crate::timetable::Timetable;

verus! {

broadcast use {vstd::std_specs::btree::group_btree_axioms, vstd::laws_cmp::group_laws_cmp};

/// Every target slot's best bag weakly dominates `label` (and there is at
/// least one target).
pub open spec fn all_targets_dominate_spec<L: Label>(best: Seq<LabelBag<L>>, targets: Seq<(StopIdx, Duration)>, label: L) -> bool {
    &&& targets.len() > 0
    &&& forall|i: int| 0 <= i < targets.len() ==> some_dominates(best[(#[trigger] targets[i]).0.0 as int].items@, label)
}

/// Whether every target slot's best bag weakly dominates `label`; false
/// when there are no targets. Such a label cannot lead to a journey any
/// slot would keep.
pub fn all_targets_dominate<L: Label>(best_arrival: &Vec<LabelBag<L>>, targets: &[(StopIdx, Duration)], label: &L) -> (r: bool)
    requires
        forall|i: int| 0 <= i < targets@.len() ==> (#[trigger] targets@[i]).0.0 < best_arrival@.len(),
    ensures
        r == all_targets_dominate_spec(best_arrival@, targets@, *label),
{
    if targets.len() == 0 {
        return false;
    }
    let mut i: usize = 0;
    while i < targets.len()
        invariant
            i <= targets@.len(),
            forall|j: int| 0 <= j < targets@.len() ==> (#[trigger] targets@[j]).0.0 < best_arrival@.len(),
            forall|j: int| 0 <= j < i ==> some_dominates(best_arrival@[(#[trigger] targets@[j]).0.0 as int].items@, *label),
        decreases targets@.len() - i,
    {
        let t = targets[i].0;
        if !best_arrival[t.0 as usize].dominates_label(label) {
            return false;
        }
        i = i + 1;
    }
    true
}

/// The label bags as a matrix of values.
pub open spec fn grid<L>(a: Seq<Vec<LabelBag<L>>>) -> Seq<Seq<LabelBag<L>>> {
    Seq::new(a.len(), |x: int| a[x]@)
}

/// `b` equals `a` except possibly at cell `(k, s)`.
pub open spec fn same_but<L>(a: Seq<Vec<LabelBag<L>>>, b: Seq<Vec<LabelBag<L>>>, k: int, s: int) -> bool {
    &&& a.len() == b.len()
    &&& forall|x: int| 0 <= x < a.len() && x != k ==> #[trigger] b[x]@ == a[x]@
    &&& b[k]@.len() == a[k]@.len()
    &&& forall|y: int| 0 <= y < a[k]@.len() && y != s ==> #[trigger] b[k]@[y] == a[k]@[y]
}

/// No arrival bound met in `a` is lost in `b`: whatever time some label of
/// a round-`k` bag, or of a stop's best bag, reaches by in `a`, some label
/// of the same bag reaches by in `b`.
pub open spec fn keeps_arrivals<L: Label>(a: RaptorCache<L>, b: RaptorCache<L>, k: int) -> bool {
    &&& b.labels@[k]@.len() == a.labels@[k]@.len()
    &&& b.best_arrival@.len() == a.best_arrival@.len()
    &&& forall|s: int, t: u32|
        #![trigger arrives_by(a.labels@[k]@[s].items@, t)]
        #![trigger arrives_by(b.labels@[k]@[s].items@, t)]
        0 <= s < a.labels@[k]@.len() && arrives_by(a.labels@[k]@[s].items@, t) ==> arrives_by(b.labels@[k]@[s].items@, t)
    &&& forall|s: int, t: u32|
        #![trigger arrives_by(a.best_arrival@[s].items@, t)]
        #![trigger arrives_by(b.best_arrival@[s].items@, t)]
        0 <= s < a.best_arrival@.len() && arrives_by(a.best_arrival@[s].items@, t) ==> arrives_by(
            b.best_arrival@[s].items@,
            t,
        )
}

/// No arrival bound met by a stop's best bag in `a` is lost in `b`.
pub open spec fn keeps_best<L: Label>(a: RaptorCache<L>, b: RaptorCache<L>) -> bool {
    &&& b.best_arrival@.len() == a.best_arrival@.len()
    &&& forall|s: int, t: u32|
        #![trigger arrives_by(a.best_arrival@[s].items@, t)]
        #![trigger arrives_by(b.best_arrival@[s].items@, t)]
        0 <= s < a.best_arrival@.len() && arrives_by(a.best_arrival@[s].items@, t) ==> arrives_by(
            b.best_arrival@[s].items@,
            t,
        )
}

/// Keeping best arrivals composes.
pub proof fn lemma_keeps_best_trans<L: Label>(a: RaptorCache<L>, b: RaptorCache<L>, c: RaptorCache<L>)
    requires
        keeps_best(a, b),
        keeps_best(b, c),
    ensures
        keeps_best(a, c),
{
    assert forall|s: int, t: u32|
        0 <= s < a.best_arrival@.len() && arrives_by(a.best_arrival@[s].items@, t) implies arrives_by(
            c.best_arrival@[s].items@,
            t,
        ) by {
        assert(arrives_by(b.best_arrival@[s].items@, t));
    }
}

/// A round whose bags did not change keeps its arrivals when the best
/// bags do.
pub proof fn lemma_keeps_arrivals_of_row<L: Label>(a: RaptorCache<L>, b: RaptorCache<L>, k: int)
    requires
        keeps_best(a, b),
        b.labels@[k]@ == a.labels@[k]@,
    ensures
        keeps_arrivals(a, b, k),
{
}

/// Stop `p` is reached by `t` in round `k`: some label of its bag arrives
/// by then, or every target slot's best bag does (so a label arriving at
/// `t` is pruned).
pub open spec fn reached_by<L: Label>(c: RaptorCache<L>, targets: Seq<(StopIdx, Duration)>, k: int, p: int, t: u32) -> bool {
    ||| arrives_by(c.labels@[k]@[p].items@, t)
    ||| (targets.len() > 0 && forall|i: int|
        0 <= i < targets.len() ==> arrives_by(c.best_arrival@[(#[trigger] targets[i]).0.0 as int].items@, t))
}

/// Reaching a stop by a time is never lost while arrivals are kept.
pub proof fn lemma_reached_by_kept<L: Label>(
    a: RaptorCache<L>,
    b: RaptorCache<L>,
    targets: Seq<(StopIdx, Duration)>,
    k: int,
    p: int,
    t: u32,
)
    requires
        keeps_arrivals(a, b, k),
        reached_by(a, targets, k, p, t),
        0 <= p < a.labels@[k]@.len(),
        forall|i: int| 0 <= i < targets.len() ==> 0 <= (#[trigger] targets[i]).0.0 < a.best_arrival@.len(),
    ensures
        reached_by(b, targets, k, p, t),
{
    if !arrives_by(a.labels@[k]@[p].items@, t) {
        assert forall|i: int| 0 <= i < targets.len() implies arrives_by(
            b.best_arrival@[(#[trigger] targets[i]).0.0 as int].items@,
            t,
        ) by {
            assert(arrives_by(a.best_arrival@[targets[i].0.0 as int].items@, t));
        }
    }
}

/// Keeping arrivals composes.
pub proof fn lemma_keeps_arrivals_trans<L: Label>(a: RaptorCache<L>, b: RaptorCache<L>, c: RaptorCache<L>, k: int)
    requires
        keeps_arrivals(a, b, k),
        keeps_arrivals(b, c, k),
    ensures
        keeps_arrivals(a, c, k),
{
    assert forall|s: int, t: u32|
        0 <= s < a.labels@[k]@.len() && arrives_by(a.labels@[k]@[s].items@, t) implies arrives_by(c.labels@[k]@[s].items@, t) by {
        assert(arrives_by(b.labels@[k]@[s].items@, t));
    }
    assert forall|s: int, t: u32|
        0 <= s < a.best_arrival@.len() && arrives_by(a.best_arrival@[s].items@, t) implies arrives_by(
            c.best_arrival@[s].items@,
            t,
        ) by {
        assert(arrives_by(b.best_arrival@[s].items@, t));
    }
}

/// Being reached by a time implies being reached by any later time.
pub proof fn lemma_reached_by_later<L: Label>(
    c: RaptorCache<L>,
    targets: Seq<(StopIdx, Duration)>,
    k: int,
    p: int,
    t1: u32,
    t2: u32,
)
    requires
        reached_by(c, targets, k, p, t1),
        t1 <= t2,
    ensures
        reached_by(c, targets, k, p, t2),
{
    if arrives_by(c.labels@[k]@[p].items@, t1) {
        let i = choose|i: int| 0 <= i < c.labels@[k]@[p].items@.len() && (#[trigger] c.labels@[k]@[p].items@[i]).arrival_of() <= t1;
        assert(c.labels@[k]@[p].items@[i].arrival_of() <= t2);
    } else {
        assert forall|i: int| 0 <= i < targets.len() implies arrives_by(
            c.best_arrival@[(#[trigger] targets[i]).0.0 as int].items@,
            t2,
        ) by {
            let b = c.best_arrival@[targets[i].0.0 as int].items@;
            assert(arrives_by(b, t1));
            let j = choose|j: int| 0 <= j < b.len() && (#[trigger] b[j]).arrival_of() <= t1;
            assert(b[j].arrival_of() <= t2);
        }
    }
}

/// Every walk out of `s` started at `t` reaches its far stop in round
/// `k`: the far stop is reached by `t` plus the walk (saturating).
pub open spec fn walks_relaxed<T: Timetable, L: Label>(
    tt: &T,
    c: RaptorCache<L>,
    targets: Seq<(StopIdx, Duration)>,
    k: int,
    s: nat,
    t: u32,
) -> bool {
    forall|f: int|
        0 <= f < tt.footpaths_at(s).len() ==> reached_by(
            c,
            targets,
            k,
            (#[trigger] tt.footpaths_at(s)[f]).0 as int,
            sat_add(t, tt.transfer_secs(s, tt.footpaths_at(s)[f].0 as nat)),
        )
}

/// Relaxed walks stay relaxed while arrivals are kept.
pub proof fn lemma_walks_relaxed_kept<T: Timetable, L: Label>(
    tt: &T,
    a: RaptorCache<L>,
    b: RaptorCache<L>,
    targets: Seq<(StopIdx, Duration)>,
    k: int,
    s: nat,
    t: u32,
)
    requires
        tt.well_formed(),
        s < tt.stop_count(),
        a.labels@[k]@.len() == tt.stop_count(),
        a.best_arrival@.len() == tt.stop_count(),
        forall|i: int| 0 <= i < targets.len() ==> (#[trigger] targets[i]).0.0 < tt.stop_count(),
        keeps_arrivals(a, b, k),
        walks_relaxed(tt, a, targets, k, s, t),
    ensures
        walks_relaxed(tt, b, targets, k, s, t),
{
    tt.lemma_shape();
    assert forall|f: int| 0 <= f < tt.footpaths_at(s).len() implies reached_by(
        b,
        targets,
        k,
        (#[trigger] tt.footpaths_at(s)[f]).0 as int,
        sat_add(t, tt.transfer_secs(s, tt.footpaths_at(s)[f].0 as nat)),
    ) by {
        lemma_reached_by_kept(
            a,
            b,
            targets,
            k,
            tt.footpaths_at(s)[f].0 as int,
            sat_add(t, tt.transfer_secs(s, tt.footpaths_at(s)[f].0 as nat)),
        );
    }
}

/// Every ride recorded in `b` was recorded, as it is, in `a`.
pub open spec fn no_new_rides(a: Map<(usize, u32, u32), Step>, b: Map<(usize, u32, u32), Step>) -> bool {
    forall|key: (usize, u32, u32)|
        #[trigger] b.contains_key(key) && b[key] is Boarded ==> a.contains_key(key) && a[key] == b[key]
}

/// Recording no new rides composes.
pub proof fn lemma_no_new_rides_trans(
    a: Map<(usize, u32, u32), Step>,
    b: Map<(usize, u32, u32), Step>,
    c: Map<(usize, u32, u32), Step>,
)
    requires
        no_new_rides(a, b),
        no_new_rides(b, c),
    ensures
        no_new_rides(a, c),
{
    assert forall|key: (usize, u32, u32)| #[trigger] c.contains_key(key) && c[key] is Boarded implies a.contains_key(key)
        && a[key] == c[key] by {
        assert(b.contains_key(key) && b[key] == c[key]);
    }
}

/// Tries `label` at `(k, stop)`: refused when every target slot's best bag
/// dominates it or the cell's bag does; otherwise it joins the cell's bag
/// and `stop`'s best bag, the tree records `step` for it, `stop` counts as
/// reached, and `stop` is reported in the walk buffer.
pub fn insert_into_bag<T: Timetable, L: Label>(
    tt: &T,
    cache: &mut RaptorCache<L>,
    targets: &[(StopIdx, Duration)],
    k: usize,
    stop: StopIdx,
    label: L,
    step: Step,
    Ghost(rounds): Ghost<nat>,
) -> (added: bool)
    requires
        old(cache).state_ok(tt, rounds),
        k < rounds,
        stop.0 < tt.stop_count(),
        forall|i: int| 0 <= i < targets@.len() ==> (#[trigger] targets@[i]).0.0 < tt.stop_count(),
        step_valid(tt, (k, stop.0, label.arrival_of()), step),
    ensures
        final(cache).state_ok(tt, rounds),
        added == (!all_targets_dominate_spec(old(cache).best_arrival@, targets@, label) && !some_dominates(
            old(cache).labels@[k as int]@[stop.0 as int].items@,
            label,
        )),
        same_but(old(cache).labels@, final(cache).labels@, k as int, stop.0 as int),
        added ==> final(cache).labels@[k as int]@[stop.0 as int].items@ == bag_insert(
            old(cache).labels@[k as int]@[stop.0 as int].items@,
            label,
        ),
        !added ==> grid(final(cache).labels@) == grid(old(cache).labels@),
        added ==> total_potential(final(cache).labels@[k as int]@) < total_potential(old(cache).labels@[k as int]@),
        added ==> final(cache).walked_buf@ == old(cache).walked_buf@.push(stop),
        !added ==> final(cache).walked_buf@ == old(cache).walked_buf@,
        final(cache).marked_stops == old(cache).marked_stops,
        final(cache).origin_set == old(cache).origin_set,
        final(cache).q_entry == old(cache).q_entry,
        final(cache).q_routes == old(cache).q_routes,
        final(cache).relax_heap == old(cache).relax_heap,
        keeps_arrivals(*old(cache), *final(cache), k as int),
        reached_by(*final(cache), targets@, k as int, stop.0 as int, label.arrival_of()),
        grew_by(old(cache).labels@, final(cache).labels@, k as int, stop.0 as int, label),
        step is Walked ==> no_new_rides(old(cache).board_detail@, final(cache).board_detail@),
{
    if all_targets_dominate(&cache.best_arrival, targets, &label) {
        proof {
            assert forall|i: int| 0 <= i < targets@.len() implies arrives_by(
                cache.best_arrival@[(#[trigger] targets@[i]).0.0 as int].items@,
                label.arrival_of(),
            ) by {
                let b = cache.best_arrival@[targets@[i].0.0 as int].items@;
                assert(some_dominates(b, label));
                let j = choose|j: int| 0 <= j < b.len() && (#[trigger] b[j]).dominates_spec(&label);
                L::lemma_dominates_arrival(b[j], label);
            }
        }
        return false;
    }
    let ghost old_labels = cache.labels@;
    let ghost old_row = cache.labels@[k as int]@;
    let added = cache.labels[k][stop.0 as usize].insert(label);
    if !added {
        proof {
            assert(cache.labels@[k as int]@ =~= old_row);
            assert(grid(cache.labels@) =~= grid(old_labels));
            let b = old_row[stop.0 as int].items@;
            let j = choose|j: int| 0 <= j < b.len() && (#[trigger] b[j]).dominates_spec(&label);
            L::lemma_dominates_arrival(b[j], label);
            assert(cache.labels@[k as int]@[stop.0 as int].items@[j] == b[j]);
        }
        return false;
    }
    proof {
        lemma_insert_lowers_potential(old_row[stop.0 as int].items@, label);
        lemma_total_potential_update(old_row, stop.0 as int, cache.labels@[k as int]@[stop.0 as int]);
        assert(old_row.update(stop.0 as int, cache.labels@[k as int]@[stop.0 as int]) =~= cache.labels@[k as int]@);
    }
    let a = label.arrival();
    cache.board_detail.insert((k, stop.0, a.0), step);
    let ghost best0 = cache.best_arrival@;
    let _ = cache.best_arrival[stop.0 as usize].insert(label);
    proof {
        let row0 = old_row[stop.0 as int].items@;
        let best_s = best0[stop.0 as int].items@;
        assert forall|x: int, t: u32|
            0 <= x < old_labels[k as int]@.len() && arrives_by(old_labels[k as int]@[x].items@, t) implies arrives_by(
                cache.labels@[k as int]@[x].items@,
                t,
            ) by {
            if x == stop.0 {
                lemma_arrives_by_insert(row0, label, t);
            }
        }
        assert forall|x: int, t: u32|
            0 <= x < best0.len() && arrives_by(best0[x].items@, t) implies arrives_by(cache.best_arrival@[x].items@, t) by {
            if x == stop.0 && cache.best_arrival@[x].items@ != best_s {
                lemma_arrives_by_insert(best_s, label, t);
            }
        }
    }
    bitset_insert(&mut cache.ever_reached, stop.0 as usize);
    cache.walked_buf.push(stop);
    proof {
        let b = cache.labels@[k as int]@[stop.0 as int].items@;
        assert(b[b.len() - 1] == label);
        let row0 = old_row[stop.0 as int].items@;
        let pred = |x: L| !label.dominates_spec(&x);
        assert forall|x: int, y: int, m: L|
            0 <= x < cache.labels@.len() && 0 <= y < cache.labels@[x]@.len() && #[trigger] cache.labels@[x]@[y].items@.contains(m)
                implies old_labels[x]@[y].items@.contains(m) || (x == k && y == stop.0 && m == label) by {
            if x == k && y == stop.0 && m != label {
                let bb = bag_insert(row0, label);
                let q = choose|q: int| 0 <= q < bb.len() && bb[q] == m;
                assert(q < bb.len() - 1);
                let f = row0.filter(pred);
                assert(bb[q] == f[q]);
                assert(f.contains(m));
                row0.lemma_filter_contains_rev(pred, m);
            } else if x == k && y != stop.0 {
                assert(cache.labels@[k as int]@[y] == old_row[y]);
            } else if x != k {
                assert(cache.labels@[x]@ == old_labels[x]@);
            }
        }
    }
    true
}


/// What a footpath pass keeps: the cache stays consistent, rows other than
/// `k` keep their bags, and the marked stops, origins and route queue are
/// untouched.
pub open spec fn pass_frame<T: Timetable, L: Label>(tt: &T, a: RaptorCache<L>, b: RaptorCache<L>, k: int, rounds: nat) -> bool {
    &&& b.state_ok(tt, rounds)
    &&& b.labels@.len() == a.labels@.len()
    &&& forall|x: int| 0 <= x < a.labels@.len() && x != k ==> #[trigger] b.labels@[x]@ == a.labels@[x]@
    &&& b.marked_stops == a.marked_stops
    &&& b.origin_set == a.origin_set
    &&& b.q_entry == a.q_entry
    &&& b.q_routes == a.q_routes
}

/// Walks once from every marked stop at round `k`: each label of the
/// stop's bag, extended along each direct footpath, is tried at the far
/// stop. Enough when the footpath relation is transitively closed.
pub fn relax_footpaths_round_closed<T: Timetable, L: Label>(
    tt: &T,
    ctx: &L::Ctx,
    cache: &mut RaptorCache<L>,
    k: usize,
    targets: &[(StopIdx, Duration)],
    Ghost(rounds): Ghost<nat>,
    Ghost(os): Ghost<Seq<(StopIdx, Duration)>>,
    Ghost(depart): Ghost<u32>,
)
    requires
        tt.well_formed(),
        old(cache).state_ok(tt, rounds),
        labels_sound(tt, os, depart, old(cache).labels@),
        k < rounds,
        forall|i: int| 0 <= i < targets@.len() ==> (#[trigger] targets@[i]).0.0 < tt.stop_count(),
    ensures
        pass_frame(tt, *old(cache), *final(cache), k as int, rounds),
        labels_sound(tt, os, depart, final(cache).labels@),
        no_new_rides(old(cache).board_detail@, final(cache).board_detail@),
        keeps_arrivals(*old(cache), *final(cache), k as int),
        forall|s: nat, t: u32|
            bits_of(old(cache).marked_stops).contains(s) && #[trigger] arrives_by(
                old(cache).labels@[k as int]@[s as int].items@,
                t,
            ) ==> walks_relaxed(tt, *final(cache), targets@, k as int, s, t),
{
    proof {
        tt.lemma_shape();
    }
    let sources = crate::bitset::set_bits(&cache.marked_stops);
    let ghost c0 = *cache;
    let mut si: usize = 0;
    while si < sources.len()
        invariant
            tt.well_formed(),
            k < rounds,
            si <= sources@.len(),
            forall|i: int| 0 <= i < sources@.len() ==> bits_of(c0.marked_stops).contains(#[trigger] sources@[i] as nat),
            forall|x: nat| #[trigger] bits_of(c0.marked_stops).contains(x) ==> exists|i: int|
                0 <= i < sources@.len() && sources@[i] == x,
            c0.state_ok(tt, rounds),
            forall|i: int| 0 <= i < targets@.len() ==> (#[trigger] targets@[i]).0.0 < tt.stop_count(),
            pass_frame(tt, c0, *cache, k as int, rounds),
            labels_sound(tt, os, depart, cache.labels@),
            no_new_rides(c0.board_detail@, cache.board_detail@),
            keeps_arrivals(c0, *cache, k as int),
            forall|a: int, t: u32|
                0 <= a < si && #[trigger] arrives_by(c0.labels@[k as int]@[sources@[a] as int].items@, t) ==> walks_relaxed(
                    tt,
                    *cache,
                    targets@,
                    k as int,
                    sources@[a] as nat,
                    t,
                ),
        decreases sources@.len() - si,
    {
        proof {
            tt.lemma_shape();
        }
        let bit = sources[si];
        assert(bits_of(c0.marked_stops).contains(bit as nat));
        let stop = StopIdx(bit as u32);
        let ghost c_stop = *cache;
        if !cache.labels[k][bit].is_empty() {
            let staged = crate::manual::copy_vec(&cache.labels[k][bit].items);
            proof {
                assert forall|i: int| 0 <= i < staged@.len() implies reaches(tt, os, depart, k as nat, stop.0 as nat, (#[trigger] staged@[i]).arrival_of()) by {
                    assert(cache.labels@[k as int]@[stop.0 as int].items@.contains(staged@[i]));
                }
            }
            let nbrs = tt.get_footpaths_from(stop);
            let mut f: usize = 0;
            while f < nbrs.len()
                invariant
                    tt.well_formed(),
                    k < rounds,
                    stop.0 < tt.stop_count(),
                    stop.0 == bit,
                    nbrs@ == tt.footpaths_at(stop.0 as nat),
                    forall|i: int| 0 <= i < staged@.len() ==> reaches(tt, os, depart, k as nat, stop.0 as nat, (#[trigger] staged@[i]).arrival_of()),
                    f <= nbrs@.len(),
                    forall|i: int| 0 <= i < targets@.len() ==> (#[trigger] targets@[i]).0.0 < tt.stop_count(),
                    pass_frame(tt, c0, *cache, k as int, rounds),
                    labels_sound(tt, os, depart, cache.labels@),
                    no_new_rides(c0.board_detail@, cache.board_detail@),
                    c_stop.state_ok(tt, rounds),
                    keeps_arrivals(c_stop, *cache, k as int),
                    staged@ == c_stop.labels@[k as int]@[bit as int].items@,
                    forall|ff: int, i: int|
                        0 <= ff < f && 0 <= i < staged@.len() ==> reached_by(
                            *cache,
                            targets@,
                            k as int,
                            (#[trigger] tt.footpaths_at(stop.0 as nat)[ff]).0 as int,
                            sat_add((#[trigger] staged@[i]).arrival_of(), tt.transfer_secs(stop.0 as nat, tt.footpaths_at(stop.0 as nat)[ff].0 as nat)),
                        ),
                decreases nbrs@.len() - f,
            {
                proof {
                    tt.lemma_shape();
                }
                let p_dash = nbrs[f];
                assert(p_dash == tt.footpaths_at(stop.0 as nat)[f as int]);
                let walk = tt.get_transfer_time(stop, p_dash);
                let ghost c_f = *cache;
                let mut li: usize = 0;
                while li < staged.len()
                    invariant
                        tt.well_formed(),
                        k < rounds,
                        stop.0 < tt.stop_count(),
                        p_dash.0 < tt.stop_count(),
                        li <= staged@.len(),
                        walk.0 == tt.transfer_secs(stop.0 as nat, p_dash.0 as nat),
                        tt.footpaths_at(stop.0 as nat).contains(p_dash),
                        forall|i: int| 0 <= i < staged@.len() ==> reaches(tt, os, depart, k as nat, stop.0 as nat, (#[trigger] staged@[i]).arrival_of()),
                        forall|i: int| 0 <= i < targets@.len() ==> (#[trigger] targets@[i]).0.0 < tt.stop_count(),
                        pass_frame(tt, c0, *cache, k as int, rounds),
                        labels_sound(tt, os, depart, cache.labels@),
                        no_new_rides(c0.board_detail@, cache.board_detail@),
                        c_f.state_ok(tt, rounds),
                        keeps_arrivals(c_f, *cache, k as int),
                        forall|i: int|
                            0 <= i < li ==> reached_by(
                                *cache,
                                targets@,
                                k as int,
                                p_dash.0 as int,
                                sat_add((#[trigger] staged@[i]).arrival_of(), walk.0),
                            ),
                    decreases staged@.len() - li,
                {
                    let source_label = staged[li];
                    let via_walk = source_label.extend_by_footpath(ctx, stop, p_dash, walk);
                    let step = Step::Walked { from: stop, parent_arrival: source_label.arrival() };
                    let ghost before = *cache;
                    let _ = insert_into_bag(tt, cache, targets, k, p_dash, via_walk, step, Ghost(rounds));
                    proof {
                        assert(reaches(tt, os, depart, k as nat, stop.0 as nat, staged@[li as int].arrival_of()));
                        assert(tt.footpaths_at(stop.0 as nat).contains(StopIdx(p_dash.0)));
                        lemma_reaches_leg(tt, os, depart, k as nat, stop.0 as nat, source_label.arrival_of(), Leg::Walk { to: p_dash.0 }, p_dash.0 as nat, via_walk.arrival_of());
                        lemma_sound_grew(tt, os, depart, before.labels@, cache.labels@, k as int, p_dash.0 as int, via_walk);
                        lemma_no_new_rides_trans(c0.board_detail@, before.board_detail@, cache.board_detail@);
                    }
                    proof {
                        assert forall|x: int| 0 <= x < c0.labels@.len() && x != k implies #[trigger] cache.labels@[x]@ == c0.labels@[x]@ by {
                            assert(cache.labels@[x]@ == before.labels@[x]@);
                        }
                        lemma_keeps_arrivals_trans(c_f, before, *cache, k as int);
                        assert forall|i: int|
                            0 <= i < li + 1 implies reached_by(
                                *cache,
                                targets@,
                                k as int,
                                p_dash.0 as int,
                                sat_add((#[trigger] staged@[i]).arrival_of(), walk.0),
                            ) by {
                            if i < li {
                                lemma_reached_by_kept(
                                    before,
                                    *cache,
                                    targets@,
                                    k as int,
                                    p_dash.0 as int,
                                    sat_add(staged@[i].arrival_of(), walk.0),
                                );
                            }
                        }
                    }
                    li = li + 1;
                }
                proof {
                    lemma_keeps_arrivals_trans(c_stop, c_f, *cache, k as int);
                    assert forall|ff: int, i: int|
                        0 <= ff < f + 1 && 0 <= i < staged@.len() implies reached_by(
                            *cache,
                            targets@,
                            k as int,
                            (#[trigger] tt.footpaths_at(stop.0 as nat)[ff]).0 as int,
                            sat_add((#[trigger] staged@[i]).arrival_of(), tt.transfer_secs(stop.0 as nat, tt.footpaths_at(stop.0 as nat)[ff].0 as nat)),
                        ) by {
                        if ff < f {
                            lemma_reached_by_kept(
                                c_f,
                                *cache,
                                targets@,
                                k as int,
                                tt.footpaths_at(stop.0 as nat)[ff].0 as int,
                                sat_add(staged@[i].arrival_of(), tt.transfer_secs(stop.0 as nat, tt.footpaths_at(stop.0 as nat)[ff].0 as nat)),
                            );
                        }
                    }
                }
                f = f + 1;
            }
            proof {
                assert forall|t: u32| #[trigger] arrives_by(c_stop.labels@[k as int]@[bit as int].items@, t) implies walks_relaxed(
                    tt,
                    *cache,
                    targets@,
                    k as int,
                    bit as nat,
                    t,
                ) by {
                    let i = choose|i: int| 0 <= i < staged@.len() && (#[trigger] staged@[i]).arrival_of() <= t;
                    assert forall|ff: int| 0 <= ff < tt.footpaths_at(bit as nat).len() implies reached_by(
                        *cache,
                        targets@,
                        k as int,
                        (#[trigger] tt.footpaths_at(bit as nat)[ff]).0 as int,
                        sat_add(t, tt.transfer_secs(bit as nat, tt.footpaths_at(bit as nat)[ff].0 as nat)),
                    ) by {
                        let w = tt.transfer_secs(bit as nat, tt.footpaths_at(bit as nat)[ff].0 as nat);
                        assert(reached_by(*cache, targets@, k as int, tt.footpaths_at(bit as nat)[ff].0 as int, sat_add(staged@[i].arrival_of(), w)));
                        lemma_reached_by_later(
                            *cache,
                            targets@,
                            k as int,
                            tt.footpaths_at(bit as nat)[ff].0 as int,
                            sat_add(staged@[i].arrival_of(), w),
                            sat_add(t, w),
                        );
                    }
                }
            }
        }
        proof {
            lemma_keeps_arrivals_trans(c0, c_stop, *cache, k as int);
            assert forall|a: int, t: u32|
                0 <= a < si + 1 && #[trigger] arrives_by(c0.labels@[k as int]@[sources@[a] as int].items@, t) implies walks_relaxed(
                    tt,
                    *cache,
                    targets@,
                    k as int,
                    sources@[a] as nat,
                    t,
                ) by {
                assert(bits_of(c0.marked_stops).contains(sources@[a] as nat));
                if a < si {
                    lemma_walks_relaxed_kept(tt, c_stop, *cache, targets@, k as int, sources@[a] as nat, t);
                } else {
                    assert(arrives_by(c_stop.labels@[k as int]@[bit as int].items@, t));
                }
            }
        }
        si = si + 1;
    }
    proof {
        assert forall|s: nat, t: u32|
            bits_of(c0.marked_stops).contains(s) && #[trigger] arrives_by(c0.labels@[k as int]@[s as int].items@, t) implies walks_relaxed(
                tt,
                *cache,
                targets@,
                k as int,
                s,
                t,
            ) by {
            let a = choose|a: int| 0 <= a < sources@.len() && sources@[a] == s;
            assert(sources@[a] as nat == s);
            assert(arrives_by(c0.labels@[k as int]@[sources@[a] as int].items@, t));
        }
    }
}

/// The queue entry with the least `(arrival, stop)`.
fn pop_min(heap: &mut Vec<(u32, u32)>) -> (e: (u32, u32))
    requires
        old(heap)@.len() > 0,
    ensures
        final(heap)@.len() == old(heap)@.len() - 1,
        old(heap)@.contains(e),
        forall|x: (u32, u32)| #[trigger] final(heap)@.contains(x) ==> old(heap)@.contains(x),
        forall|i: int| 0 <= i < old(heap)@.len() ==> e.0 < old(heap)@[i].0 || (e.0 == old(heap)@[i].0 && e.1 <= old(heap)@[i].1),
        exists|m: int| 0 <= m < old(heap)@.len() && old(heap)@[m] == e && final(heap)@ == old(heap)@.remove(m),
{
    let mut m: usize = 0;
    let mut i: usize = 1;
    while i < heap.len()
        invariant
            1 <= i <= heap@.len(),
            m < i,
            heap@ == old(heap)@,
            forall|j: int| 0 <= j < i ==> heap@[m as int].0 < heap@[j].0 || (heap@[m as int].0 == heap@[j].0 && heap@[m as int].1 <= heap@[j].1),
        decreases heap@.len() - i,
    {
        if heap[i].0 < heap[m].0 || (heap[i].0 == heap[m].0 && heap[i].1 < heap[m].1) {
            m = i;
        }
        i = i + 1;
    }
    let ghost h0 = heap@;
    let e = heap.remove(m);
    proof {
        assert(h0[m as int] == e);
        assert(heap@ == h0.remove(m as int));
        assert forall|x: (u32, u32)| #[trigger] heap@.contains(x) implies h0.contains(x) by {
            let q = choose|q: int| 0 <= q < heap@.len() && heap@[q] == x;
            if q < m {
                assert(h0[q] == x);
            } else {
                assert(h0[q + 1] == x);
            }
        }
    }
    e
}

/// The least arrival of a bag is no later than any of its labels.
proof fn lemma_min_arrival_le<L: Label>(s: Seq<L>, i: int)
    requires
        0 <= i < s.len(),
    ensures
        min_arrival_of(s) <= s[i].arrival_of(),
    decreases s.len(),
{
    if i < s.len() - 1 {
        lemma_min_arrival_le(s.drop_last(), i);
        assert(s.drop_last()[i] == s[i]);
    }
}

/// Every label of `s`'s round-`k` bag that arrives before `u32::MAX` has
/// all its walks relaxed.
pub open spec fn relaxed_at<T: Timetable, L: Label>(
    tt: &T,
    c: RaptorCache<L>,
    targets: Seq<(StopIdx, Duration)>,
    k: int,
    s: nat,
) -> bool {
    forall|t: u32|
        t < u32::MAX && #[trigger] arrives_by(c.labels@[k]@[s as int].items@, t) ==> walks_relaxed(tt, c, targets, k, s, t)
}

/// The queue holds an entry for `s` no later than its bag's least arrival,
/// so `s` is expanded again before the pass ends.
spec fn queued<L: Label>(c: RaptorCache<L>, k: int, s: nat) -> bool {
    exists|i: int|
        0 <= i < c.relax_heap@.len() && (#[trigger] c.relax_heap@[i]).1 == s && c.relax_heap@[i].0 <= min_arrival_of(
            c.labels@[k]@[s as int].items@,
        )
}

/// `s` was marked before the pass or its bag has changed since.
spec fn in_scope<L: Label>(c0: RaptorCache<L>, c: RaptorCache<L>, k: int, s: nat) -> bool {
    bits_of(c0.marked_stops).contains(s) || c.labels@[k]@[s as int] != c0.labels@[k]@[s as int]
}

/// Every stop in scope other than `skip1` and `skip2` is relaxed or queued.
spec fn settled_except<T: Timetable, L: Label>(
    tt: &T,
    c0: RaptorCache<L>,
    c: RaptorCache<L>,
    targets: Seq<(StopIdx, Duration)>,
    k: int,
    skip1: int,
    skip2: int,
) -> bool {
    forall|s: nat|
        s < tt.stop_count() && s != skip1 && s != skip2 && #[trigger] in_scope(c0, c, k, s) ==> relaxed_at(tt, c, targets, k, s)
            || queued(c, k, s)
}

/// A stop whose bag did not change stays relaxed while arrivals are kept.
proof fn lemma_relaxed_at_kept<T: Timetable, L: Label>(
    tt: &T,
    a: RaptorCache<L>,
    b: RaptorCache<L>,
    targets: Seq<(StopIdx, Duration)>,
    k: int,
    s: nat,
)
    requires
        tt.well_formed(),
        s < tt.stop_count(),
        a.labels@[k]@.len() == tt.stop_count(),
        a.best_arrival@.len() == tt.stop_count(),
        forall|i: int| 0 <= i < targets.len() ==> (#[trigger] targets[i]).0.0 < tt.stop_count(),
        keeps_arrivals(a, b, k),
        b.labels@[k]@[s as int] == a.labels@[k]@[s as int],
        relaxed_at(tt, a, targets, k, s),
    ensures
        relaxed_at(tt, b, targets, k, s),
{
    assert forall|t: u32| t < u32::MAX && #[trigger] arrives_by(b.labels@[k]@[s as int].items@, t) implies walks_relaxed(
        tt,
        b,
        targets,
        k,
        s,
        t,
    ) by {
        assert(arrives_by(a.labels@[k]@[s as int].items@, t));
        lemma_walks_relaxed_kept(tt, a, b, targets, k, s, t);
    }
}

/// Relaxes footpaths from every marked stop at round `k` to a fixed point,
/// in order of each stop's least arrival: a stop whose bag gains a label
/// along a walk is queued again, so walks chain within the round. Stale
/// queue entries (the stop's least arrival improved since) are skipped.
pub fn relax_footpaths_round<T: Timetable, L: Label>(
    tt: &T,
    ctx: &L::Ctx,
    cache: &mut RaptorCache<L>,
    k: usize,
    targets: &[(StopIdx, Duration)],
    Ghost(rounds): Ghost<nat>,
    Ghost(os): Ghost<Seq<(StopIdx, Duration)>>,
    Ghost(depart): Ghost<u32>,
)
    requires
        tt.well_formed(),
        old(cache).state_ok(tt, rounds),
        labels_sound(tt, os, depart, old(cache).labels@),
        k < rounds,
        forall|i: int| 0 <= i < targets@.len() ==> (#[trigger] targets@[i]).0.0 < tt.stop_count(),
    ensures
        pass_frame(tt, *old(cache), *final(cache), k as int, rounds),
        labels_sound(tt, os, depart, final(cache).labels@),
        no_new_rides(old(cache).board_detail@, final(cache).board_detail@),
        keeps_arrivals(*old(cache), *final(cache), k as int),
        forall|s: nat|
            s < tt.stop_count() && (bits_of(old(cache).marked_stops).contains(s) || #[trigger] final(cache).labels@[k as int]@[s as int]
                != old(cache).labels@[k as int]@[s as int]) ==> relaxed_at(tt, *final(cache), targets@, k as int, s),
{
    proof {
        tt.lemma_shape();
    }
    let ghost c0 = *cache;
    cache.relax_heap.clear();
    let sources = crate::bitset::set_bits(&cache.marked_stops);
    let mut si: usize = 0;
    while si < sources.len()
        invariant
            tt.well_formed(),
            k < rounds,
            si <= sources@.len(),
            forall|i: int| 0 <= i < sources@.len() ==> bits_of(c0.marked_stops).contains(#[trigger] sources@[i] as nat),
            c0.state_ok(tt, rounds),
            pass_frame(tt, c0, *cache, k as int, rounds),
            labels_sound(tt, os, depart, cache.labels@),
            no_new_rides(c0.board_detail@, cache.board_detail@),
            cache.labels == c0.labels,
            cache.best_arrival == c0.best_arrival,
            forall|a: int|
                0 <= a < si ==> relaxed_at(tt, *cache, targets@, k as int, #[trigger] sources@[a] as nat) || queued(
                    *cache,
                    k as int,
                    sources@[a] as nat,
                ),
        decreases sources@.len() - si,
    {
        let bit = sources[si];
        assert(bits_of(c0.marked_stops).contains(bit as nat));
        assert(bit < tt.stop_count());
        let min_arr = cache.labels[k][bit].min_arrival();
        let ghost h0 = cache.relax_heap@;
        if min_arr.0 != u32::MAX {
            cache.relax_heap.push((min_arr.0, bit as u32));
            proof {
                assert forall|i: int| 0 <= i < cache.relax_heap@.len() implies (#[trigger] cache.relax_heap@[i]).1 < tt.stop_count() by {
                    if i < h0.len() {
                        assert(cache.relax_heap@[i] == h0[i]);
                    }
                }
                assert(cache.relax_heap@[h0.len() as int] == (min_arr.0, bit as u32));
            }
        } else {
            proof {
                let bag = cache.labels@[k as int]@[bit as int].items@;
                assert forall|t: u32| t < u32::MAX && #[trigger] arrives_by(bag, t) implies walks_relaxed(
                    tt,
                    *cache,
                    targets@,
                    k as int,
                    bit as nat,
                    t,
                ) by {
                    let w = choose|w: int| 0 <= w < bag.len() && (#[trigger] bag[w]).arrival_of() <= t;
                    lemma_min_arrival_le(bag, w);
                }
            }
        }
        proof {
            assert forall|a: int|
                0 <= a < si + 1 implies relaxed_at(tt, *cache, targets@, k as int, #[trigger] sources@[a] as nat) || queued(
                    *cache,
                    k as int,
                    sources@[a] as nat,
                ) by {
                if a < si && !relaxed_at(tt, *cache, targets@, k as int, sources@[a] as nat) {
                    let w = choose|w: int|
                        0 <= w < h0.len() && (#[trigger] h0[w]).1 == sources@[a] as nat && h0[w].0 <= min_arrival_of(
                            cache.labels@[k as int]@[sources@[a] as int].items@,
                        );
                    assert(cache.relax_heap@[w] == h0[w]);
                }
            }
        }
        si = si + 1;
    }
    proof {
        assert forall|s: nat|
            s < tt.stop_count() && s != -1int && s != -1int && #[trigger] in_scope(c0, *cache, k as int, s) implies relaxed_at(
                tt,
                *cache,
                targets@,
                k as int,
                s,
            ) || queued(*cache, k as int, s) by {
            assert(bits_of(c0.marked_stops).contains(s));
            let a = choose|a: int| 0 <= a < sources@.len() && sources@[a] == s;
            assert(sources@[a] as nat == s);
        }
    }
    while cache.relax_heap.len() > 0
        invariant
            tt.well_formed(),
            k < rounds,
            c0.state_ok(tt, rounds),
            forall|i: int| 0 <= i < targets@.len() ==> (#[trigger] targets@[i]).0.0 < tt.stop_count(),
            pass_frame(tt, c0, *cache, k as int, rounds),
            labels_sound(tt, os, depart, cache.labels@),
            no_new_rides(c0.board_detail@, cache.board_detail@),
            keeps_arrivals(c0, *cache, k as int),
            settled_except(tt, c0, *cache, targets@, k as int, -1, -1),
        decreases cache.relax_heap@.len() + total_potential(cache.labels@[k as int]@),
    {
        proof {
            tt.lemma_shape();
        }
        let ghost mu = cache.relax_heap@.len() + total_potential(cache.labels@[k as int]@);
        let ghost h0 = cache.relax_heap@;
        let ghost c_pop = *cache;
        let (arrival, stop_bit) = pop_min(&mut cache.relax_heap);
        let ghost m = choose|m: int| 0 <= m < h0.len() && h0[m] == (arrival, stop_bit) && cache.relax_heap@ == h0.remove(m);
        proof {
            assert forall|i: int| 0 <= i < cache.relax_heap@.len() implies (#[trigger] cache.relax_heap@[i]).1 < tt.stop_count() by {
                assert(cache.relax_heap@.contains(cache.relax_heap@[i]));
                let q = choose|q: int| 0 <= q < h0.len() && h0[q] == cache.relax_heap@[i];
                assert(h0[q].1 < tt.stop_count());
            }
            let q = choose|q: int| 0 <= q < h0.len() && h0[q] == (arrival, stop_bit);
            assert(h0[q].1 < tt.stop_count());
            // Entries other than the popped one stay queued.
            assert forall|s: nat|
                s < tt.stop_count() && s != stop_bit && #[trigger] in_scope(c0, *cache, k as int, s) implies relaxed_at(
                    tt,
                    *cache,
                    targets@,
                    k as int,
                    s,
                ) || queued(*cache, k as int, s) by {
                assert(in_scope(c0, c_pop, k as int, s));
                if !relaxed_at(tt, c_pop, targets@, k as int, s) {
                    let w = choose|w: int|
                        0 <= w < h0.len() && (#[trigger] h0[w]).1 == s && h0[w].0 <= min_arrival_of(
                            c_pop.labels@[k as int]@[s as int].items@,
                        );
                    assert(w != m);
                    if w < m {
                        assert(cache.relax_heap@[w] == h0[w]);
                    } else {
                        assert(cache.relax_heap@[w - 1] == h0[w]);
                    }
                }
            }
        }
        let stop = StopIdx(stop_bit);
        let stop_min = cache.labels[k][stop_bit as usize].min_arrival();
        if arrival <= stop_min.0 {
            let ghost c_stop = *cache;
            let staged = crate::manual::copy_vec(&cache.labels[k][stop_bit as usize].items);
            proof {
                assert forall|i: int| 0 <= i < staged@.len() implies reaches(tt, os, depart, k as nat, stop.0 as nat, (#[trigger] staged@[i]).arrival_of()) by {
                    assert(cache.labels@[k as int]@[stop.0 as int].items@.contains(staged@[i]));
                }
            }
            let nbrs = tt.get_footpaths_from(stop);
            let mut f: usize = 0;
            while f < nbrs.len()
                invariant
                    tt.well_formed(),
                    k < rounds,
                    stop.0 < tt.stop_count(),
                    nbrs@ == tt.footpaths_at(stop.0 as nat),
                    forall|i: int| 0 <= i < staged@.len() ==> reaches(tt, os, depart, k as nat, stop.0 as nat, (#[trigger] staged@[i]).arrival_of()),
                    f <= nbrs@.len(),
                    c0.state_ok(tt, rounds),
                    forall|i: int| 0 <= i < targets@.len() ==> (#[trigger] targets@[i]).0.0 < tt.stop_count(),
                    pass_frame(tt, c0, *cache, k as int, rounds),
                    labels_sound(tt, os, depart, cache.labels@),
                    no_new_rides(c0.board_detail@, cache.board_detail@),
                    keeps_arrivals(c0, *cache, k as int),
                    cache.relax_heap@.len() + total_potential(cache.labels@[k as int]@) < mu,
                    settled_except(tt, c0, *cache, targets@, k as int, stop.0 as int, -1),
                    cache.labels@[k as int]@[stop.0 as int].items@ == staged@ || queued(*cache, k as int, stop.0 as nat),
                    forall|ff: int, i: int|
                        0 <= ff < f && 0 <= i < staged@.len() ==> reached_by(
                            *cache,
                            targets@,
                            k as int,
                            (#[trigger] tt.footpaths_at(stop.0 as nat)[ff]).0 as int,
                            sat_add(
                                (#[trigger] staged@[i]).arrival_of(),
                                tt.transfer_secs(stop.0 as nat, tt.footpaths_at(stop.0 as nat)[ff].0 as nat),
                            ),
                        ),
                decreases nbrs@.len() - f,
            {
                proof {
                    tt.lemma_shape();
                }
                let p_dash = nbrs[f];
                assert(p_dash == tt.footpaths_at(stop.0 as nat)[f as int]);
                let walk = tt.get_transfer_time(stop, p_dash);
                let mut any_added = false;
                let ghost p0 = total_potential(cache.labels@[k as int]@);
                let ghost c_f = *cache;
                let mut li: usize = 0;
                while li < staged.len()
                    invariant
                        tt.well_formed(),
                        k < rounds,
                        stop.0 < tt.stop_count(),
                        p_dash.0 < tt.stop_count(),
                        li <= staged@.len(),
                        walk.0 == tt.transfer_secs(stop.0 as nat, p_dash.0 as nat),
                        tt.footpaths_at(stop.0 as nat).contains(p_dash),
                        forall|i: int| 0 <= i < staged@.len() ==> reaches(tt, os, depart, k as nat, stop.0 as nat, (#[trigger] staged@[i]).arrival_of()),
                        c0.state_ok(tt, rounds),
                        c_f.state_ok(tt, rounds),
                        forall|i: int| 0 <= i < targets@.len() ==> (#[trigger] targets@[i]).0.0 < tt.stop_count(),
                        pass_frame(tt, c0, *cache, k as int, rounds),
                        labels_sound(tt, os, depart, cache.labels@),
                        no_new_rides(c0.board_detail@, cache.board_detail@),
                        keeps_arrivals(c_f, *cache, k as int),
                        cache.relax_heap == c_f.relax_heap,
                        cache.labels@[k as int]@.len() == c_f.labels@[k as int]@.len(),
                        forall|y: int|
                            0 <= y < c_f.labels@[k as int]@.len() && y != p_dash.0 ==> #[trigger] cache.labels@[k as int]@[y]
                                == c_f.labels@[k as int]@[y],
                        !any_added ==> cache.labels@[k as int]@[p_dash.0 as int] == c_f.labels@[k as int]@[p_dash.0 as int],
                        cache.relax_heap@.len() + p0 < mu,
                        any_added ==> total_potential(cache.labels@[k as int]@) < p0,
                        !any_added ==> total_potential(cache.labels@[k as int]@) == p0,
                        forall|i: int|
                            0 <= i < li ==> reached_by(
                                *cache,
                                targets@,
                                k as int,
                                p_dash.0 as int,
                                sat_add((#[trigger] staged@[i]).arrival_of(), walk.0),
                            ),
                    decreases staged@.len() - li,
                {
                    let source_label = staged[li];
                    let via_walk = source_label.extend_by_footpath(ctx, stop, p_dash, walk);
                    let step = Step::Walked { from: stop, parent_arrival: source_label.arrival() };
                    let ghost before = *cache;
                    let added = insert_into_bag(tt, cache, targets, k, p_dash, via_walk, step, Ghost(rounds));
                    proof {
                        assert(reaches(tt, os, depart, k as nat, stop.0 as nat, staged@[li as int].arrival_of()));
                        assert(tt.footpaths_at(stop.0 as nat).contains(StopIdx(p_dash.0)));
                        lemma_reaches_leg(tt, os, depart, k as nat, stop.0 as nat, source_label.arrival_of(), Leg::Walk { to: p_dash.0 }, p_dash.0 as nat, via_walk.arrival_of());
                        lemma_sound_grew(tt, os, depart, before.labels@, cache.labels@, k as int, p_dash.0 as int, via_walk);
                        lemma_no_new_rides_trans(c0.board_detail@, before.board_detail@, cache.board_detail@);
                    }
                    proof {
                        assert forall|x: int| 0 <= x < c0.labels@.len() && x != k implies #[trigger] cache.labels@[x]@ == c0.labels@[x]@ by {
                            assert(cache.labels@[x]@ == before.labels@[x]@);
                        }
                        if !added {
                            assert(grid(cache.labels@)[k as int] == grid(before.labels@)[k as int]);
                        }
                        lemma_keeps_arrivals_trans(c_f, before, *cache, k as int);
                        assert forall|i: int|
                            0 <= i < li + 1 implies reached_by(
                                *cache,
                                targets@,
                                k as int,
                                p_dash.0 as int,
                                sat_add((#[trigger] staged@[i]).arrival_of(), walk.0),
                            ) by {
                            if i < li {
                                lemma_reached_by_kept(
                                    before,
                                    *cache,
                                    targets@,
                                    k as int,
                                    p_dash.0 as int,
                                    sat_add(staged@[i].arrival_of(), walk.0),
                                );
                            }
                        }
                        assert forall|y: int|
                            0 <= y < c_f.labels@[k as int]@.len() && y != p_dash.0 implies #[trigger] cache.labels@[k as int]@[y]
                                == c_f.labels@[k as int]@[y] by {
                            assert(cache.labels@[k as int]@[y] == before.labels@[k as int]@[y]);
                        }
                    }
                    if added {
                        any_added = true;
                    }
                    li = li + 1;
                }
                let ghost c_li = *cache;
                if any_added {
                    let mn = cache.labels[k][p_dash.0 as usize].min_arrival();
                    let ghost h1 = cache.relax_heap@;
                    cache.relax_heap.push((mn.0, p_dash.0));
                    proof {
                        assert forall|i: int| 0 <= i < cache.relax_heap@.len() implies (#[trigger] cache.relax_heap@[i]).1 < tt.stop_count() by {
                            if i < h1.len() {
                                assert(cache.relax_heap@[i] == h1[i]);
                            }
                        }
                        assert(cache.relax_heap@[h1.len() as int] == (mn.0, p_dash.0));
                        assert(queued(*cache, k as int, p_dash.0 as nat));
                    }
                }
                proof {
                    lemma_keeps_arrivals_trans(c0, c_f, *cache, k as int);
                    // Queue entries of c_li survive the push.
                    assert forall|s: nat| s < tt.stop_count() && #[trigger] queued(c_li, k as int, s) implies queued(*cache, k as int, s) by {
                        let w = choose|w: int|
                            0 <= w < c_li.relax_heap@.len() && (#[trigger] c_li.relax_heap@[w]).1 == s && c_li.relax_heap@[w].0
                                <= min_arrival_of(c_li.labels@[k as int]@[s as int].items@);
                        assert(cache.relax_heap@[w] == c_li.relax_heap@[w]);
                    }
                    // Stops whose bag the walks left alone keep their status.
                    assert forall|s: nat|
                        s < tt.stop_count() && s != stop.0 && #[trigger] in_scope(c0, *cache, k as int, s) implies relaxed_at(
                            tt,
                            *cache,
                            targets@,
                            k as int,
                            s,
                        ) || queued(*cache, k as int, s) by {
                        if s == p_dash.0 && any_added {
                        } else {
                            assert(cache.labels@[k as int]@[s as int] == c_f.labels@[k as int]@[s as int]);
                            assert(in_scope(c0, c_f, k as int, s));
                            if relaxed_at(tt, c_f, targets@, k as int, s) {
                                lemma_relaxed_at_kept(tt, c_f, *cache, targets@, k as int, s);
                            } else {
                                assert(queued(c_f, k as int, s));
                                let w = choose|w: int|
                                    0 <= w < c_f.relax_heap@.len() && (#[trigger] c_f.relax_heap@[w]).1 == s && c_f.relax_heap@[w].0
                                        <= min_arrival_of(c_f.labels@[k as int]@[s as int].items@);
                                assert(c_li.relax_heap@[w] == c_f.relax_heap@[w]);
                                assert(queued(c_li, k as int, s));
                            }
                        }
                    }
                    if !(stop.0 == p_dash.0 && any_added) {
                        assert(cache.labels@[k as int]@[stop.0 as int] == c_f.labels@[k as int]@[stop.0 as int]);
                        if c_f.labels@[k as int]@[stop.0 as int].items@ != staged@ {
                            let w = choose|w: int|
                                0 <= w < c_f.relax_heap@.len() && (#[trigger] c_f.relax_heap@[w]).1 == stop.0 as nat && c_f.relax_heap@[w].0
                                    <= min_arrival_of(c_f.labels@[k as int]@[stop.0 as int].items@);
                            assert(c_li.relax_heap@[w] == c_f.relax_heap@[w]);
                            assert(queued(c_li, k as int, stop.0 as nat));
                        }
                    }
                    assert forall|ff: int, i: int|
                        0 <= ff < f + 1 && 0 <= i < staged@.len() implies reached_by(
                            *cache,
                            targets@,
                            k as int,
                            (#[trigger] tt.footpaths_at(stop.0 as nat)[ff]).0 as int,
                            sat_add(
                                (#[trigger] staged@[i]).arrival_of(),
                                tt.transfer_secs(stop.0 as nat, tt.footpaths_at(stop.0 as nat)[ff].0 as nat),
                            ),
                        ) by {
                        if ff < f {
                            lemma_reached_by_kept(
                                c_f,
                                *cache,
                                targets@,
                                k as int,
                                tt.footpaths_at(stop.0 as nat)[ff].0 as int,
                                sat_add(staged@[i].arrival_of(), tt.transfer_secs(stop.0 as nat, tt.footpaths_at(stop.0 as nat)[ff].0 as nat)),
                            );
                        } else {
                            lemma_reached_by_kept(
                                c_li,
                                *cache,
                                targets@,
                                k as int,
                                p_dash.0 as int,
                                sat_add(staged@[i].arrival_of(), walk.0),
                            );
                        }
                    }
                }
                f = f + 1;
            }
            proof {
                if cache.labels@[k as int]@[stop.0 as int].items@ == staged@ {
                    assert forall|t: u32| t < u32::MAX && #[trigger] arrives_by(cache.labels@[k as int]@[stop.0 as int].items@, t) implies walks_relaxed(
                        tt,
                        *cache,
                        targets@,
                        k as int,
                        stop.0 as nat,
                        t,
                    ) by {
                        let i = choose|i: int| 0 <= i < staged@.len() && (#[trigger] staged@[i]).arrival_of() <= t;
                        assert forall|ff: int| 0 <= ff < tt.footpaths_at(stop.0 as nat).len() implies reached_by(
                            *cache,
                            targets@,
                            k as int,
                            (#[trigger] tt.footpaths_at(stop.0 as nat)[ff]).0 as int,
                            sat_add(t, tt.transfer_secs(stop.0 as nat, tt.footpaths_at(stop.0 as nat)[ff].0 as nat)),
                        ) by {
                            let w = tt.transfer_secs(stop.0 as nat, tt.footpaths_at(stop.0 as nat)[ff].0 as nat);
                            assert(reached_by(*cache, targets@, k as int, tt.footpaths_at(stop.0 as nat)[ff].0 as int, sat_add(staged@[i].arrival_of(), w)));
                            lemma_reached_by_later(
                                *cache,
                                targets@,
                                k as int,
                                tt.footpaths_at(stop.0 as nat)[ff].0 as int,
                                sat_add(staged@[i].arrival_of(), w),
                                sat_add(t, w),
                            );
                        }
                    }
                }
                assert forall|s: nat|
                    s < tt.stop_count() && s != -1int && s != -1int && #[trigger] in_scope(c0, *cache, k as int, s) implies relaxed_at(
                        tt,
                        *cache,
                        targets@,
                        k as int,
                        s,
                    ) || queued(*cache, k as int, s) by {
                    if s != stop.0 {
                        assert(settled_except(tt, c0, *cache, targets@, k as int, stop.0 as int, -1));
                    }
                }
            }
        } else {
            proof {
                // The popped entry was stale: `stop` keeps another entry or
                // was relaxed already.
                assert forall|s: nat|
                    s < tt.stop_count() && s != -1int && s != -1int && #[trigger] in_scope(c0, *cache, k as int, s) implies relaxed_at(
                        tt,
                        *cache,
                        targets@,
                        k as int,
                        s,
                    ) || queued(*cache, k as int, s) by {
                    if s == stop_bit {
                        assert(in_scope(c0, c_pop, k as int, s));
                        if !relaxed_at(tt, c_pop, targets@, k as int, s) {
                            let w = choose|w: int|
                                0 <= w < h0.len() && (#[trigger] h0[w]).1 == s && h0[w].0 <= min_arrival_of(
                                    c_pop.labels@[k as int]@[s as int].items@,
                                );
                            assert(w != m);
                            if w < m {
                                assert(cache.relax_heap@[w] == h0[w]);
                            } else {
                                assert(cache.relax_heap@[w - 1] == h0[w]);
                            }
                        }
                    }
                }
            }
        }
    }
    proof {
        assert forall|s: nat|
            s < tt.stop_count() && (bits_of(c0.marked_stops).contains(s) || #[trigger] cache.labels@[k as int]@[s as int]
                != c0.labels@[k as int]@[s as int]) implies relaxed_at(tt, *cache, targets@, k as int, s) by {
            assert(in_scope(c0, *cache, k as int, s));
            if queued(*cache, k as int, s) {
                let w = choose|w: int| 0 <= w < cache.relax_heap@.len() && (#[trigger] cache.relax_heap@[w]).1 == s && cache.relax_heap@[w].0
                    <= min_arrival_of(cache.labels@[k as int]@[s as int].items@);
            }
        }
    }
}
} // verus!
