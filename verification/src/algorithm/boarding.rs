//! The boarding tree ([`Step`] entries keyed by `(round, stop, arrival)`)
//! and the reconstruction that walks it back from a target label to an
//! origin.

use std::collections::BTreeMap;

use fixedbitset::FixedBitSet;
use vstd::prelude::*;

use crate::algorithm::label_bag::{min_arrival_of, LabelBag};
use crate::bitset::{bitset_contains, bits_of};
use crate::ids::{RouteIdx, StopIdx};
use crate::journey::Journey;
use crate::label::Label;
use crate::time::{sat_add, Duration, SecondOfDay};
use crate::timetable::Timetable;

verus! {

broadcast use {vstd::std_specs::btree::group_btree_axioms, vstd::laws_cmp::group_laws_cmp};

/// How a label at a `(round, stop)` cell was reached: by riding `route`
/// from `from`, or by walking from `from` within the same round.
/// `parent_arrival` names the label at `from` that was extended.
#[derive(Debug, Clone, Copy)]
pub enum Step {
    /// Rode `route` from `from`.
    Boarded {
        /// Boarding stop.
        from: StopIdx,
        /// Route ridden.
        route: RouteIdx,
        /// Arrival of the extended label at `from`.
        parent_arrival: SecondOfDay,
    },
    /// Walked from `from`.
    Walked {
        /// Where the walk started.
        from: StopIdx,
        /// Arrival of the extended label at `from`.
        parent_arrival: SecondOfDay,
    },
}

/// The boarding tree: `(round, stop, label arrival)` to the step that
/// produced the label.
pub type BoardingTree = BTreeMap<(usize, u32, u32), Step>;

/// A tree entry is consistent with `tt`: its stop exists; a ride happens in
/// a round of at least one, from an existing stop, on an existing route
/// that serves the stop; a walk starts at an existing stop.
pub open spec fn step_valid<T: Timetable>(tt: &T, key: (usize, u32, u32), step: Step) -> bool {
    &&& key.1 < tt.stop_count()
    &&& match step {
        Step::Boarded { from, route, .. } => {
            &&& key.0 >= 1
            &&& from.0 < tt.stop_count()
            &&& route.0 < tt.route_count()
            &&& tt.route_stops(route.0 as nat).contains(StopIdx(key.1))
        },
        Step::Walked { from, .. } => from.0 < tt.stop_count(),
    }
}

/// Every entry of the tree is consistent with `tt`.
pub open spec fn tree_valid<T: Timetable>(tt: &T, tree: Map<(usize, u32, u32), Step>) -> bool {
    forall|key: (usize, u32, u32)| #[trigger] tree.contains_key(key) ==> step_valid(tt, key, tree[key])
}

/// A step `(route, stop)` of a plan is consistent with `tt`: the route
/// exists and serves the stop.
pub open spec fn plan_step_valid<T: Timetable>(tt: &T, step: (RouteIdx, StopIdx)) -> bool {
    &&& step.0.0 < tt.route_count()
    &&& step.1.0 < tt.stop_count()
    &&& tt.route_stops(step.0.0 as nat).contains(step.1)
}

/// Slot `i` is the first target slot at `stop`.
pub open spec fn first_slot(targets: Seq<(StopIdx, Duration)>, stop: StopIdx, i: int) -> bool {
    &&& 0 <= i < targets.len()
    &&& targets[i].0 == stop
    &&& forall|j: int| 0 <= j < i ==> (#[trigger] targets[j]).0 != stop
}

/// Lowers `pt_threshold` to `label`'s arrival plus the walk of the first
/// target slot at `stop`, when `stop` is marked in `is_dest`, has a slot,
/// and that sum (saturating) is lower. Sound only where every insert that
/// reaches it improves the target's best arrival, as in a route scan; a
/// footpath pass may insert incomparable labels that arrive later.
pub(crate) fn tighten_pt_threshold<L: Label>(
    pt_threshold: &mut SecondOfDay,
    stop: StopIdx,
    label: &L,
    is_dest: &FixedBitSet,
    targets: &[(StopIdx, Duration)],
)
    ensures
        !bits_of(*is_dest).contains(stop.0 as nat) ==> *final(pt_threshold) == *old(pt_threshold),
        (!exists|i: int| first_slot(targets@, stop, i)) ==> *final(pt_threshold) == *old(pt_threshold),
        forall|i: int|
            bits_of(*is_dest).contains(stop.0 as nat) && #[trigger] first_slot(targets@, stop, i) ==> final(pt_threshold).0 == (
            if sat_add(label.arrival_of(), targets@[i].1.0) < old(pt_threshold).0 {
                sat_add(label.arrival_of(), targets@[i].1.0)
            } else {
                old(pt_threshold).0
            }),
{
    if !bitset_contains(is_dest, stop.0 as usize) {
        return;
    }
    let mut i: usize = 0;
    while i < targets.len()
        invariant
            i <= targets@.len(),
            *pt_threshold == *old(pt_threshold),
            bits_of(*is_dest).contains(stop.0 as nat),
            forall|j: int| 0 <= j < i ==> (#[trigger] targets@[j]).0 != stop,
        decreases targets@.len() - i,
    {
        let (t, w) = targets[i];
        if t.0 == stop.0 {
            let candidate = label.arrival().plus(w);
            if candidate.0 < pt_threshold.0 {
                *pt_threshold = candidate;
            }
            proof {
                assert(first_slot(targets@, stop, i as int));
                assert forall|k: int| #[trigger] first_slot(targets@, stop, k) implies k == i by {
                    if k < i {
                    } else if k > i {
                        assert(targets@[i as int].0 == stop);
                    }
                }
            }
            return;
        }
        i = i + 1;
    }
}

/// The threshold over targets: the least `min arrival + walk` over the
/// target slots, saturating, `u32::MAX` when there are none.
pub open spec fn target_threshold<L: Label>(bests: Seq<LabelBag<L>>, targets: Seq<(StopIdx, Duration)>) -> u32
    decreases targets.len(),
{
    if targets.len() == 0 {
        u32::MAX
    } else {
        let rest = target_threshold(bests, targets.drop_last());
        let (t, w) = targets.last();
        let here = sat_add(min_arrival_of(bests[t.0 as int].items@), w.0);
        if here < rest {
            here
        } else {
            rest
        }
    }
}

/// The least effective arrival over the target slots: each target's best
/// arrival plus its walk, saturating; `u32::MAX` when every target is
/// unreached.
pub fn best_to_any_target<L: Label>(best_arrival: &Vec<LabelBag<L>>, targets: &[(StopIdx, Duration)]) -> (r: SecondOfDay)
    requires
        forall|i: int| 0 <= i < targets@.len() ==> (#[trigger] targets@[i]).0.0 < best_arrival@.len(),
    ensures
        r.0 == target_threshold(best_arrival@, targets@),
{
    let mut best: u32 = u32::MAX;
    let mut i: usize = 0;
    while i < targets.len()
        invariant
            i <= targets@.len(),
            forall|j: int| 0 <= j < targets@.len() ==> (#[trigger] targets@[j]).0.0 < best_arrival@.len(),
            best == target_threshold(best_arrival@, targets@.subrange(0, i as int)),
        decreases targets@.len() - i,
    {
        let (t, w) = targets[i];
        let here = best_arrival[t.0 as usize].min_arrival().plus(w).0;
        proof {
            assert(targets@.subrange(0, i + 1).drop_last() =~= targets@.subrange(0, i as int));
        }
        if here < best {
            best = here;
        }
        i = i + 1;
    }
    assert(targets@.subrange(0, targets@.len() as int) =~= targets@);
    SecondOfDay(best)
}

/// `plan[i]` is the `(route, stop)` of some ride recorded in `tree`.
pub open spec fn from_tree(tree: Map<(usize, u32, u32), Step>, step: (RouteIdx, StopIdx)) -> bool {
    exists|key: (usize, u32, u32)|
        #[trigger] tree.contains_key(key) && key.1 == step.1.0 && (tree[key] matches Step::Boarded { route, .. } && route == step.0)
}

/// Rides are only recorded from round one on.
pub open spec fn rides_from_round_one(tree: Map<(usize, u32, u32), Step>) -> bool {
    forall|key: (usize, u32, u32)| #[trigger] tree.contains_key(key) && tree[key] is Boarded ==> key.0 >= 1
}

/// The walk back through `tree` from the label `(k, parent, arrival)`, with
/// `plan` the `(route, stop)` steps collected so far (latest ride first)
/// and `budget` lookups left: each lookup that finds a ride appends
/// `(route, parent)` and drops a round (stopping once round zero rode),
/// each walk keeps the round; the walk stops when the budget is spent, a
/// lookup finds nothing, or the new parent is an origin. Gives the last
/// parent and the collected steps.
pub open spec fn trace_back(
    tree: Map<(usize, u32, u32), Step>,
    origins: Set<nat>,
    parent: StopIdx,
    arrival: u32,
    k: usize,
    plan: Seq<(RouteIdx, StopIdx)>,
    budget: nat,
) -> (StopIdx, Seq<(RouteIdx, StopIdx)>)
    decreases budget,
{
    if budget == 0 || !tree.contains_key((k, parent.0, arrival)) {
        (parent, plan)
    } else {
        match tree[(k, parent.0, arrival)] {
            Step::Boarded { from, route, parent_arrival } => {
                let plan2 = plan.push((route, parent));
                if k == 0 || origins.contains(from.0 as nat) {
                    (from, plan2)
                } else {
                    trace_back(tree, origins, from, parent_arrival.0, (k - 1) as usize, plan2, (budget - 1) as nat)
                }
            },
            Step::Walked { from, parent_arrival } => {
                if origins.contains(from.0 as nat) {
                    (from, plan)
                } else {
                    trace_back(tree, origins, from, parent_arrival.0, k, plan, (budget - 1) as nat)
                }
            },
        }
    }
}

/// `s` back to front.
pub open spec fn reversed<A>(s: Seq<A>) -> Seq<A> {
    Seq::new(s.len(), |j: int| s[s.len() - 1 - j])
}

/// What [`reconstruct_journey`] gives: the walk back from
/// `(k, pt, arrival)` with `(k + 1) * 100` lookups, kept as the origin
/// reached and the steps in travel order when it collected a ride and
/// ended at an origin.
pub open spec fn journey_trace(
    tree: Map<(usize, u32, u32), Step>,
    origins: Set<nat>,
    pt: StopIdx,
    arrival: u32,
    k: usize,
) -> Option<(StopIdx, Seq<(RouteIdx, StopIdx)>)> {
    let (o, p) = trace_back(tree, origins, pt, arrival, k, Seq::empty(), ((k + 1) * 100) as nat);
    if p.len() > 0 && origins.contains(o.0 as nat) {
        Some((o, reversed(p)))
    } else {
        None
    }
}

/// Traces the label `(k, pt, target_arrival)` back through `tree` until it
/// reaches an origin: each ride step contributes `(route, stop)` and drops
/// one round, walks keep the round. At least one lookup is made before
/// origin membership can stop the trace. The trace gives up after
/// `(k + 1) * 100` lookups. Returns the origin reached and the steps in
/// travel order, or `None` when the trace found no ride or did not end at
/// an origin.
pub fn reconstruct_journey(
    tree: &BoardingTree,
    origins: &FixedBitSet,
    pt: StopIdx,
    target_arrival: SecondOfDay,
    k: usize,
) -> (r: Option<(StopIdx, Vec<(RouteIdx, StopIdx)>)>)
    requires
        (k + 1) * 100 <= usize::MAX,
        rides_from_round_one(tree@),
    ensures
        match r {
            Some((o, plan)) => journey_trace(tree@, bits_of(*origins), pt, target_arrival.0, k) == Some(
                (o, plan@),
            ),
            None => journey_trace(tree@, bits_of(*origins), pt, target_arrival.0, k) is None,
        },
        r matches Some((o, plan)) ==> {
            &&& bits_of(*origins).contains(o.0 as nat)
            &&& 1 <= plan@.len() <= k
            &&& forall|i: int| 0 <= i < plan@.len() ==> from_tree(tree@, #[trigger] plan@[i])
        },
{
    let ghost oset = bits_of(*origins);
    let ghost start = ((k + 1) * 100) as nat;
    if tree.is_empty() {
        assert(!tree@.contains_key((k, pt.0, target_arrival.0)));
        return None;
    }
    let mut plan: Vec<(RouteIdx, StopIdx)> = Vec::new();
    let mut parent = pt;
    let mut parent_arrival = target_arrival;
    let mut inner_k = k;
    let mut budget = (k + 1) * 100;
    loop
        invariant_except_break
            trace_back(tree@, oset, pt, target_arrival.0, k, Seq::empty(), start) == trace_back(
                tree@,
                oset,
                parent,
                parent_arrival.0,
                inner_k,
                plan@,
                budget as nat,
            ),
        invariant
            rides_from_round_one(tree@),
            inner_k <= k,
            plan@.len() + inner_k <= k,
            forall|i: int| 0 <= i < plan@.len() ==> from_tree(tree@, #[trigger] plan@[i]),
            oset == bits_of(*origins),
        ensures
            trace_back(tree@, oset, pt, target_arrival.0, k, Seq::empty(), start) == (parent, plan@),
        decreases budget,
    {
        if budget == 0 {
            break;
        }
        let ghost b0 = budget as nat;
        let ghost parent0 = parent;
        let ghost arr0 = parent_arrival.0;
        let ghost k0 = inner_k;
        let ghost plan0 = plan@;
        budget = budget - 1;
        let step = match tree.get(&(inner_k, parent.0, parent_arrival.0)) {
            Some(s) => *s,
            None => {
                break;
            },
        };
        let ghost key = (inner_k, parent.0, parent_arrival.0);
        assert(tree@.contains_key(key));
        assert(tree@[key] == step);
        match step {
            Step::Boarded { from, route, parent_arrival: pa } => {
                assert(key.0 >= 1);
                plan.push((route, parent));
                proof {
                    assert(from_tree(tree@, plan@[plan@.len() - 1]));
                }
                parent = from;
                parent_arrival = pa;
                if inner_k == 0 {
                    break;
                }
                inner_k = inner_k - 1;
            },
            Step::Walked { from, parent_arrival: pa } => {
                parent = from;
                parent_arrival = pa;
            },
        }
        if bitset_contains(origins, parent.0 as usize) {
            break;
        }
        assert(trace_back(tree@, oset, parent0, arr0, k0, plan0, b0) == trace_back(
            tree@,
            oset,
            parent,
            parent_arrival.0,
            inner_k,
            plan@,
            budget as nat,
        ));
    }
    if plan.len() > 0 && bitset_contains(origins, parent.0 as usize) {
        let mut rev: Vec<(RouteIdx, StopIdx)> = Vec::new();
        let mut i: usize = plan.len();
        while i > 0
            invariant
                i <= plan@.len(),
                rev@.len() == plan@.len() - i,
                forall|j: int| 0 <= j < rev@.len() ==> #[trigger] rev@[j] == plan@[plan@.len() - 1 - j],
            decreases i,
        {
            i = i - 1;
            rev.push(plan[i]);
        }
        proof {
            assert(rev@ =~= reversed(plan@));
            assert forall|j: int| 0 <= j < rev@.len() implies from_tree(tree@, #[trigger] rev@[j]) by {
                assert(rev@[j] == plan@[plan@.len() - 1 - j]);
            }
        }
        Some((parent, rev))
    } else {
        None
    }
}


/// A journey the extraction can emit: it ends at a target slot, starts at
/// an origin, takes one to `transfers` trips, every ride is recorded in
/// the tree, and its label is one of the target's labels in some round
/// with the target's walk added.
pub open spec fn extracted<L: Label>(
    labels: Seq<Vec<LabelBag<L>>>,
    tree: Map<(usize, u32, u32), Step>,
    origins: Set<nat>,
    targets: Seq<(StopIdx, Duration)>,
    transfers: usize,
    j: Journey<L>,
) -> bool {
    &&& targets.contains((j.target, j.target_walk))
    &&& origins.contains(j.origin.0 as nat)
    &&& 1 <= j.plan@.len() <= transfers
    &&& forall|i: int| 0 <= i < j.plan@.len() ==> from_tree(tree, #[trigger] j.plan@[i])
    &&& exists|k: int, raw: L|
        1 <= k <= transfers && #[trigger] labels[k]@[j.target.0 as int].items@.contains(raw) && j.label.arrival_of()
            == sat_add(raw.arrival_of(), j.target_walk.0) && raw.arrival_of() != u32::MAX && journey_trace(
            tree,
            origins,
            j.target,
            raw.arrival_of(),
            k as usize,
        ) == Some((j.origin, j.plan@))
}

/// `j` is the journey the extraction makes of label `raw` in round `k` at
/// target `target` with walk `walk`: the traced origin and plan, and the
/// label's arrival plus the walk.
pub open spec fn journey_of<L: Label>(
    j: Journey<L>,
    tree: Map<(usize, u32, u32), Step>,
    origins: Set<nat>,
    target: StopIdx,
    walk: Duration,
    k: int,
    raw: L,
) -> bool {
    &&& j.target == target
    &&& j.target_walk == walk
    &&& journey_trace(tree, origins, target, raw.arrival_of(), k as usize) == Some((j.origin, j.plan@))
    &&& j.label.arrival_of() == sat_add(raw.arrival_of(), walk.0)
}

/// When label `raw` (round `k`, target `target`) does not arrive at
/// `u32::MAX` and traces back to an origin, `out` holds its journey.
pub open spec fn emitted<L: Label>(
    out: Seq<Journey<L>>,
    tree: Map<(usize, u32, u32), Step>,
    origins: Set<nat>,
    target: StopIdx,
    walk: Duration,
    k: int,
    raw: L,
) -> bool {
    raw.arrival_of() != u32::MAX && journey_trace(tree, origins, target, raw.arrival_of(), k as usize) is Some
        ==> exists|i: int| 0 <= i < out.len() && #[trigger] journey_of(out[i], tree, origins, target, walk, k, raw)
}

/// Every label of round `k` at target slot `ti` is emitted into `out`.
pub open spec fn round_emitted<L: Label>(
    out: Seq<Journey<L>>,
    labels: Seq<Vec<LabelBag<L>>>,
    tree: Map<(usize, u32, u32), Step>,
    origins: Set<nat>,
    targets: Seq<(StopIdx, Duration)>,
    ti: int,
    k: int,
) -> bool {
    forall|raw: L|
        #[trigger] labels[k]@[targets[ti].0.0 as int].items@.contains(raw) ==> emitted(
            out,
            tree,
            origins,
            targets[ti].0,
            targets[ti].1,
            k,
            raw,
        )
}

/// Every label of rounds `1..=transfers` at target slot `ti` is emitted
/// into `out`.
pub open spec fn target_emitted<L: Label>(
    out: Seq<Journey<L>>,
    labels: Seq<Vec<LabelBag<L>>>,
    tree: Map<(usize, u32, u32), Step>,
    origins: Set<nat>,
    targets: Seq<(StopIdx, Duration)>,
    transfers: int,
    ti: int,
) -> bool {
    forall|k: int| 1 <= k <= transfers ==> #[trigger] round_emitted(out, labels, tree, origins, targets, ti, k)
}

/// `a` is a prefix of `b`.
pub open spec fn seq_prefix<A>(a: Seq<A>, b: Seq<A>) -> bool {
    a.len() <= b.len() && forall|i: int| 0 <= i < a.len() ==> #[trigger] b[i] == a[i]
}

proof fn lemma_emitted_grows<L: Label>(
    out: Seq<Journey<L>>,
    out2: Seq<Journey<L>>,
    tree: Map<(usize, u32, u32), Step>,
    origins: Set<nat>,
    target: StopIdx,
    walk: Duration,
    k: int,
    raw: L,
)
    requires
        seq_prefix(out, out2),
        emitted(out, tree, origins, target, walk, k, raw),
    ensures
        emitted(out2, tree, origins, target, walk, k, raw),
{
    if raw.arrival_of() != u32::MAX && journey_trace(tree, origins, target, raw.arrival_of(), k as usize) is Some {
        let i = choose|i: int| 0 <= i < out.len() && #[trigger] journey_of(out[i], tree, origins, target, walk, k, raw);
        assert(out2[i] == out[i]);
        assert(journey_of(out2[i], tree, origins, target, walk, k, raw));
    }
}

proof fn lemma_round_grows<L: Label>(
    out: Seq<Journey<L>>,
    out2: Seq<Journey<L>>,
    labels: Seq<Vec<LabelBag<L>>>,
    tree: Map<(usize, u32, u32), Step>,
    origins: Set<nat>,
    targets: Seq<(StopIdx, Duration)>,
    ti: int,
    k: int,
)
    requires
        seq_prefix(out, out2),
        round_emitted(out, labels, tree, origins, targets, ti, k),
    ensures
        round_emitted(out2, labels, tree, origins, targets, ti, k),
{
    assert forall|raw: L| #[trigger] labels[k]@[targets[ti].0.0 as int].items@.contains(raw) implies emitted(
        out2,
        tree,
        origins,
        targets[ti].0,
        targets[ti].1,
        k,
        raw,
    ) by {
        lemma_emitted_grows(out, out2, tree, origins, targets[ti].0, targets[ti].1, k, raw);
    }
}

proof fn lemma_target_grows<L: Label>(
    out: Seq<Journey<L>>,
    out2: Seq<Journey<L>>,
    labels: Seq<Vec<LabelBag<L>>>,
    tree: Map<(usize, u32, u32), Step>,
    origins: Set<nat>,
    targets: Seq<(StopIdx, Duration)>,
    transfers: int,
    ti: int,
)
    requires
        seq_prefix(out, out2),
        target_emitted(out, labels, tree, origins, targets, transfers, ti),
    ensures
        target_emitted(out2, labels, tree, origins, targets, transfers, ti),
{
    assert forall|k: int| 1 <= k <= transfers implies #[trigger] round_emitted(
        out2,
        labels,
        tree,
        origins,
        targets,
        ti,
        k,
    ) by {
        lemma_round_grows(out, out2, labels, tree, origins, targets, ti, k);
    }
}

/// Every journey the current labels support: for each target slot, round
/// `1..=transfers` and label in the target's bag (except labels at
/// `u32::MAX`), the traced-back plan, with the target's walk added to the
/// label.
pub fn extract_target_journeys<L: Label>(
    ctx: &L::Ctx,
    labels: &Vec<Vec<LabelBag<L>>>,
    board_detail: &BoardingTree,
    origin_set: &FixedBitSet,
    targets: &[(StopIdx, Duration)],
    transfers: usize,
) -> (out: Vec<Journey<L>>)
    requires
        labels@.len() > transfers,
        (transfers + 1) * 100 <= usize::MAX,
        rides_from_round_one(board_detail@),
        forall|k: int, i: int|
            0 <= k < labels@.len() && 0 <= i < targets@.len() ==> (#[trigger] targets@[i]).0.0 < (#[trigger] labels@[k])@.len(),
    ensures
        forall|i: int|
            0 <= i < out@.len() ==> extracted(labels@, board_detail@, bits_of(*origin_set), targets@, transfers, #[trigger] out@[i]),
        forall|ti: int|
            0 <= ti < targets@.len() ==> #[trigger] target_emitted(
                out@,
                labels@,
                board_detail@,
                bits_of(*origin_set),
                targets@,
                transfers as int,
                ti,
            ),
{
    let ghost oset = bits_of(*origin_set);
    let mut journeys: Vec<Journey<L>> = Vec::new();
    let mut ti: usize = 0;
    while ti < targets.len()
        invariant
            ti <= targets@.len(),
            oset == bits_of(*origin_set),
            labels@.len() > transfers,
            (transfers + 1) * 100 <= usize::MAX,
            rides_from_round_one(board_detail@),
            forall|k: int, i: int|
                0 <= k < labels@.len() && 0 <= i < targets@.len() ==> (#[trigger] targets@[i]).0.0 < (#[trigger] labels@[k])@.len(),
            forall|i: int|
                0 <= i < journeys@.len() ==> extracted(labels@, board_detail@, oset, targets@, transfers, #[trigger] journeys@[i]),
            forall|t: int|
                0 <= t < ti ==> #[trigger] target_emitted(journeys@, labels@, board_detail@, oset, targets@, transfers as int, t),
        decreases targets@.len() - ti,
    {
        let (target, walk) = targets[ti];
        assert(targets@.contains((target, walk))) by {
            assert(targets@[ti as int] == (target, walk));
        }
        let ghost before_target = journeys@;
        let mut k: usize = 1;
        while k <= transfers
            invariant
                ti < targets@.len(),
                oset == bits_of(*origin_set),
                targets@[ti as int] == (target, walk),
                targets@.contains((target, walk)),
                1 <= k <= transfers + 1,
                labels@.len() > transfers,
                (transfers + 1) * 100 <= usize::MAX,
                rides_from_round_one(board_detail@),
                forall|kk: int, i: int|
                    0 <= kk < labels@.len() && 0 <= i < targets@.len() ==> (#[trigger] targets@[i]).0.0 < (#[trigger] labels@[kk])@.len(),
                forall|i: int|
                    0 <= i < journeys@.len() ==> extracted(labels@, board_detail@, oset, targets@, transfers, #[trigger] journeys@[i]),
                seq_prefix(before_target, journeys@),
                forall|t: int|
                    0 <= t < ti ==> #[trigger] target_emitted(before_target, labels@, board_detail@, oset, targets@, transfers as int, t),
                forall|kk: int|
                    1 <= kk < k ==> #[trigger] round_emitted(journeys@, labels@, board_detail@, oset, targets@, ti as int, kk),
            decreases transfers + 1 - k,
        {
            assert(targets@[ti as int].0 == target);
            assert(target.0 < labels@[k as int]@.len());
            let bag = &labels[k][target.0 as usize];
            let ghost before_round = journeys@;
            let mut b: usize = 0;
            while b < bag.items.len()
                invariant
                    b <= bag.items@.len(),
                    oset == bits_of(*origin_set),
                    *bag == labels@[k as int]@[target.0 as int],
                    targets@.contains((target, walk)),
                    1 <= k <= transfers,
                    (transfers + 1) * 100 <= usize::MAX,
                    rides_from_round_one(board_detail@),
                    forall|i: int|
                        0 <= i < journeys@.len() ==> extracted(labels@, board_detail@, oset, targets@, transfers, #[trigger] journeys@[i]),
                    seq_prefix(before_round, journeys@),
                    forall|bb: int|
                        0 <= bb < b ==> emitted(journeys@, board_detail@, oset, target, walk, k as int, #[trigger] bag.items@[bb]),
                decreases bag.items@.len() - b,
            {
                let raw = bag.items[b];
                let raw_arr = raw.arrival();
                let ghost before_item = journeys@;
                if raw_arr.0 != u32::MAX {
                    proof {
                        assert((k + 1) * 100 <= (transfers + 1) * 100) by (nonlinear_arith)
                            requires k <= transfers;
                    }
                    match reconstruct_journey(board_detail, origin_set, target, raw_arr, k) {
                        Some((origin, plan)) => {
                            let label = raw.extend_by_footpath(ctx, target, target, walk);
                            let j = Journey { origin, target, target_walk: walk, plan, label };
                            proof {
                                assert(bag.items@[b as int] == raw);
                                assert(labels@[k as int]@[target.0 as int].items@.contains(raw));
                                assert(labels@[k as int]@[j.target.0 as int].items@.contains(raw));
                                assert(j.label.arrival_of() == sat_add(raw.arrival_of(), j.target_walk.0));
                                assert(extracted(labels@, board_detail@, oset, targets@, transfers, j));
                            }
                            journeys.push(j);
                            proof {
                                assert(journey_of(journeys@[journeys@.len() - 1], board_detail@, oset, target, walk, k as int, raw));
                            }
                        },
                        None => {},
                    }
                }
                proof {
                    assert(seq_prefix(before_item, journeys@));
                    assert forall|bb: int| 0 <= bb < b + 1 implies emitted(
                        journeys@,
                        board_detail@,
                        oset,
                        target,
                        walk,
                        k as int,
                        #[trigger] bag.items@[bb],
                    ) by {
                        if bb < b {
                            lemma_emitted_grows(before_item, journeys@, board_detail@, oset, target, walk, k as int, bag.items@[bb]);
                        }
                    }
                }
                b = b + 1;
            }
            proof {
                assert forall|raw: L| #[trigger] labels@[k as int]@[targets@[ti as int].0.0 as int].items@.contains(raw) implies emitted(
                    journeys@,
                    board_detail@,
                    oset,
                    targets@[ti as int].0,
                    targets@[ti as int].1,
                    k as int,
                    raw,
                ) by {
                    let bb = choose|bb: int| 0 <= bb < bag.items@.len() && bag.items@[bb] == raw;
                    assert(emitted(journeys@, board_detail@, oset, target, walk, k as int, bag.items@[bb]));
                }
                assert(round_emitted(journeys@, labels@, board_detail@, oset, targets@, ti as int, k as int));
                assert forall|kk: int| 1 <= kk < k + 1 implies #[trigger] round_emitted(
                    journeys@,
                    labels@,
                    board_detail@,
                    oset,
                    targets@,
                    ti as int,
                    kk,
                ) by {
                    if kk < k {
                        lemma_round_grows(before_round, journeys@, labels@, board_detail@, oset, targets@, ti as int, kk);
                    }
                }
                assert(seq_prefix(before_target, journeys@));
            }
            k = k + 1;
        }
        proof {
            assert(target_emitted(journeys@, labels@, board_detail@, oset, targets@, transfers as int, ti as int));
            assert forall|t: int| 0 <= t < ti + 1 implies #[trigger] target_emitted(
                journeys@,
                labels@,
                board_detail@,
                oset,
                targets@,
                transfers as int,
                t,
            ) by {
                if t < ti {
                    lemma_target_grows(before_target, journeys@, labels@, board_detail@, oset, targets@, transfers as int, t);
                }
            }
        }
        ti = ti + 1;
    }
    journeys
}
} // verus!
