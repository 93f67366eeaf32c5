//! A brute-force reference for the two-criterion label: the Pareto front of
//! `(arrival, walking time, trip count)` over a generated network, for
//! several origins and targets with walk offsets.

use std::collections::BTreeSet;

use vstd::prelude::*;
use vstd::set_lib::{lemma_int_range, lemma_len_subset, set_int_range};

use crate::proptest_support::reference::{all_schedules, hop, preparable, ride_edge, Prep};
use crate::proptest_support::spec::{closed_walks, lemma_walks_square, sat_add16, square_no_diag, NetworkSpec};

verus! {

broadcast use {vstd::std_specs::btree::group_btree_axioms, vstd::laws_cmp::group_laws_cmp};

/// A search state: `(stop, arrival, walking time, trips)`.
pub type WalkState = (u8, u16, u16, u8);

/// `x` is where origin `i` starts: its stop, at the departure plus its
/// walk (saturating), with that walk not counted and no trips.
pub open spec fn seed(origins: Seq<(u8, u16)>, tau: u16, x: WalkState) -> bool {
    exists|i: int| 0 <= i < origins.len() && x == (#[trigger] origins[i].0, sat_add16(tau, origins[i].1), 0u16, 0u8)
}

/// The walking time of the closed walk from `from` to `to`.
pub open spec fn walk_secs(spec: NetworkSpec, from: u8, to: u8) -> u16 {
    closed_walks(spec.n_stops as nat, spec.footpaths@)[from as int][to as int]->0
}

/// One step: a closed walk to another stop (arrival without overflow,
/// walking time saturating), or, under `max` trips, a ride of one trip
/// (walking time unchanged).
pub open spec fn wstep(spec: NetworkSpec, max: u8, a: WalkState, b: WalkState) -> bool {
    ||| hop(spec, a.0, a.1, b.0, b.1) && b.2 == sat_add16(a.2, walk_secs(spec, a.0, b.0)) && b.3 == a.3
    ||| a.3 < max && b.3 == a.3 + 1 && b.2 == a.2 && ride_edge(spec, a.0, a.1, b.0, b.1)
}

/// Step `i` of `p` is a step.
pub open spec fn wstep_ok(spec: NetworkSpec, max: u8, p: Seq<WalkState>, i: int) -> bool {
    wstep(spec, max, p[i], p[i + 1])
}

/// `p` starts at an origin and takes steps.
pub open spec fn wpath(spec: NetworkSpec, origins: Seq<(u8, u16)>, tau: u16, max: u8, p: Seq<WalkState>) -> bool {
    &&& p.len() > 0
    &&& seed(origins, tau, p[0])
    &&& forall|i: int| 0 <= i < p.len() - 1 ==> #[trigger] wstep_ok(spec, max, p, i)
}

/// `x` can be reached.
#[verifier::opaque]
pub open spec fn wreach(spec: NetworkSpec, origins: Seq<(u8, u16)>, tau: u16, max: u8, x: WalkState) -> bool {
    exists|p: Seq<WalkState>| #[trigger] wpath(spec, origins, tau, max, p) && p.last() == x
}

/// `a` is at the same stop and time as `b`, with no more walking and no
/// more trips.
pub open spec fn covers_state(a: WalkState, b: WalkState) -> bool {
    a.0 == b.0 && a.1 == b.1 && a.2 <= b.2 && a.3 <= b.3
}

/// `x` can be reached, and nothing reachable at its stop and time covers it
/// but itself.
pub open spec fn wmin(spec: NetworkSpec, origins: Seq<(u8, u16)>, tau: u16, max: u8, x: WalkState) -> bool {
    &&& wreach(spec, origins, tau, max, x)
    &&& !exists|y: WalkState| #[trigger] wreach(spec, origins, tau, max, y) && y != x && covers_state(y, x)
}

/// Arriving at `t` having walked `w` is matched or beaten, after the
/// target's own walk, by a journey without a trip to some target.
pub open spec fn threshold_hit(
    spec: NetworkSpec,
    origins: Seq<(u8, u16)>,
    targets: Seq<(u8, u16)>,
    tau: u16,
    max: u8,
    t: u16,
    w: u16,
) -> bool {
    exists|i: int, t0: u16, w0: u16|
        0 <= i < targets.len() && #[trigger] wreach(spec, origins, tau, max, (targets[i].0, t0, w0, 0u8)) && sat_add16(
            t0,
            targets[i].1,
        ) <= t && sat_add16(w0, targets[i].1) <= w
}

/// `c` is a candidate at target `i`: the effective arrival, walking time
/// and trips of a minimal state at the target's stop, unless it rides and
/// a trip-free journey matches it.
pub open spec fn walk_cand(
    spec: NetworkSpec,
    origins: Seq<(u8, u16)>,
    targets: Seq<(u8, u16)>,
    tau: u16,
    max: u8,
    i: int,
    c: (u16, u16, u8),
) -> bool {
    exists|z: WalkState|
        #[trigger] wmin(spec, origins, tau, max, z) && z.0 == targets[i].0 && (z.3 > 0 ==> !threshold_hit(
            spec,
            origins,
            targets,
            tau,
            max,
            z.1,
            z.2,
        )) && c == (sat_add16(z.1, targets[i].1), sat_add16(z.2, targets[i].1), z.3)
}

/// `a` is no worse than `b` on every count.
pub open spec fn le3(a: (u16, u16, u8), b: (u16, u16, u8)) -> bool {
    a.0 <= b.0 && a.1 <= b.1 && a.2 <= b.2
}

/// The front: per target, the candidates with a trip that no other
/// candidate of that target matches or beats on every count.
pub open spec fn reference_walk_front(
    spec: NetworkSpec,
    origins: Seq<(u8, u16)>,
    targets: Seq<(u8, u16)>,
    tau: u16,
    max: u8,
) -> Set<(u16, u16, u8)> {
    Set::new(
        |c: (u16, u16, u8)|
            exists|i: int|
                0 <= i < targets.len() && #[trigger] walk_cand(spec, origins, targets, tau, max, i, c) && c.2 != 0
                    && !exists|c2: (u16, u16, u8)|
                    #[trigger] walk_cand(spec, origins, targets, tau, max, i, c2) && c2 != c && le3(c2, c),
    )
}

// ---------------------------------------------------------------------
// The label store
// ---------------------------------------------------------------------

/// Some label covers `y`.
pub open spec fn dominated(labels: Seq<WalkState>, y: WalkState) -> bool {
    exists|j: int| 0 <= j < labels.len() && covers_state(#[trigger] labels[j], y)
}

/// No label covers another.
pub open spec fn antichain(labels: Seq<WalkState>) -> bool {
    forall|i: int, j: int|
        0 <= i < labels.len() && 0 <= j < labels.len() && covers_state(#[trigger] labels[i], #[trigger] labels[j]) ==> labels[i]
            == labels[j]
}

/// Whether some label covers `y`.
fn is_dominated(labels: &Vec<WalkState>, y: WalkState) -> (r: bool)
    ensures
        r == dominated(labels@, y),
{
    let mut j: usize = 0;
    while j < labels.len()
        invariant
            j <= labels@.len(),
            forall|i: int| 0 <= i < j ==> !covers_state(#[trigger] labels@[i], y),
        decreases labels@.len() - j,
    {
        let l = labels[j];
        if l.0 == y.0 && l.1 == y.1 && l.2 <= y.2 && l.3 <= y.3 {
            assert(covers_state(labels@[j as int], y));
            return true;
        }
        j = j + 1;
    }
    false
}

/// Adds `y` unless a label covers it, dropping the labels it covers.
fn try_insert(labels: &mut Vec<WalkState>, y: WalkState) -> (ins: bool)
    ensures
        ins == !dominated(old(labels)@, y),
        !ins ==> final(labels)@ == old(labels)@,
        ins ==> forall|z: WalkState|
            #[trigger] final(labels)@.contains(z) <==> (old(labels)@.contains(z) && !covers_state(y, z)) || z == y,
        dominated(final(labels)@, y),
        forall|z: WalkState| #[trigger] dominated(old(labels)@, z) ==> dominated(final(labels)@, z),
        antichain(old(labels)@) ==> antichain(final(labels)@),
{
    if is_dominated(labels, y) {
        return false;
    }
    let ghost old_l = labels@;
    let mut kept: Vec<WalkState> = Vec::new();
    let mut j: usize = 0;
    while j < labels.len()
        invariant
            j <= labels@.len(),
            labels@ == old_l,
            forall|z: WalkState| #[trigger] kept@.contains(z) <==> (exists|i: int| 0 <= i < j && old_l[i] == z) && !covers_state(y, z),
            forall|i: int| 0 <= i < kept@.len() ==> old_l.contains(#[trigger] kept@[i]),
            forall|i: int| 0 <= i < j && !covers_state(y, old_l[i]) ==> kept@.contains(#[trigger] old_l[i]),
        decreases labels@.len() - j,
    {
        let l = labels[j];
        let ghost k0 = kept@;
        if !(y.0 == l.0 && y.1 == l.1 && y.2 <= l.2 && y.3 <= l.3) {
            kept.push(l);
        }
        proof {
            assert forall|z: WalkState| #[trigger] kept@.contains(z) <==> (exists|i: int| 0 <= i < j + 1 && old_l[i] == z)
                && !covers_state(y, z) by {
                if kept@.contains(z) && !k0.contains(z) {
                    assert(z == l);
                    assert(old_l[j as int] == z);
                }
                if k0.contains(z) {
                    let i = choose|i: int| 0 <= i < k0.len() && k0[i] == z;
                    assert(kept@[i] == z);
                }
                if (exists|i: int| 0 <= i < j + 1 && old_l[i] == z) && !covers_state(y, z) {
                    let i = choose|i: int| 0 <= i < j + 1 && old_l[i] == z;
                    if i == j {
                        assert(kept@[kept@.len() - 1] == z);
                    } else {
                        assert(k0.contains(z));
                        let i2 = choose|i2: int| 0 <= i2 < k0.len() && k0[i2] == z;
                        assert(kept@[i2] == z);
                    }
                }
            }
            assert forall|i: int| 0 <= i < kept@.len() implies old_l.contains(#[trigger] kept@[i]) by {
                if i < k0.len() {
                    assert(kept@[i] == k0[i]);
                } else {
                    assert(old_l[j as int] == kept@[i]);
                }
            }
            assert forall|i: int| 0 <= i < j + 1 && !covers_state(y, old_l[i]) implies kept@.contains(#[trigger] old_l[i]) by {
                if i < j {
                    assert(k0.contains(old_l[i]));
                    let i2 = choose|i2: int| 0 <= i2 < k0.len() && k0[i2] == old_l[i];
                    assert(kept@[i2] == old_l[i]);
                } else {
                    assert(kept@[kept@.len() - 1] == old_l[i]);
                }
            }
        }
        j = j + 1;
    }
    let ghost k1 = kept@;
    kept.push(y);
    *labels = kept;
    proof {
        let f = labels@;
        assert forall|z: WalkState| #[trigger] f.contains(z) <==> (old_l.contains(z) && !covers_state(y, z)) || z == y by {
            if f.contains(z) && z != y {
                let i = choose|i: int| 0 <= i < f.len() && f[i] == z;
                assert(i < k1.len());
                assert(k1[i] == z);
                assert(k1.contains(z));
                let i2 = choose|i2: int| 0 <= i2 < old_l.len() && old_l[i2] == z;
                assert(old_l.contains(z));
            }
            if old_l.contains(z) && !covers_state(y, z) {
                let i = choose|i: int| 0 <= i < old_l.len() && old_l[i] == z;
                assert(k1.contains(old_l[i]));
                let i2 = choose|i2: int| 0 <= i2 < k1.len() && k1[i2] == z;
                assert(f[i2] == z);
            }
            if z == y {
                assert(f[f.len() - 1] == y);
            }
        }
        assert(covers_state(f[f.len() - 1], y));
        assert forall|z: WalkState| #[trigger] dominated(old_l, z) implies dominated(f, z) by {
            let j = choose|j: int| 0 <= j < old_l.len() && covers_state(#[trigger] old_l[j], z);
            if covers_state(y, old_l[j]) {
                assert(covers_state(f[f.len() - 1], z));
            } else {
                assert(f.contains(old_l[j]));
                let i = choose|i: int| 0 <= i < f.len() && f[i] == old_l[j];
                assert(covers_state(f[i], z));
            }
        }
        if antichain(old_l) {
            assert forall|a: int, b: int|
                0 <= a < f.len() && 0 <= b < f.len() && covers_state(#[trigger] f[a], #[trigger] f[b]) implies f[a] == f[b] by {
                assert(f.contains(f[a]) && f.contains(f[b]));
                if f[a] != y && f[b] != y {
                    let ia = choose|ia: int| 0 <= ia < old_l.len() && old_l[ia] == f[a];
                    let ib = choose|ib: int| 0 <= ib < old_l.len() && old_l[ib] == f[b];
                    assert(covers_state(old_l[ia], old_l[ib]));
                } else if f[a] == y && f[b] != y {
                    assert(!covers_state(y, f[b]));
                } else if f[a] != y && f[b] == y {
                    let ia = choose|ia: int| 0 <= ia < old_l.len() && old_l[ia] == f[a];
                    assert(covers_state(old_l[ia], y));
                }
            }
        }
    }
    true
}


// ---------------------------------------------------------------------
// Termination: codes of covered states
// ---------------------------------------------------------------------

/// The number that stands for a state.
pub open spec fn state_code(x: WalkState) -> int {
    x.0 * 1099511627776 + x.1 * 16777216 + x.2 * 256 + x.3
}

/// Codes are below `2^48` and tell their state apart.
proof fn lemma_state_code(x: WalkState)
    ensures
        0 <= state_code(x) < 281474976710656,
        state_code(x) % 256 == x.3,
        (state_code(x) / 256) % 65536 == x.2,
        (state_code(x) / 16777216) % 65536 == x.1,
        state_code(x) / 1099511627776 == x.0,
{
    let (a, b, c, d) = (x.0 as int, x.1 as int, x.2 as int, x.3 as int);
    assert(0 <= a * 1099511627776 + b * 16777216 + c * 256 + d < 281474976710656) by (nonlinear_arith)
        requires 0 <= a < 256, 0 <= b < 65536, 0 <= c < 65536, 0 <= d < 256;
    assert((a * 1099511627776 + b * 16777216 + c * 256 + d) % 256 == d) by (nonlinear_arith)
        requires 0 <= a < 256, 0 <= b < 65536, 0 <= c < 65536, 0 <= d < 256;
    assert((a * 1099511627776 + b * 16777216 + c * 256 + d) / 256 == a * 4294967296 + b * 65536 + c) by (nonlinear_arith)
        requires 0 <= a < 256, 0 <= b < 65536, 0 <= c < 65536, 0 <= d < 256;
    assert((a * 4294967296 + b * 65536 + c) % 65536 == c) by (nonlinear_arith)
        requires 0 <= a < 256, 0 <= b < 65536, 0 <= c < 65536;
    assert((a * 1099511627776 + b * 16777216 + c * 256 + d) / 16777216 == a * 65536 + b) by (nonlinear_arith)
        requires 0 <= a < 256, 0 <= b < 65536, 0 <= c < 65536, 0 <= d < 256;
    assert((a * 65536 + b) % 65536 == b) by (nonlinear_arith)
        requires 0 <= a < 256, 0 <= b < 65536;
    assert((a * 1099511627776 + b * 16777216 + c * 256 + d) / 1099511627776 == a) by (nonlinear_arith)
        requires 0 <= a < 256, 0 <= b < 65536, 0 <= c < 65536, 0 <= d < 256;
}

/// Codes of distinct states differ.
proof fn lemma_state_code_injective(x: WalkState, y: WalkState)
    requires
        state_code(x) == state_code(y),
    ensures
        x == y,
{
    lemma_state_code(x);
    lemma_state_code(y);
}

/// The codes of every state some label covers.
pub open spec fn tokens(labels: Seq<WalkState>) -> Set<int> {
    set_int_range(0, 281474976710656).filter(
        |c: int| exists|y: WalkState| state_code(y) == c && #[trigger] dominated(labels, y),
    )
}

proof fn lemma_tokens_bound(labels: Seq<WalkState>)
    ensures
        tokens(labels).finite(),
        tokens(labels).len() <= 281474976710656,
{
    lemma_int_range(0, 281474976710656);
    lemma_len_subset(tokens(labels), set_int_range(0, 281474976710656));
}

/// Covering only spreads: the tokens grow, and grow by one more when a
/// state newly covered is named.
proof fn lemma_tokens_grow(l0: Seq<WalkState>, l1: Seq<WalkState>, y: WalkState, strict: bool)
    requires
        forall|z: WalkState| #[trigger] dominated(l0, z) ==> dominated(l1, z),
        strict ==> dominated(l1, y) && !dominated(l0, y),
    ensures
        tokens(l0).len() + (if strict { 1int } else { 0int }) <= tokens(l1).len(),
{
    lemma_tokens_bound(l0);
    lemma_tokens_bound(l1);
    assert(tokens(l0).subset_of(tokens(l1))) by {
        assert forall|c: int| tokens(l0).contains(c) implies tokens(l1).contains(c) by {
            let z = choose|z: WalkState| state_code(z) == c && #[trigger] dominated(l0, z);
            assert(dominated(l1, z));
        }
    }
    if strict {
        let c = state_code(y);
        lemma_state_code(y);
        assert(tokens(l1).contains(c));
        assert(!tokens(l0).contains(c)) by {
            if tokens(l0).contains(c) {
                let z = choose|z: WalkState| state_code(z) == c && #[trigger] dominated(l0, z);
                lemma_state_code_injective(z, y);
            }
        }
        assert(tokens(l0).insert(c).subset_of(tokens(l1)));
        lemma_len_subset(tokens(l0).insert(c), tokens(l1));
    } else {
        lemma_len_subset(tokens(l0), tokens(l1));
    }
}


// ---------------------------------------------------------------------
// The search
// ---------------------------------------------------------------------

/// Every step out of `x` leads to a covered state.
#[verifier::opaque]
pub open spec fn closed_state(spec: NetworkSpec, max: u8, labels: Seq<WalkState>, x: WalkState) -> bool {
    forall|y: WalkState| #[trigger] wstep(spec, max, x, y) ==> dominated(labels, y)
}

/// The search invariant, with the state `x` being expanded exempt from
/// "queued or closed": labels form an antichain of reachable states, and
/// every other label is queued or closed.
pub open spec fn wsearch_inv(
    spec: NetworkSpec,
    origins: Seq<(u8, u16)>,
    tau: u16,
    max: u8,
    labels: Seq<WalkState>,
    queue: Seq<WalkState>,
    x: Option<WalkState>,
) -> bool {
    &&& antichain(labels)
    &&& forall|j: int| 0 <= j < labels.len() ==> wreach(spec, origins, tau, max, #[trigger] labels[j])
    &&& forall|j: int|
        0 <= j < labels.len() && x != Some(#[trigger] labels[j]) ==> queue.contains(labels[j]) || closed_state(
            spec,
            max,
            labels,
            labels[j],
        )
}

/// One more step from a reachable state reaches its end.
proof fn lemma_wreach_step(spec: NetworkSpec, origins: Seq<(u8, u16)>, tau: u16, max: u8, x: WalkState, y: WalkState)
    requires
        wreach(spec, origins, tau, max, x),
        wstep(spec, max, x, y),
    ensures
        wreach(spec, origins, tau, max, y),
{
    reveal(wreach);
    let p = choose|p: Seq<WalkState>| #[trigger] wpath(spec, origins, tau, max, p) && p.last() == x;
    let q = p.push(y);
    assert forall|i: int| 0 <= i < q.len() - 1 implies #[trigger] wstep_ok(spec, max, q, i) by {
        if i < p.len() - 1 {
            assert(wstep_ok(spec, max, p, i));
        }
    }
    assert(wpath(spec, origins, tau, max, q));
}

/// Closedness survives covering that only spreads.
proof fn lemma_closed_mono(spec: NetworkSpec, max: u8, l0: Seq<WalkState>, l1: Seq<WalkState>, z: WalkState)
    requires
        forall|w: WalkState| #[trigger] dominated(l0, w) ==> dominated(l1, w),
        closed_state(spec, max, l0, z),
    ensures
        closed_state(spec, max, l1, z),
{
    reveal(closed_state);
    assert forall|w: WalkState| #[trigger] wstep(spec, max, z, w) implies dominated(l1, w) by {
        assert(dominated(l0, w));
    }
}

/// The invariant after one [`try_insert`] of a reachable state, queued
/// when added.
proof fn lemma_insert_inv(
    spec: NetworkSpec,
    origins: Seq<(u8, u16)>,
    tau: u16,
    max: u8,
    l0: Seq<WalkState>,
    l1: Seq<WalkState>,
    q0: Seq<WalkState>,
    q1: Seq<WalkState>,
    y: WalkState,
    ins: bool,
    x: Option<WalkState>,
)
    requires
        wsearch_inv(spec, origins, tau, max, l0, q0, x),
        wreach(spec, origins, tau, max, y),
        !ins ==> l1 == l0,
        forall|z: WalkState| #[trigger] l1.contains(z) ==> l0.contains(z) || z == y,
        forall|z: WalkState| #[trigger] dominated(l0, z) ==> dominated(l1, z),
        antichain(l1),
        q1 == (if ins { q0.push(y) } else { q0 }),
    ensures
        wsearch_inv(spec, origins, tau, max, l1, q1, x),
{
    assert forall|z: WalkState| q0.contains(z) implies #[trigger] q1.contains(z) by {
        let i = choose|i: int| 0 <= i < q0.len() && q0[i] == z;
        assert(q1[i] == z);
    }
    assert forall|j: int| 0 <= j < l1.len() implies wreach(spec, origins, tau, max, #[trigger] l1[j]) by {
        assert(l1.contains(l1[j]));
        if l1[j] != y {
            let i = choose|i: int| 0 <= i < l0.len() && l0[i] == l1[j];
            assert(wreach(spec, origins, tau, max, l0[i]));
        }
    }
    assert forall|j: int|
        0 <= j < l1.len() && x != Some(#[trigger] l1[j]) implies q1.contains(l1[j]) || closed_state(spec, max, l1, l1[j]) by {
        assert(l1.contains(l1[j]));
        if ins && l1[j] == y {
            assert(q1[q1.len() - 1] == y);
        } else {
            let i = choose|i: int| 0 <= i < l0.len() && l0[i] == l1[j];
            if q0.contains(l0[i]) {
                assert(q1.contains(l0[i]));
            } else {
                lemma_closed_mono(spec, max, l0, l1, l0[i]);
            }
        }
    }
}

/// Adds `y` (a reachable state) unless covered, queueing it when added;
/// the invariant survives and covering only spreads.
fn insert_step(
    labels: &mut Vec<WalkState>,
    queue: &mut Vec<WalkState>,
    y: WalkState,
    Ghost(spec): Ghost<NetworkSpec>,
    Ghost(origins): Ghost<Seq<(u8, u16)>>,
    Ghost(tau): Ghost<u16>,
    Ghost(max): Ghost<u8>,
    Ghost(x): Ghost<Option<WalkState>>,
)
    requires
        wsearch_inv(spec, origins, tau, max, old(labels)@, old(queue)@, x),
        wreach(spec, origins, tau, max, y),
    ensures
        wsearch_inv(spec, origins, tau, max, final(labels)@, final(queue)@, x),
        dominated(final(labels)@, y),
        forall|z: WalkState| #[trigger] dominated(old(labels)@, z) ==> dominated(final(labels)@, z),
        final(queue)@.len() + 2 * (281474976710656 - tokens(final(labels)@).len()) <= old(queue)@.len() + 2 * (
        281474976710656 - tokens(old(labels)@).len()),
        forall|z: WalkState| #[trigger] final(labels)@.contains(z) ==> old(labels)@.contains(z) || z == y,
{
    let ghost l0 = labels@;
    let ghost q0 = queue@;
    let ins = try_insert(labels, y);
    if ins {
        queue.push(y);
    }
    proof {
        lemma_tokens_grow(l0, labels@, y, ins);
        lemma_tokens_bound(labels@);
        assert forall|z: WalkState| #[trigger] labels@.contains(z) implies l0.contains(z) || z == y by {
        }
        lemma_insert_inv(spec, origins, tau, max, l0, labels@, q0, queue@, y, ins, x);
    }
}

/// Once `x` is closed it needs no exemption.
proof fn lemma_release(
    spec: NetworkSpec,
    origins: Seq<(u8, u16)>,
    tau: u16,
    max: u8,
    l: Seq<WalkState>,
    q: Seq<WalkState>,
    x: WalkState,
)
    requires
        wsearch_inv(spec, origins, tau, max, l, q, Some(x)),
        closed_state(spec, max, l, x),
    ensures
        wsearch_inv(spec, origins, tau, max, l, q, None),
{
    assert forall|j: int| 0 <= j < l.len() && None::<WalkState> != Some(#[trigger] l[j]) implies q.contains(l[j])
        || closed_state(spec, max, l, l[j]) by {
        if l[j] != x {
            assert(Some(x) != Some(l[j]));
        }
    }
}

/// The walk from `x` to `y` and the ride from `x` to `y` are steps.
proof fn lemma_walk_is_step(spec: NetworkSpec, max: u8, x: WalkState, y: WalkState)
    requires
        hop(spec, x.0, x.1, y.0, y.1),
        y.2 == sat_add16(x.2, walk_secs(spec, x.0, y.0)),
        y.3 == x.3,
    ensures
        wstep(spec, max, x, y),
{
}

/// Expands `x`: adds every walk out of it and, under `max_trips` trips,
/// every ride out of it, which closes it.
fn expand(
    prep: &Prep,
    labels: &mut Vec<WalkState>,
    queue: &mut Vec<WalkState>,
    x: WalkState,
    max_trips: u8,
    Ghost(spec): Ghost<NetworkSpec>,
    Ghost(origins): Ghost<Seq<(u8, u16)>>,
    Ghost(tau): Ghost<u16>,
    Ghost(ps): Ghost<u8>,
)
    requires
        prep.describes(spec, ps, tau),
        wsearch_inv(spec, origins, tau, max_trips, old(labels)@, old(queue)@, Some(x)),
        wreach(spec, origins, tau, max_trips, x),
    ensures
        wsearch_inv(spec, origins, tau, max_trips, final(labels)@, final(queue)@, None),
        final(queue)@.len() + 2 * (281474976710656 - tokens(final(labels)@).len()) <= old(queue)@.len() + 2 * (
        281474976710656 - tokens(old(labels)@).len()),
        forall|z: WalkState| #[trigger] dominated(old(labels)@, z) ==> dominated(final(labels)@, z),
{
    let ghost max = max_trips;
    let ghost l_start = labels@;
    let ghost mu = queue@.len() + 2 * (281474976710656 - tokens(labels@).len());
    let ghost cw = closed_walks(spec.n_stops as nat, spec.footpaths@);
    let ghost sc = all_schedules(spec.routes@);
    let (stop, t, w, k) = x;
    proof {
        lemma_walks_square(spec.n_stops as nat, spec.footpaths@);
    }
    let n = prep.n_stops;
    if stop < n {
        let mut to: u8 = 0;
        while to < n
            invariant
                n == spec.n_stops,
                stop < n,
                to <= n,
                x == (stop, t, w, k),
                max == max_trips,
                prep.describes(spec, ps, tau),
                cw == closed_walks(spec.n_stops as nat, spec.footpaths@),
                square_no_diag(cw, spec.n_stops as nat),
                wsearch_inv(spec, origins, tau, max, labels@, queue@, Some(x)),
                wreach(spec, origins, tau, max, x),
                queue@.len() + 2 * (281474976710656 - tokens(labels@).len()) <= mu,
                forall|z: WalkState| #[trigger] dominated(l_start, z) ==> dominated(labels@, z),
                forall|y: WalkState|
                    y.0 < to && #[trigger] hop(spec, stop, t, y.0, y.1) && y.2 == sat_add16(w, walk_secs(spec, stop, y.0))
                        && y.3 == k ==> dominated(labels@, y),
            decreases n - to,
        {
            let ghost l0 = labels@;
            if to != stop {
                assert(prep.footpaths@[stop as int]@ == cw[stop as int]);
                match prep.footpaths[stop as usize][to as usize] {
                    Some(d) => {
                        match t.checked_add(d) {
                            Some(arr) => {
                                let y: WalkState = (to, arr, w.saturating_add(d), k);
                                proof {
                                    assert(hop(spec, stop, t, to, arr));
                                    lemma_walk_is_step(spec, max, x, y);
                                    lemma_wreach_step(spec, origins, tau, max, x, y);
                                }
                                insert_step(labels, queue, y, Ghost(spec), Ghost(origins), Ghost(tau), Ghost(max), Ghost(Some(x)));
                            },
                            None => {},
                        }
                    },
                    None => {},
                }
            }
            proof {
                assert forall|y: WalkState|
                    y.0 < to + 1 && #[trigger] hop(spec, stop, t, y.0, y.1) && y.2 == sat_add16(w, walk_secs(spec, stop, y.0))
                        && y.3 == k implies dominated(labels@, y) by {
                    if y.0 < to {
                        assert(dominated(l0, y));
                    }
                }
            }
            to = to + 1;
        }
    }
    let ghost l_walked = labels@;
    if k < max_trips {
        let mut q: usize = 0;
        while q < prep.trips.len()
            invariant
                q <= prep.trips@.len(),
                k < max,
                max == max_trips,
                x == (stop, t, w, k),
                prep.describes(spec, ps, tau),
                sc == all_schedules(spec.routes@),
                wsearch_inv(spec, origins, tau, max, labels@, queue@, Some(x)),
                wreach(spec, origins, tau, max, x),
                queue@.len() + 2 * (281474976710656 - tokens(labels@).len()) <= mu,
                forall|z: WalkState| #[trigger] dominated(l_walked, z) ==> dominated(labels@, z),
                forall|z: WalkState| #[trigger] dominated(l_start, z) ==> dominated(labels@, z),
                forall|kk: int, ii: int, jj: int|
                    #![trigger sc[kk][ii], sc[kk][jj]]
                    0 <= kk < q && 0 <= ii < jj < sc[kk].len() && sc[kk][ii].0 == stop && sc[kk][ii].2 >= t ==> dominated(
                        labels@,
                        (sc[kk][jj].0, sc[kk][jj].1, w, (k + 1) as u8),
                    ),
            decreases prep.trips@.len() - q,
        {
            let sched = &prep.trips[q];
            assert(sched@ == sc[q as int]);
            let ghost l_q = labels@;
            let mut i: usize = 0;
            while i < sched.len()
                invariant
                    q < prep.trips@.len(),
                    i <= sched@.len(),
                    sched@ == sc[q as int],
                    k < max,
                    max == max_trips,
                    x == (stop, t, w, k),
                    prep.describes(spec, ps, tau),
                    sc == all_schedules(spec.routes@),
                    wsearch_inv(spec, origins, tau, max, labels@, queue@, Some(x)),
                    wreach(spec, origins, tau, max, x),
                    queue@.len() + 2 * (281474976710656 - tokens(labels@).len()) <= mu,
                    forall|z: WalkState| #[trigger] dominated(l_walked, z) ==> dominated(labels@, z),
                    forall|z: WalkState| #[trigger] dominated(l_q, z) ==> dominated(labels@, z),
                    forall|z: WalkState| #[trigger] dominated(l_start, z) ==> dominated(labels@, z),
                    forall|kk: int, ii: int, jj: int|
                        #![trigger sc[kk][ii], sc[kk][jj]]
                        (0 <= kk < q || (kk == q && 0 <= ii < i)) && 0 <= ii < jj < sc[kk].len() && sc[kk][ii].0 == stop
                            && sc[kk][ii].2 >= t ==> dominated(labels@, (sc[kk][jj].0, sc[kk][jj].1, w, (k + 1) as u8)),
                decreases sched@.len() - i,
            {
                let (bs, _ba, bd) = sched[i];
                let ghost l_i = labels@;
                if bs == stop && bd >= t {
                    let mut j: usize = i + 1;
                    while j < sched.len()
                        invariant
                            q < prep.trips@.len(),
                            i < j <= sched@.len(),
                            sched@ == sc[q as int],
                            sc[q as int][i as int].0 == stop,
                            sc[q as int][i as int].2 >= t,
                            k < max,
                            max == max_trips,
                            x == (stop, t, w, k),
                            prep.describes(spec, ps, tau),
                            sc == all_schedules(spec.routes@),
                            wsearch_inv(spec, origins, tau, max, labels@, queue@, Some(x)),
                            wreach(spec, origins, tau, max, x),
                            queue@.len() + 2 * (281474976710656 - tokens(labels@).len()) <= mu,
                            forall|z: WalkState| #[trigger] dominated(l_walked, z) ==> dominated(labels@, z),
                            forall|z: WalkState| #[trigger] dominated(l_q, z) ==> dominated(labels@, z),
                            forall|z: WalkState| #[trigger] dominated(l_i, z) ==> dominated(labels@, z),
                            forall|z: WalkState| #[trigger] dominated(l_start, z) ==> dominated(labels@, z),
                            forall|jj: int|
                                i < jj < j ==> dominated(labels@, (#[trigger] sc[q as int][jj].0, sc[q as int][jj].1, w, (k + 1) as u8)),
                        decreases sched@.len() - j,
                    {
                        let (a_stop, a_arr, _ad) = sched[j];
                        let ghost l_j = labels@;
                        let y: WalkState = (a_stop, a_arr, w, k + 1);
                        proof {
                            assert(ride_edge(spec, stop, t, a_stop, a_arr)) by {
                                let _ = sc[q as int][i as int];
                                let _ = sc[q as int][j as int];
                            }
                            assert(wstep(spec, max, x, y));
                            lemma_wreach_step(spec, origins, tau, max, x, y);
                        }
                        insert_step(labels, queue, y, Ghost(spec), Ghost(origins), Ghost(tau), Ghost(max), Ghost(Some(x)));
                        proof {
                            assert forall|jj: int|
                                i < jj < j + 1 implies dominated(labels@, (#[trigger] sc[q as int][jj].0, sc[q as int][jj].1, w, (k + 1) as u8)) by {
                                if jj < j {
                                    assert(dominated(l_j, (sc[q as int][jj].0, sc[q as int][jj].1, w, (k + 1) as u8)));
                                }
                            }
                        }
                        j = j + 1;
                    }
                }
                proof {
                    assert forall|kk: int, ii: int, jj: int|
                        #![trigger sc[kk][ii], sc[kk][jj]]
                        (0 <= kk < q || (kk == q && 0 <= ii < i + 1)) && 0 <= ii < jj < sc[kk].len() && sc[kk][ii].0 == stop
                            && sc[kk][ii].2 >= t implies dominated(labels@, (sc[kk][jj].0, sc[kk][jj].1, w, (k + 1) as u8)) by {
                        if !(kk == q && ii == i) {
                            assert(dominated(l_i, (sc[kk][jj].0, sc[kk][jj].1, w, (k + 1) as u8)));
                        }
                    }
                }
                i = i + 1;
            }
            q = q + 1;
        }
    }
    proof {
        let l = labels@;
        assert(closed_state(spec, max, l, x)) by {
            reveal(closed_state);
            assert forall|y: WalkState| #[trigger] wstep(spec, max, x, y) implies dominated(l, y) by {
                if hop(spec, x.0, x.1, y.0, y.1) && y.2 == sat_add16(x.2, walk_secs(spec, x.0, y.0)) && y.3 == x.3 {
                    assert(dominated(l_walked, y));
                } else {
                    let (kk, ii, jj) = choose|kk: int, ii: int, jj: int|
                        #![trigger sc[kk][ii], sc[kk][jj]]
                        0 <= kk < sc.len() && 0 <= ii < jj < sc[kk].len() && sc[kk][ii].0 == stop && sc[kk][ii].2 >= t && sc[kk][jj].0
                            == y.0 && sc[kk][jj].1 == y.1;
                    assert(prep.trips@[kk]@ == sc[kk]);
                    assert(y == (sc[kk][jj].0, sc[kk][jj].1, w, (k + 1) as u8));
                }
            }
        }
        lemma_release(spec, origins, tau, max, l, queue@, x);
    }
}

/// A finished search covers every state along a path.
proof fn lemma_wcomplete_path(
    spec: NetworkSpec,
    origins: Seq<(u8, u16)>,
    tau: u16,
    max: u8,
    l: Seq<WalkState>,
    p: Seq<WalkState>,
    i: int,
)
    requires
        wsearch_inv(spec, origins, tau, max, l, Seq::empty(), None),
        forall|y: WalkState| #[trigger] seed(origins, tau, y) ==> dominated(l, y),
        wpath(spec, origins, tau, max, p),
        0 <= i < p.len(),
    ensures
        dominated(l, p[i]),
    decreases i,
{
    if i == 0 {
        assert(seed(origins, tau, p[0]));
    } else {
        lemma_wcomplete_path(spec, origins, tau, max, l, p, i - 1);
        assert(wstep_ok(spec, max, p, i - 1));
        let a = p[i - 1];
        let y = p[i];
        let j = choose|j: int| 0 <= j < l.len() && covers_state(#[trigger] l[j], a);
        let b = l[j];
        assert(!Seq::<WalkState>::empty().contains(b));
        assert(closed_state(spec, max, l, b));
        reveal(closed_state);
        if hop(spec, a.0, a.1, y.0, y.1) && y.2 == sat_add16(a.2, walk_secs(spec, a.0, y.0)) && y.3 == a.3 {
            let y2: WalkState = (y.0, y.1, sat_add16(b.2, walk_secs(spec, b.0, y.0)), b.3);
            assert(wstep(spec, max, b, y2));
            assert(dominated(l, y2));
            let e = choose|e: int| 0 <= e < l.len() && covers_state(#[trigger] l[e], y2);
            assert(covers_state(l[e], y));
        } else {
            let y2: WalkState = (y.0, y.1, b.2, (b.3 + 1) as u8);
            assert(wstep(spec, max, b, y2));
            assert(dominated(l, y2));
            let e = choose|e: int| 0 <= e < l.len() && covers_state(#[trigger] l[e], y2);
            assert(covers_state(l[e], y));
        }
    }
}

/// A finished search covers every reachable state.
proof fn lemma_wcomplete(spec: NetworkSpec, origins: Seq<(u8, u16)>, tau: u16, max: u8, l: Seq<WalkState>, y: WalkState)
    requires
        wsearch_inv(spec, origins, tau, max, l, Seq::empty(), None),
        forall|z: WalkState| #[trigger] seed(origins, tau, z) ==> dominated(l, z),
        wreach(spec, origins, tau, max, y),
    ensures
        dominated(l, y),
{
    reveal(wreach);
    let p = choose|p: Seq<WalkState>| #[trigger] wpath(spec, origins, tau, max, p) && p.last() == y;
    lemma_wcomplete_path(spec, origins, tau, max, l, p, p.len() - 1);
}

/// The labels of a finished search are exactly the minimal reachable
/// states.
proof fn lemma_labels_minimal(spec: NetworkSpec, origins: Seq<(u8, u16)>, tau: u16, max: u8, l: Seq<WalkState>, z: WalkState)
    requires
        wsearch_inv(spec, origins, tau, max, l, Seq::empty(), None),
        forall|y: WalkState| #[trigger] seed(origins, tau, y) ==> dominated(l, y),
    ensures
        l.contains(z) <==> wmin(spec, origins, tau, max, z),
{
    if l.contains(z) {
        let j = choose|j: int| 0 <= j < l.len() && l[j] == z;
        assert(wreach(spec, origins, tau, max, l[j]));
        if exists|y: WalkState| #[trigger] wreach(spec, origins, tau, max, y) && y != z && covers_state(y, z) {
            let y = choose|y: WalkState| #[trigger] wreach(spec, origins, tau, max, y) && y != z && covers_state(y, z);
            lemma_wcomplete(spec, origins, tau, max, l, y);
            let e = choose|e: int| 0 <= e < l.len() && covers_state(#[trigger] l[e], y);
            assert(covers_state(l[e], l[j]));
        }
    }
    if wmin(spec, origins, tau, max, z) {
        lemma_wcomplete(spec, origins, tau, max, l, z);
        let e = choose|e: int| 0 <= e < l.len() && covers_state(#[trigger] l[e], z);
        assert(wreach(spec, origins, tau, max, l[e]));
        assert(l[e] == z);
    }
}

/// Whether `y` is one of `labels`.
fn has_label(labels: &Vec<WalkState>, y: WalkState) -> (r: bool)
    ensures
        r == labels@.contains(y),
{
    let mut j: usize = 0;
    while j < labels.len()
        invariant
            j <= labels@.len(),
            forall|i: int| 0 <= i < j ==> labels@[i] != y,
        decreases labels@.len() - j,
    {
        let l = labels[j];
        if l.0 == y.0 && l.1 == y.1 && l.2 == y.2 && l.3 == y.3 {
            assert(labels@[j as int] == y);
            return true;
        }
        j = j + 1;
    }
    false
}

/// The minimal reachable states: from every origin, walks and rides are
/// taken until nothing new is left, keeping per stop and time only the
/// `(walking time, trips)` pairs no other pair matches or beats.
pub(crate) fn search_labels(
    prep: &Prep,
    origins: &[(u8, u16)],
    tau: u16,
    max_trips: u8,
    Ghost(spec): Ghost<NetworkSpec>,
    Ghost(ps): Ghost<u8>,
) -> (labels: Vec<WalkState>)
    requires
        prep.describes(spec, ps, tau),
    ensures
        forall|z: WalkState| #[trigger] labels@.contains(z) <==> wmin(spec, origins@, tau, max_trips, z),
        forall|j: int| 0 <= j < labels@.len() ==> wreach(spec, origins@, tau, max_trips, #[trigger] labels@[j]),
        forall|y: WalkState| #[trigger] wreach(spec, origins@, tau, max_trips, y) ==> dominated(labels@, y),
{
    let ghost org = origins@;
    let ghost max = max_trips;
    let mut labels: Vec<WalkState> = Vec::new();
    let mut queue: Vec<WalkState> = Vec::new();
    let mut o: usize = 0;
    while o < origins.len()
        invariant
            o <= origins@.len(),
            org == origins@,
            max == max_trips,
            wsearch_inv(spec, org, tau, max, labels@, queue@, None),
            forall|i: int| 0 <= i < o ==> dominated(labels@, (#[trigger] org[i].0, sat_add16(tau, org[i].1), 0u16, 0u8)),
        decreases origins@.len() - o,
    {
        let (stop, walk) = origins[o];
        let y: WalkState = (stop, tau.saturating_add(walk), 0, 0);
        let ghost l0 = labels@;
        proof {
            reveal(wreach);
            assert(seed(org, tau, y)) by {
                assert(y == (org[o as int].0, sat_add16(tau, org[o as int].1), 0u16, 0u8));
            }
            let p = seq![y];
            assert(wpath(spec, org, tau, max, p));
            assert(p.last() == y);
        }
        insert_step(&mut labels, &mut queue, y, Ghost(spec), Ghost(org), Ghost(tau), Ghost(max), Ghost(None));
        proof {
            assert forall|i: int| 0 <= i < o + 1 implies dominated(labels@, (#[trigger] org[i].0, sat_add16(tau, org[i].1), 0u16, 0u8)) by {
                if i < o {
                    assert(dominated(l0, (org[i].0, sat_add16(tau, org[i].1), 0u16, 0u8)));
                }
            }
        }
        o = o + 1;
    }
    proof {
        lemma_tokens_bound(labels@);
    }
    while queue.len() > 0
        invariant
            org == origins@,
            max == max_trips,
            prep.describes(spec, ps, tau),
            wsearch_inv(spec, org, tau, max, labels@, queue@, None),
            forall|y: WalkState| #[trigger] seed(org, tau, y) ==> dominated(labels@, y),
        decreases queue@.len() + 2 * (281474976710656 - tokens(labels@).len()),
    {
        proof {
            lemma_tokens_bound(labels@);
        }
        let ghost q0 = queue@;
        let ghost l0 = labels@;
        let x = queue.pop().unwrap();
        proof {
            assert(q0 == queue@.push(x));
            assert forall|z: WalkState| q0.contains(z) && z != x implies #[trigger] queue@.contains(z) by {
                let i = choose|i: int| 0 <= i < q0.len() && q0[i] == z;
                assert(queue@[i] == z);
            }
        }
        if has_label(&labels, x) {
            proof {
                let j = choose|j: int| 0 <= j < labels@.len() && labels@[j] == x;
                assert(wreach(spec, org, tau, max, labels@[j]));
            }
            expand(prep, &mut labels, &mut queue, x, max_trips, Ghost(spec), Ghost(org), Ghost(tau), Ghost(ps));
            proof {
                assert forall|y: WalkState| #[trigger] seed(org, tau, y) implies dominated(labels@, y) by {
                    assert(dominated(l0, y));
                }
            }
        } else {
            proof {
                assert forall|j: int|
                    0 <= j < labels@.len() && None::<WalkState> != Some(#[trigger] labels@[j]) implies queue@.contains(labels@[j])
                        || closed_state(spec, max, labels@, labels@[j]) by {
                    assert(labels@.contains(labels@[j]));
                    if q0.contains(labels@[j]) {
                        assert(labels@[j] != x);
                    }
                }
            }
        }
        proof {
            lemma_tokens_bound(labels@);
        }
    }
    proof {
        assert(queue@ =~= Seq::<WalkState>::empty());
        assert forall|z: WalkState| #[trigger] labels@.contains(z) <==> wmin(spec, org, tau, max, z) by {
            lemma_labels_minimal(spec, org, tau, max, labels@, z);
        }
        assert forall|y: WalkState| #[trigger] wreach(spec, org, tau, max, y) implies dominated(labels@, y) by {
            lemma_wcomplete(spec, org, tau, max, labels@, y);
        }
    }
    labels
}

// ---------------------------------------------------------------------
// The threshold and the per-target fronts
// ---------------------------------------------------------------------

/// Some entry of `th` is at or before `t` and at or under `w`.
pub open spec fn th_covers(th: Seq<(u16, u16)>, t: u16, w: u16) -> bool {
    exists|e: int| 0 <= e < th.len() && (#[trigger] th[e]).0 <= t && th[e].1 <= w
}

/// `c` is the effective arrival and walk, at target `i`, of a trip-free
/// label at that target's stop.
pub open spec fn th_cand(labels: Seq<WalkState>, targets: Seq<(u8, u16)>, c: (u16, u16)) -> bool {
    exists|i: int, j: int|
        0 <= i < targets.len() && 0 <= j < labels.len() && (#[trigger] labels[j]).0 == (#[trigger] targets[i]).0
            && labels[j].3 == 0 && c == (sat_add16(labels[j].1, targets[i].1), sat_add16(labels[j].2, targets[i].1))
}

/// Whether some entry of `th` is at or before `t` and at or under `w`.
fn covers_threshold(th: &Vec<(u16, u16)>, t: u16, w: u16) -> (r: bool)
    ensures
        r == th_covers(th@, t, w),
{
    let mut e: usize = 0;
    while e < th.len()
        invariant
            e <= th@.len(),
            forall|i: int| 0 <= i < e ==> !((#[trigger] th@[i]).0 <= t && th@[i].1 <= w),
        decreases th@.len() - e,
    {
        let x = th[e];
        if x.0 <= t && x.1 <= w {
            assert(th@[e as int].0 <= t);
            return true;
        }
        e = e + 1;
    }
    false
}

/// Adds `c` to `th` unless an entry covers it, dropping the entries it
/// covers.
fn threshold_insert(th: &mut Vec<(u16, u16)>, c: (u16, u16))
    ensures
        forall|z: (u16, u16)| #[trigger] final(th)@.contains(z) ==> old(th)@.contains(z) || z == c,
        forall|t: u16, w: u16| #[trigger] th_covers(old(th)@, t, w) ==> th_covers(final(th)@, t, w),
        th_covers(final(th)@, c.0, c.1),
{
    if covers_threshold(th, c.0, c.1) {
        return;
    }
    let ghost t0 = th@;
    let mut kept: Vec<(u16, u16)> = Vec::new();
    let mut j: usize = 0;
    while j < th.len()
        invariant
            j <= th@.len(),
            th@ == t0,
            forall|i: int| 0 <= i < kept@.len() ==> t0.contains(#[trigger] kept@[i]),
            forall|i: int| 0 <= i < j && !(c.0 <= t0[i].0 && c.1 <= t0[i].1) ==> kept@.contains(#[trigger] t0[i]),
        decreases th@.len() - j,
    {
        let e = th[j];
        let ghost k0 = kept@;
        if !(c.0 <= e.0 && c.1 <= e.1) {
            kept.push(e);
        }
        proof {
            assert forall|i: int| 0 <= i < kept@.len() implies t0.contains(#[trigger] kept@[i]) by {
                if i < k0.len() {
                    assert(kept@[i] == k0[i]);
                } else {
                    assert(t0[j as int] == kept@[i]);
                }
            }
            assert forall|i: int| 0 <= i < j + 1 && !(c.0 <= t0[i].0 && c.1 <= t0[i].1) implies kept@.contains(#[trigger] t0[i]) by {
                if i < j {
                    let i2 = choose|i2: int| 0 <= i2 < k0.len() && k0[i2] == t0[i];
                    assert(kept@[i2] == t0[i]);
                } else {
                    assert(kept@[kept@.len() - 1] == t0[i]);
                }
            }
        }
        j = j + 1;
    }
    let ghost k1 = kept@;
    kept.push(c);
    *th = kept;
    proof {
        let f = th@;
        assert forall|z: (u16, u16)| #[trigger] f.contains(z) implies t0.contains(z) || z == c by {
            let i = choose|i: int| 0 <= i < f.len() && f[i] == z;
            if i < k1.len() {
                assert(k1[i] == z);
            }
        }
        assert(f[f.len() - 1] == c);
        assert forall|t: u16, w: u16| #[trigger] th_covers(t0, t, w) implies th_covers(f, t, w) by {
            let e = choose|e: int| 0 <= e < t0.len() && (#[trigger] t0[e]).0 <= t && t0[e].1 <= w;
            if c.0 <= t0[e].0 && c.1 <= t0[e].1 {
                assert(f[f.len() - 1].0 <= t);
            } else {
                assert(k1.contains(t0[e]));
                let i = choose|i: int| 0 <= i < k1.len() && k1[i] == t0[e];
                assert(f[i] == t0[e]);
            }
        }
        assert(f[f.len() - 1].0 <= c.0);
    }
}

/// The threshold: the Pareto front of the effective arrival and walk of
/// every trip-free label at some target's stop.
fn build_threshold(labels: &Vec<WalkState>, targets: &[(u8, u16)]) -> (th: Vec<(u16, u16)>)
    ensures
        forall|z: (u16, u16)| #[trigger] th@.contains(z) ==> th_cand(labels@, targets@, z),
        forall|c: (u16, u16)| #[trigger] th_cand(labels@, targets@, c) ==> th_covers(th@, c.0, c.1),
{
    let ghost ls = labels@;
    let ghost ts = targets@;
    let mut th: Vec<(u16, u16)> = Vec::new();
    let mut i: usize = 0;
    while i < targets.len()
        invariant
            i <= ts.len(),
            ls == labels@,
            ts == targets@,
            forall|z: (u16, u16)| #[trigger] th@.contains(z) ==> th_cand(ls, ts, z),
            forall|a: int, b: int|
                0 <= a < i && 0 <= b < ls.len() && (#[trigger] ls[b]).0 == (#[trigger] ts[a]).0 && ls[b].3 == 0 ==> th_covers(
                    th@,
                    sat_add16(ls[b].1, ts[a].1),
                    sat_add16(ls[b].2, ts[a].1),
                ),
        decreases ts.len() - i,
    {
        let (target_stop, target_walk) = targets[i];
        let mut j: usize = 0;
        while j < labels.len()
            invariant
                i < ts.len(),
                j <= ls.len(),
                ls == labels@,
                ts == targets@,
                (target_stop, target_walk) == ts[i as int],
                forall|z: (u16, u16)| #[trigger] th@.contains(z) ==> th_cand(ls, ts, z),
                forall|a: int, b: int|
                    ((0 <= a < i && 0 <= b < ls.len()) || (a == i && 0 <= b < j)) && (#[trigger] ls[b]).0 == (#[trigger] ts[a]).0
                        && ls[b].3 == 0 ==> th_covers(th@, sat_add16(ls[b].1, ts[a].1), sat_add16(ls[b].2, ts[a].1)),
            decreases ls.len() - j,
        {
            let (s, t, w, k) = labels[j];
            let ghost th0 = th@;
            if s == target_stop && k == 0 {
                let c = (t.saturating_add(target_walk), w.saturating_add(target_walk));
                proof {
                    assert(th_cand(ls, ts, c)) by {
                        assert(ls[j as int].0 == ts[i as int].0);
                    }
                }
                threshold_insert(&mut th, c);
            }
            proof {
                assert forall|z: (u16, u16)| #[trigger] th@.contains(z) implies th_cand(ls, ts, z) by {
                    if th0.contains(z) {
                    }
                }
                assert forall|a: int, b: int|
                    ((0 <= a < i && 0 <= b < ls.len()) || (a == i && 0 <= b < j + 1)) && (#[trigger] ls[b]).0 == (#[trigger] ts[a]).0
                        && ls[b].3 == 0 implies th_covers(th@, sat_add16(ls[b].1, ts[a].1), sat_add16(ls[b].2, ts[a].1)) by {
                    if !(a == i && b == j) {
                        assert(th_covers(th0, sat_add16(ls[b].1, ts[a].1), sat_add16(ls[b].2, ts[a].1)));
                    }
                }
            }
            j = j + 1;
        }
        i = i + 1;
    }
    proof {
        assert forall|c: (u16, u16)| #[trigger] th_cand(ls, ts, c) implies th_covers(th@, c.0, c.1) by {
            let (a, b) = choose|a: int, b: int|
                0 <= a < ts.len() && 0 <= b < ls.len() && (#[trigger] ls[b]).0 == (#[trigger] ts[a]).0 && ls[b].3 == 0 && c == (
                sat_add16(ls[b].1, ts[a].1), sat_add16(ls[b].2, ts[a].1));
        }
    }
    th
}

/// `c` is a candidate at the target `(ts, tw)`: a label at `ts`, kept
/// unless it rides and the threshold covers it, by its effective arrival,
/// walk and trips.
pub open spec fn per_cand(labels: Seq<WalkState>, th: Seq<(u16, u16)>, ts: u8, tw: u16, c: (u16, u16, u8)) -> bool {
    exists|j: int|
        0 <= j < labels.len() && (#[trigger] labels[j]).0 == ts && !(labels[j].3 > 0 && th_covers(th, labels[j].1, labels[j].2))
            && c == (sat_add16(labels[j].1, tw), sat_add16(labels[j].2, tw), labels[j].3)
}

/// `c` has a trip and no other candidate at `(ts, tw)` matches or beats
/// it on every count.
pub open spec fn per_front(labels: Seq<WalkState>, th: Seq<(u16, u16)>, ts: u8, tw: u16, c: (u16, u16, u8)) -> bool {
    &&& per_cand(labels, th, ts, tw, c)
    &&& c.2 != 0
    &&& !exists|c2: (u16, u16, u8)| #[trigger] per_cand(labels, th, ts, tw, c2) && c2 != c && le3(c2, c)
}

/// Adds to `out` the front at the target `(ts, tw)`.
fn add_target_front(labels: &Vec<WalkState>, th: &Vec<(u16, u16)>, ts: u8, tw: u16, out: &mut BTreeSet<(u16, u16, u8)>)
    ensures
        forall|c: (u16, u16, u8)| #[trigger] final(out)@.contains(c) <==> old(out)@.contains(c) || per_front(labels@, th@, ts, tw, c),
{
    let ghost ls = labels@;
    let mut per: Vec<(u16, u16, u8)> = Vec::new();
    let mut j: usize = 0;
    while j < labels.len()
        invariant
            j <= ls.len(),
            ls == labels@,
            forall|c: (u16, u16, u8)| #[trigger] per@.contains(c) <==> exists|b: int|
                0 <= b < j && (#[trigger] ls[b]).0 == ts && !(ls[b].3 > 0 && th_covers(th@, ls[b].1, ls[b].2)) && c == (
                sat_add16(ls[b].1, tw), sat_add16(ls[b].2, tw), ls[b].3),
        decreases ls.len() - j,
    {
        let (s, t, w, k) = labels[j];
        let ghost p0 = per@;
        if s == ts {
            let hit = covers_threshold(th, t, w);
            if !(k > 0 && hit) {
                per.push((t.saturating_add(tw), w.saturating_add(tw), k));
            }
        }
        proof {
            assert forall|c: (u16, u16, u8)| #[trigger] per@.contains(c) <==> exists|b: int|
                0 <= b < j + 1 && (#[trigger] ls[b]).0 == ts && !(ls[b].3 > 0 && th_covers(th@, ls[b].1, ls[b].2)) && c == (
                sat_add16(ls[b].1, tw), sat_add16(ls[b].2, tw), ls[b].3) by {
                if per@.contains(c) && !p0.contains(c) {
                    assert(per@.last() == c);
                    assert(ls[j as int].0 == ts);
                }
                if p0.contains(c) {
                    let i = choose|i: int| 0 <= i < p0.len() && p0[i] == c;
                    assert(per@[i] == c);
                }
                if exists|b: int|
                    0 <= b < j + 1 && (#[trigger] ls[b]).0 == ts && !(ls[b].3 > 0 && th_covers(th@, ls[b].1, ls[b].2)) && c == (
                    sat_add16(ls[b].1, tw), sat_add16(ls[b].2, tw), ls[b].3) {
                    let b = choose|b: int|
                        0 <= b < j + 1 && (#[trigger] ls[b]).0 == ts && !(ls[b].3 > 0 && th_covers(th@, ls[b].1, ls[b].2)) && c == (
                        sat_add16(ls[b].1, tw), sat_add16(ls[b].2, tw), ls[b].3);
                    if b == j {
                        assert(per@[per@.len() - 1] == c);
                    } else {
                        assert(p0.contains(c));
                        let i = choose|i: int| 0 <= i < p0.len() && p0[i] == c;
                        assert(per@[i] == c);
                    }
                }
            }
        }
        j = j + 1;
    }
    proof {
        assert forall|c: (u16, u16, u8)| #[trigger] per@.contains(c) <==> per_cand(ls, th@, ts, tw, c) by {
        }
    }
    let ghost o0 = out@;
    let mut a: usize = 0;
    while a < per.len()
        invariant
            a <= per@.len(),
            ls == labels@,
            forall|c: (u16, u16, u8)| #[trigger] per@.contains(c) <==> per_cand(ls, th@, ts, tw, c),
            forall|c: (u16, u16, u8)| #[trigger] out@.contains(c) <==> o0.contains(c) || (per_front(ls, th@, ts, tw, c)
                && exists|x: int| 0 <= x < a && per@[x] == c),
        decreases per@.len() - a,
    {
        let c = per[a];
        let mut beaten = false;
        let mut b: usize = 0;
        while b < per.len()
            invariant
                a < per@.len(),
                b <= per@.len(),
                c == per@[a as int],
                beaten <==> exists|x: int| 0 <= x < b && per@[x] != c && le3(#[trigger] per@[x], c),
            decreases per@.len() - b,
        {
            let d = per[b];
            if !(d.0 == c.0 && d.1 == c.1 && d.2 == c.2) && d.0 <= c.0 && d.1 <= c.1 && d.2 <= c.2 {
                beaten = true;
            }
            proof {
                assert(beaten <==> exists|x: int| 0 <= x < b + 1 && per@[x] != c && le3(#[trigger] per@[x], c)) by {
                    if per@[b as int] != c && le3(per@[b as int], c) {
                        assert(d == per@[b as int]);
                    }
                }
            }
            b = b + 1;
        }
        let ghost out0 = out@;
        if c.2 != 0 && !beaten {
            out.insert(c);
        }
        proof {
            assert(per@.contains(c));
            assert(per_cand(ls, th@, ts, tw, c));
            assert(per_front(ls, th@, ts, tw, c) <==> (c.2 != 0 && !beaten)) by {
                if beaten {
                    let x = choose|x: int| 0 <= x < per@.len() && per@[x] != c && le3(#[trigger] per@[x], c);
                    assert(per@.contains(per@[x]));
                    assert(per_cand(ls, th@, ts, tw, per@[x]));
                } else {
                    if exists|c2: (u16, u16, u8)| #[trigger] per_cand(ls, th@, ts, tw, c2) && c2 != c && le3(c2, c) {
                        let c2 = choose|c2: (u16, u16, u8)| #[trigger] per_cand(ls, th@, ts, tw, c2) && c2 != c && le3(c2, c);
                        assert(per@.contains(c2));
                        let x = choose|x: int| 0 <= x < per@.len() && per@[x] == c2;
                        assert(le3(per@[x], c));
                    }
                }
            }
            assert forall|c3: (u16, u16, u8)| #[trigger] out@.contains(c3) <==> o0.contains(c3) || (per_front(ls, th@, ts, tw, c3)
                && exists|x: int| 0 <= x < a + 1 && per@[x] == c3) by {
                if c3 == c {
                    assert(per@[a as int] == c3);
                }
                if per_front(ls, th@, ts, tw, c3) && (exists|x: int| 0 <= x < a + 1 && per@[x] == c3) && c3 != c {
                    let x = choose|x: int| 0 <= x < a + 1 && per@[x] == c3;
                    assert(x < a);
                }
            }
        }
        a = a + 1;
    }
    proof {
        assert forall|c: (u16, u16, u8)| #[trigger] out@.contains(c) <==> o0.contains(c) || per_front(ls, th@, ts, tw, c) by {
            if per_front(ls, th@, ts, tw, c) {
                assert(per@.contains(c));
                let x = choose|x: int| 0 <= x < per@.len() && per@[x] == c;
            }
        }
    }
}

/// The threshold covers `(t, w)` exactly when a trip-free journey to some
/// target matches it.
proof fn lemma_threshold_equiv(
    spec: NetworkSpec,
    origins: Seq<(u8, u16)>,
    targets: Seq<(u8, u16)>,
    tau: u16,
    max: u8,
    labels: Seq<WalkState>,
    th: Seq<(u16, u16)>,
    t: u16,
    w: u16,
)
    requires
        forall|j: int| 0 <= j < labels.len() ==> wreach(spec, origins, tau, max, #[trigger] labels[j]),
        forall|y: WalkState| #[trigger] wreach(spec, origins, tau, max, y) ==> dominated(labels, y),
        forall|z: (u16, u16)| #[trigger] th.contains(z) ==> th_cand(labels, targets, z),
        forall|c: (u16, u16)| #[trigger] th_cand(labels, targets, c) ==> th_covers(th, c.0, c.1),
    ensures
        th_covers(th, t, w) <==> threshold_hit(spec, origins, targets, tau, max, t, w),
{
    if th_covers(th, t, w) {
        let e = choose|e: int| 0 <= e < th.len() && (#[trigger] th[e]).0 <= t && th[e].1 <= w;
        assert(th.contains(th[e]));
        assert(th_cand(labels, targets, th[e]));
        let (a, b) = choose|a: int, b: int|
            0 <= a < targets.len() && 0 <= b < labels.len() && (#[trigger] labels[b]).0 == (#[trigger] targets[a]).0
                && labels[b].3 == 0 && th[e] == (sat_add16(labels[b].1, targets[a].1), sat_add16(labels[b].2, targets[a].1));
        let l = labels[b];
        assert(wreach(spec, origins, tau, max, l));
        assert(l == (targets[a].0, l.1, l.2, 0u8));
        assert(wreach(spec, origins, tau, max, (targets[a].0, l.1, l.2, 0u8)));
    }
    if threshold_hit(spec, origins, targets, tau, max, t, w) {
        let (a, t0, w0) = choose|a: int, t0: u16, w0: u16|
            0 <= a < targets.len() && #[trigger] wreach(spec, origins, tau, max, (targets[a].0, t0, w0, 0u8)) && sat_add16(
                t0,
                targets[a].1,
            ) <= t && sat_add16(w0, targets[a].1) <= w;
        let y: WalkState = (targets[a].0, t0, w0, 0u8);
        assert(dominated(labels, y));
        let b = choose|b: int| 0 <= b < labels.len() && covers_state(#[trigger] labels[b], y);
        let c = (sat_add16(labels[b].1, targets[a].1), sat_add16(labels[b].2, targets[a].1));
        assert(th_cand(labels, targets, c)) by {
            assert(labels[b].0 == targets[a].0);
        }
        assert(th_covers(th, c.0, c.1));
        let e = choose|e: int| 0 <= e < th.len() && (#[trigger] th[e]).0 <= c.0 && th[e].1 <= c.1;
        assert(th[e].0 <= t && th[e].1 <= w);
    }
}

/// The candidates computed from the labels and the threshold at target
/// `i` are the candidates of the specification.
proof fn lemma_cand_equiv(
    spec: NetworkSpec,
    origins: Seq<(u8, u16)>,
    targets: Seq<(u8, u16)>,
    tau: u16,
    max: u8,
    labels: Seq<WalkState>,
    th: Seq<(u16, u16)>,
    i: int,
    c: (u16, u16, u8),
)
    requires
        0 <= i < targets.len(),
        forall|z: WalkState| #[trigger] labels.contains(z) <==> wmin(spec, origins, tau, max, z),
        forall|t: u16, w: u16| th_covers(th, t, w) <==> #[trigger] threshold_hit(spec, origins, targets, tau, max, t, w),
    ensures
        per_cand(labels, th, targets[i].0, targets[i].1, c) <==> walk_cand(spec, origins, targets, tau, max, i, c),
{
    if per_cand(labels, th, targets[i].0, targets[i].1, c) {
        let j = choose|j: int|
            0 <= j < labels.len() && (#[trigger] labels[j]).0 == targets[i].0 && !(labels[j].3 > 0 && th_covers(th, labels[j].1, labels[j].2))
                && c == (sat_add16(labels[j].1, targets[i].1), sat_add16(labels[j].2, targets[i].1), labels[j].3);
        let z = labels[j];
        assert(labels.contains(z));
        assert(wmin(spec, origins, tau, max, z));
        assert(th_covers(th, z.1, z.2) <==> threshold_hit(spec, origins, targets, tau, max, z.1, z.2));
    }
    if walk_cand(spec, origins, targets, tau, max, i, c) {
        let z = choose|z: WalkState|
            #[trigger] wmin(spec, origins, tau, max, z) && z.0 == targets[i].0 && (z.3 > 0 ==> !threshold_hit(
                spec,
                origins,
                targets,
                tau,
                max,
                z.1,
                z.2,
            )) && c == (sat_add16(z.1, targets[i].1), sat_add16(z.2, targets[i].1), z.3);
        assert(labels.contains(z));
        let j = choose|j: int| 0 <= j < labels.len() && labels[j] == z;
        assert(th_covers(th, z.1, z.2) <==> threshold_hit(spec, origins, targets, tau, max, z.1, z.2));
        assert(labels[j].0 == targets[i].0);
    }
}

/// Brute-force reference for the arrival-and-walk label: the Pareto front
/// of `(effective arrival, walking time, trips)` from any origin to any
/// target, leaving at `tau`, with at most `max_trips` trips.
///
/// The search runs on `(stop, arrival)` states, keeping per state the
/// `(walking time, trips)` pairs no other pair matches or beats. A closed
/// walk adds its time to both arrival (if that does not overflow) and
/// walking time (saturating); a ride of one trip from any of its stops to
/// any later stop moves the arrival and costs a trip. Labels without a
/// trip at the targets, after each target's walk, form a threshold: a
/// label with a trip that some threshold entry matches on raw arrival and
/// walking time is dropped. Per target, the labels at its stop give
/// candidates by effective arrival and walk; the result holds, per target,
/// the candidates with a trip that no other candidate of that target
/// matches or beats.
pub fn reference_solve_arrival_and_walk(
    spec: &NetworkSpec,
    origins: &[(u8, u16)],
    targets: &[(u8, u16)],
    tau: u16,
    max_trips: u8,
) -> (out: BTreeSet<(u16, u16, u8)>)
    requires
        preparable(*spec, 0),
        forall|i: int| 0 <= i < origins@.len() ==> (#[trigger] origins@[i]).0 < spec.n_stops,
    ensures
        out@ == reference_walk_front(*spec, origins@, targets@, tau, max_trips),
{
    let nominal_start = if origins.len() > 0 {
        origins[0].0
    } else {
        0
    };
    proof {
        if origins@.len() > 0 {
            assert(origins@[0].0 < spec.n_stops);
        }
    }
    let prep = Prep::build(spec, nominal_start, tau);
    let labels = search_labels(&prep, origins, tau, max_trips, Ghost(*spec), Ghost(nominal_start));
    let th = build_threshold(&labels, targets);
    let ghost org = origins@;
    let ghost tgs = targets@;
    let ghost max = max_trips;
    proof {
        assert forall|t: u16, w: u16| th_covers(th@, t, w) <==> #[trigger] threshold_hit(*spec, org, tgs, tau, max, t, w) by {
            lemma_threshold_equiv(*spec, org, tgs, tau, max, labels@, th@, t, w);
        }
    }
    let mut out: BTreeSet<(u16, u16, u8)> = BTreeSet::new();
    let mut i: usize = 0;
    while i < targets.len()
        invariant
            i <= tgs.len(),
            tgs == targets@,
            forall|c: (u16, u16, u8)| #[trigger] out@.contains(c) <==> exists|a: int|
                0 <= a < i && per_front(labels@, th@, #[trigger] tgs[a].0, tgs[a].1, c),
        decreases tgs.len() - i,
    {
        let (ts, tw) = targets[i];
        let ghost o0 = out@;
        add_target_front(&labels, &th, ts, tw, &mut out);
        proof {
            assert forall|c: (u16, u16, u8)| #[trigger] out@.contains(c) <==> exists|a: int|
                0 <= a < i + 1 && per_front(labels@, th@, #[trigger] tgs[a].0, tgs[a].1, c) by {
                if per_front(labels@, th@, ts, tw, c) {
                    assert(per_front(labels@, th@, tgs[i as int].0, tgs[i as int].1, c));
                }
                if exists|a: int| 0 <= a < i + 1 && per_front(labels@, th@, #[trigger] tgs[a].0, tgs[a].1, c) {
                    let a = choose|a: int| 0 <= a < i + 1 && per_front(labels@, th@, #[trigger] tgs[a].0, tgs[a].1, c);
                    if a == i {
                        assert(per_front(labels@, th@, ts, tw, c));
                    }
                }
            }
        }
        i = i + 1;
    }
    proof {
        let front = reference_walk_front(*spec, org, tgs, tau, max);
        assert forall|c: (u16, u16, u8)| #[trigger] out@.contains(c) <==> front.contains(c) by {
            assert forall|a: int| 0 <= a < tgs.len() implies (per_front(labels@, th@, #[trigger] tgs[a].0, tgs[a].1, c) <==> (
            walk_cand(*spec, org, tgs, tau, max, a, c) && c.2 != 0 && !exists|c2: (u16, u16, u8)|
                #[trigger] walk_cand(*spec, org, tgs, tau, max, a, c2) && c2 != c && le3(c2, c))) by {
                lemma_cand_equiv(*spec, org, tgs, tau, max, labels@, th@, a, c);
                assert forall|c2: (u16, u16, u8)| per_cand(labels@, th@, tgs[a].0, tgs[a].1, c2) <==> #[trigger] walk_cand(
                    *spec,
                    org,
                    tgs,
                    tau,
                    max,
                    a,
                    c2,
                ) by {
                    lemma_cand_equiv(*spec, org, tgs, tau, max, labels@, th@, a, c2);
                }
                let (ts, tw) = (tgs[a].0, tgs[a].1);
                if exists|c2: (u16, u16, u8)| #[trigger] per_cand(labels@, th@, ts, tw, c2) && c2 != c && le3(c2, c) {
                    let c2 = choose|c2: (u16, u16, u8)| #[trigger] per_cand(labels@, th@, ts, tw, c2) && c2 != c && le3(c2, c);
                    assert(walk_cand(*spec, org, tgs, tau, max, a, c2));
                }
                if exists|c2: (u16, u16, u8)| #[trigger] walk_cand(*spec, org, tgs, tau, max, a, c2) && c2 != c && le3(c2, c) {
                    let c2 = choose|c2: (u16, u16, u8)| #[trigger] walk_cand(*spec, org, tgs, tau, max, a, c2) && c2 != c && le3(c2, c);
                    assert(per_cand(labels@, th@, ts, tw, c2));
                }
            }
        }
        assert(out@ =~= front);
    }
    out
}

} // verus!
