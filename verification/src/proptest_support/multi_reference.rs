//! A brute-force reference for the single-criterion label with several
//! origins and targets: per target and trip count, the earliest arrival
//! reachable with at most that many trips, kept where it improves on one
//! trip fewer and beats the trip-free threshold, then filtered to the
//! Pareto front of `(effective arrival, trips)`.

use std::collections::BTreeSet;

use vstd::prelude::*;

use crate::proptest_support::reference::{preparable, Prep};
use crate::proptest_support::spec::{sat_add16, NetworkSpec};
use crate::proptest_support::walk_reference::{covers_state, dominated, search_labels, wreach, WalkState};

verus! {

broadcast use {vstd::std_specs::btree::group_btree_axioms, vstd::laws_cmp::group_laws_cmp};

/// Stop `s` can be reached at time `t` with at most `k` trips (under the
/// overall cap `max`).
pub open spec fn reached(spec: NetworkSpec, origins: Seq<(u8, u16)>, tau: u16, max: u8, s: u8, t: u16, k: u8) -> bool {
    exists|w: u16, k2: u8| k2 <= k && #[trigger] wreach(spec, origins, tau, max, (s, t, w, k2))
}

/// The earliest time `s` can be reached with at most `k` trips;
/// `u16::MAX` when it cannot be reached.
#[verifier::opaque]
pub open spec fn best_arrival_by(spec: NetworkSpec, origins: Seq<(u8, u16)>, tau: u16, max: u8, s: u8, k: u8) -> u16 {
    if exists|t: u16| #[trigger] reached(spec, origins, tau, max, s, t, k) {
        choose|t: u16|
            #[trigger] reached(spec, origins, tau, max, s, t, k) && forall|t2: u16|
                #[trigger] reached(spec, origins, tau, max, s, t2, k) ==> t <= t2
    } else {
        u16::MAX
    }
}

/// The trip-free threshold: the least trip-free arrival plus walk over
/// the targets (saturating), `u16::MAX` when there are none.
pub open spec fn trip_free_threshold(
    spec: NetworkSpec,
    origins: Seq<(u8, u16)>,
    tau: u16,
    max: u8,
    targets: Seq<(u8, u16)>,
) -> u16
    decreases targets.len(),
{
    if targets.len() == 0 {
        u16::MAX
    } else {
        let rest = trip_free_threshold(spec, origins, tau, max, targets.drop_last());
        let here = sat_add16(best_arrival_by(spec, origins, tau, max, targets.last().0, 0), targets.last().1);
        if here < rest {
            here
        } else {
            rest
        }
    }
}

/// Target `i` with `k` trips emits `c`: its earliest arrival with at most
/// `k` trips improves on `k - 1` trips and beats the trip-free threshold,
/// and `c` is that arrival plus the target's walk, with `k`.
pub open spec fn emits(
    spec: NetworkSpec,
    origins: Seq<(u8, u16)>,
    targets: Seq<(u8, u16)>,
    tau: u16,
    max: u8,
    i: int,
    k: int,
    c: (u16, u8),
) -> bool {
    let b = best_arrival_by(spec, origins, tau, max, targets[i].0, k as u8);
    &&& 0 <= i < targets.len()
    &&& 1 <= k <= max
    &&& b < best_arrival_by(spec, origins, tau, max, targets[i].0, (k - 1) as u8)
    &&& b < trip_free_threshold(spec, origins, tau, max, targets)
    &&& c == (sat_add16(b, targets[i].1), k as u8)
}

/// `c` is emitted by some target and trip count.
pub open spec fn emitted(
    spec: NetworkSpec,
    origins: Seq<(u8, u16)>,
    targets: Seq<(u8, u16)>,
    tau: u16,
    max: u8,
    c: (u16, u8),
) -> bool {
    exists|i: int, k: int| #[trigger] emits(spec, origins, targets, tau, max, i, k, c)
}

/// `a` comes before `b` when sorted by trips then arrival and is no later:
/// fewer trips arriving no later, or as many trips arriving earlier.
pub open spec fn beats(a: (u16, u8), b: (u16, u8)) -> bool {
    (a.1 < b.1 && a.0 <= b.0) || (a.1 == b.1 && a.0 < b.0)
}

/// The reference front: the emitted `(effective arrival, trips)` pairs
/// arriving before `u16::MAX` that no emitted pair beats.
pub open spec fn reference_trip_front(
    spec: NetworkSpec,
    origins: Seq<(u8, u16)>,
    targets: Seq<(u8, u16)>,
    tau: u16,
    max: u8,
) -> Set<(u16, u8)> {
    Set::new(
        |c: (u16, u8)|
            emitted(spec, origins, targets, tau, max, c) && c.0 < u16::MAX && !exists|c2: (u16, u8)|
                #[trigger] emitted(spec, origins, targets, tau, max, c2) && beats(c2, c),
    )
}

/// The earliest arrival at `s` with at most `k` trips among the minimal
/// states of a completed search.
fn best_from_labels(
    labels: &Vec<WalkState>,
    s: u8,
    k: u8,
    Ghost(spec): Ghost<NetworkSpec>,
    Ghost(origins): Ghost<Seq<(u8, u16)>>,
    Ghost(tau): Ghost<u16>,
    Ghost(max): Ghost<u8>,
) -> (r: u16)
    requires
        forall|j: int| 0 <= j < labels@.len() ==> wreach(spec, origins, tau, max, #[trigger] labels@[j]),
        forall|y: WalkState| #[trigger] wreach(spec, origins, tau, max, y) ==> dominated(labels@, y),
    ensures
        r == best_arrival_by(spec, origins, tau, max, s, k),
{
    let mut m: u16 = u16::MAX;
    let mut found = false;
    let mut j: usize = 0;
    while j < labels.len()
        invariant
            j <= labels@.len(),
            forall|a: int| 0 <= a < j && (#[trigger] labels@[a]).0 == s && labels@[a].3 <= k ==> m <= labels@[a].1,
            found ==> exists|a: int| 0 <= a < j && (#[trigger] labels@[a]).0 == s && labels@[a].3 <= k && labels@[a].1 == m,
            !found ==> m == u16::MAX && forall|a: int| 0 <= a < j ==> !((#[trigger] labels@[a]).0 == s && labels@[a].3 <= k),
        decreases labels@.len() - j,
    {
        let l = labels[j];
        if l.0 == s && l.3 <= k {
            if !found || l.1 < m {
                m = l.1;
            }
            found = true;
        }
        j = j + 1;
    }
    proof {
        reveal(best_arrival_by);
        assert forall|t: u16| #[trigger] reached(spec, origins, tau, max, s, t, k) implies m <= t && found by {
            let (w, k2) = choose|w: u16, k2: u8| k2 <= k && #[trigger] wreach(spec, origins, tau, max, (s, t, w, k2));
            assert(dominated(labels@, (s, t, w, k2)));
            let a = choose|a: int| 0 <= a < labels@.len() && covers_state(#[trigger] labels@[a], (s, t, w, k2));
            assert(labels@[a].0 == s && labels@[a].3 <= k);
        }
        if found {
            let a = choose|a: int| 0 <= a < labels@.len() && (#[trigger] labels@[a]).0 == s && labels@[a].3 <= k && labels@[a].1 == m;
            let l = labels@[a];
            assert(wreach(spec, origins, tau, max, l));
            assert(wreach(spec, origins, tau, max, (s, m, l.2, l.3)));
            assert(reached(spec, origins, tau, max, s, m, k));
            let t0 = choose|t: u16|
                #[trigger] reached(spec, origins, tau, max, s, t, k) && forall|t2: u16|
                    #[trigger] reached(spec, origins, tau, max, s, t2, k) ==> t <= t2;
            assert(t0 <= m);
        } else {
            assert(!exists|t: u16| #[trigger] reached(spec, origins, tau, max, s, t, k));
        }
    }
    m
}

/// The least trip-free arrival plus walk over `targets`.
fn threshold_from_labels(
    labels: &Vec<WalkState>,
    targets: &[(u8, u16)],
    Ghost(spec): Ghost<NetworkSpec>,
    Ghost(origins): Ghost<Seq<(u8, u16)>>,
    Ghost(tau): Ghost<u16>,
    Ghost(max): Ghost<u8>,
) -> (r: u16)
    requires
        forall|j: int| 0 <= j < labels@.len() ==> wreach(spec, origins, tau, max, #[trigger] labels@[j]),
        forall|y: WalkState| #[trigger] wreach(spec, origins, tau, max, y) ==> dominated(labels@, y),
    ensures
        r == trip_free_threshold(spec, origins, tau, max, targets@),
{
    let mut best: u16 = u16::MAX;
    let mut i: usize = 0;
    while i < targets.len()
        invariant
            i <= targets@.len(),
            forall|j: int| 0 <= j < labels@.len() ==> wreach(spec, origins, tau, max, #[trigger] labels@[j]),
            forall|y: WalkState| #[trigger] wreach(spec, origins, tau, max, y) ==> dominated(labels@, y),
            best == trip_free_threshold(spec, origins, tau, max, targets@.subrange(0, i as int)),
        decreases targets@.len() - i,
    {
        let (ts, tw) = targets[i];
        let b0 = best_from_labels(labels, ts, 0, Ghost(spec), Ghost(origins), Ghost(tau), Ghost(max));
        let here = b0.saturating_add(tw);
        proof {
            assert(targets@.subrange(0, i + 1).drop_last() =~= targets@.subrange(0, i as int));
            assert(targets@.subrange(0, i + 1).last() == (ts, tw));
        }
        if here < best {
            best = here;
        }
        i = i + 1;
    }
    assert(targets@.subrange(0, targets@.len() as int) =~= targets@);
    best
}

/// Whether `c` is one of `v`.
fn holds(v: &Vec<(u16, u8)>, c: (u16, u8)) -> (r: bool)
    ensures
        r == v@.contains(c),
{
    let mut j: usize = 0;
    while j < v.len()
        invariant
            j <= v@.len(),
            forall|a: int| 0 <= a < j ==> v@[a] != c,
        decreases v@.len() - j,
    {
        if v[j].0 == c.0 && v[j].1 == c.1 {
            assert(v@[j as int] == c);
            return true;
        }
        j = j + 1;
    }
    false
}

/// Whether some entry of `v` beats `c`.
fn beaten(v: &Vec<(u16, u8)>, c: (u16, u8)) -> (r: bool)
    ensures
        r == exists|a: int| 0 <= a < v@.len() && beats(#[trigger] v@[a], c),
{
    let mut j: usize = 0;
    while j < v.len()
        invariant
            j <= v@.len(),
            forall|a: int| 0 <= a < j ==> !beats(#[trigger] v@[a], c),
        decreases v@.len() - j,
    {
        let d = v[j];
        if (d.1 < c.1 && d.0 <= c.0) || (d.1 == c.1 && d.0 < c.0) {
            assert(beats(v@[j as int], c));
            return true;
        }
        j = j + 1;
    }
    false
}

/// The brute-force front for the single-criterion label: a search over
/// `(stop, time, trips)` from every origin at `tau` plus its walk, with
/// closed walks and whole trip segments as steps; per target and trip
/// count `k` in `1..=max_trips`, the earliest arrival with at most `k`
/// trips is emitted (plus the target's walk) where it improves on `k - 1`
/// trips and is below the trip-free threshold; the emitted pairs are then
/// filtered to the Pareto front of `(effective arrival, trips)`.
///
/// The network model has no inaccessible trips or stops and no pickup or
/// drop-off restrictions, so `require_wheelchair_accessible` changes
/// nothing here.
pub fn reference_solve(
    spec: &NetworkSpec,
    origins: &[(u8, u16)],
    targets: &[(u8, u16)],
    tau: u16,
    max_trips: u8,
    require_wheelchair_accessible: bool,
) -> (out: BTreeSet<(u16, u8)>)
    requires
        preparable(*spec, 0),
        forall|i: int| 0 <= i < origins@.len() ==> (#[trigger] origins@[i]).0 < spec.n_stops,
        forall|i: int| 0 <= i < targets@.len() ==> (#[trigger] targets@[i]).0 < spec.n_stops,
    ensures
        out@ == reference_trip_front(*spec, origins@, targets@, tau, max_trips),
{
    let nominal_start = if origins.len() > 0 {
        origins[0].0
    } else {
        0
    };
    proof {
        if origins@.len() > 0 {
            assert(origins@[0].0 < spec.n_stops);
        }
    }
    let prep = Prep::build(spec, nominal_start, tau);
    let labels = search_labels(&prep, origins, tau, max_trips, Ghost(*spec), Ghost(nominal_start));
    let ghost org = origins@;
    let ghost tgs = targets@;
    let ghost max = max_trips;
    let th = threshold_from_labels(&labels, targets, Ghost(*spec), Ghost(org), Ghost(tau), Ghost(max));
    let mut cands: Vec<(u16, u8)> = Vec::new();
    let mut i: usize = 0;
    while i < targets.len()
        invariant
            i <= tgs.len(),
            tgs == targets@,
            org == origins@,
            max == max_trips,
            th == trip_free_threshold(*spec, org, tau, max, tgs),
            forall|j: int| 0 <= j < labels@.len() ==> wreach(*spec, org, tau, max, #[trigger] labels@[j]),
            forall|y: WalkState| #[trigger] wreach(*spec, org, tau, max, y) ==> dominated(labels@, y),
            forall|c: (u16, u8)| #[trigger] cands@.contains(c) <==> exists|a: int, k: int|
                0 <= a < i && #[trigger] emits(*spec, org, tgs, tau, max, a, k, c),
        decreases tgs.len() - i,
    {
        let (ts, tw) = targets[i];
        let mut prev = best_from_labels(&labels, ts, 0, Ghost(*spec), Ghost(org), Ghost(tau), Ghost(max));
        let mut k: usize = 1;
        while k <= max_trips as usize
            invariant
                i < tgs.len(),
                tgs[i as int] == (ts, tw),
                1 <= k <= max_trips as int + 1,
                tgs == targets@,
                org == origins@,
                max == max_trips,
                th == trip_free_threshold(*spec, org, tau, max, tgs),
                prev == best_arrival_by(*spec, org, tau, max, ts, (k - 1) as u8),
                k <= 256,
                forall|j: int| 0 <= j < labels@.len() ==> wreach(*spec, org, tau, max, #[trigger] labels@[j]),
                forall|y: WalkState| #[trigger] wreach(*spec, org, tau, max, y) ==> dominated(labels@, y),
                forall|c: (u16, u8)| #[trigger] cands@.contains(c) <==> (exists|a: int, kk: int|
                    0 <= a < i && #[trigger] emits(*spec, org, tgs, tau, max, a, kk, c)) || (exists|kk: int|
                    1 <= kk < k && #[trigger] emits(*spec, org, tgs, tau, max, i as int, kk, c)),
            decreases max_trips as int + 1 - k,
        {
            let b = best_from_labels(&labels, ts, k as u8, Ghost(*spec), Ghost(org), Ghost(tau), Ghost(max));
            let ghost c0 = cands@;
            if b < prev && b < th {
                let c = (b.saturating_add(tw), k as u8);
                assert(emits(*spec, org, tgs, tau, max, i as int, k as int, c));
                if !holds(&cands, c) {
                    cands.push(c);
                }
            }
            proof {
                assert forall|c: (u16, u8)| #[trigger] cands@.contains(c) <==> (exists|a: int, kk: int|
                    0 <= a < i && #[trigger] emits(*spec, org, tgs, tau, max, a, kk, c)) || (exists|kk: int|
                    1 <= kk < k + 1 && #[trigger] emits(*spec, org, tgs, tau, max, i as int, kk, c)) by {
                    if cands@.contains(c) && !c0.contains(c) {
                        assert(c == (sat_add16(b, tw), k as u8));
                        assert(emits(*spec, org, tgs, tau, max, i as int, k as int, c));
                    }
                    if c0.contains(c) {
                        let q = choose|q: int| 0 <= q < c0.len() && c0[q] == c;
                        assert(cands@[q] == c);
                    }
                    if exists|kk: int| 1 <= kk < k + 1 && #[trigger] emits(*spec, org, tgs, tau, max, i as int, kk, c) {
                        let kk = choose|kk: int| 1 <= kk < k + 1 && #[trigger] emits(*spec, org, tgs, tau, max, i as int, kk, c);
                        if kk == k {
                            assert(b < prev && b < th);
                            if !c0.contains(c) {
                                assert(cands@[c0.len() as int] == c);
                            }
                        }
                    }
                }
            }
            prev = b;
            k = k + 1;
        }
        proof {
            assert forall|c: (u16, u8)| #[trigger] cands@.contains(c) <==> exists|a: int, kk: int|
                0 <= a < i + 1 && #[trigger] emits(*spec, org, tgs, tau, max, a, kk, c) by {
                if exists|a: int, kk: int| 0 <= a < i + 1 && #[trigger] emits(*spec, org, tgs, tau, max, a, kk, c) {
                    let (a, kk) = choose|a: int, kk: int| 0 <= a < i + 1 && #[trigger] emits(*spec, org, tgs, tau, max, a, kk, c);
                    if a == i {
                        assert(1 <= kk <= max_trips);
                    }
                }
            }
        }
        i = i + 1;
    }
    let mut out: BTreeSet<(u16, u8)> = BTreeSet::new();
    let mut j: usize = 0;
    while j < cands.len()
        invariant
            j <= cands@.len(),
            forall|c: (u16, u8)| #[trigger] out@.contains(c) <==> exists|a: int|
                0 <= a < j && cands@[a] == c && c.0 < u16::MAX && !exists|q: int| 0 <= q < cands@.len() && beats(#[trigger] cands@[q], c),
        decreases cands@.len() - j,
    {
        let c = cands[j];
        if c.0 < u16::MAX && !beaten(&cands, c) {
            out.insert(c);
        }
        proof {
            assert forall|d: (u16, u8)| #[trigger] out@.contains(d) <==> exists|a: int|
                0 <= a < j + 1 && cands@[a] == d && d.0 < u16::MAX && !exists|q: int| 0 <= q < cands@.len() && beats(#[trigger] cands@[q], d) by {
                if d == c && c.0 < u16::MAX && !(exists|q: int| 0 <= q < cands@.len() && beats(#[trigger] cands@[q], c)) {
                    assert(cands@[j as int] == d);
                }
            }
        }
        j = j + 1;
    }
    proof {
        let front = reference_trip_front(*spec, org, tgs, tau, max);
        assert forall|c: (u16, u8)| #[trigger] out@.contains(c) <==> front.contains(c) by {
            assert(cands@.contains(c) <==> emitted(*spec, org, tgs, tau, max, c));
            if out@.contains(c) {
                let a = choose|a: int| 0 <= a < j && cands@[a] == c && c.0 < u16::MAX && !exists|q: int| 0 <= q < cands@.len() && beats(#[trigger] cands@[q], c);
                assert(cands@.contains(c));
                if exists|c2: (u16, u8)| #[trigger] emitted(*spec, org, tgs, tau, max, c2) && beats(c2, c) {
                    let c2 = choose|c2: (u16, u8)| #[trigger] emitted(*spec, org, tgs, tau, max, c2) && beats(c2, c);
                    assert(cands@.contains(c2));
                    let q = choose|q: int| 0 <= q < cands@.len() && cands@[q] == c2;
                    assert(beats(cands@[q], c));
                }
            }
            if front.contains(c) {
                assert(cands@.contains(c));
                let a = choose|a: int| 0 <= a < cands@.len() && cands@[a] == c;
                if exists|q: int| 0 <= q < cands@.len() && beats(#[trigger] cands@[q], c) {
                    let q = choose|q: int| 0 <= q < cands@.len() && beats(#[trigger] cands@[q], c);
                    assert(cands@.contains(cands@[q]));
                    assert(emitted(*spec, org, tgs, tau, max, cands@[q]));
                }
            }
        }
        assert(out@ =~= front);
    }
    out
}

} // verus!
