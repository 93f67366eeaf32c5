//! The network description that property checks draw, the per-layer size
//! envelopes, the footpath closure, and the renderer that turns a
//! description into a [`SimpleTimetable`].

use vstd::prelude::*;

use crate::ids::{RouteIdx, StopIdx};
use crate::manual::{copy_vec, interned_stops, keys_ok, lemma_interned_stops_known, pair_key, SimpleTimetable};
use crate::time::{Duration, SecondOfDay};

verus! {

/// Top-level description of one generated network and query.
#[derive(Debug, Clone)]
pub struct NetworkSpec {
    /// Stops are `0..n_stops`.
    pub n_stops: u8,
    /// The routes.
    pub routes: Vec<RouteSpec>,
    /// Sparse direct footpaths; the renderer closes them transitively.
    pub footpaths: Vec<FootpathSpec>,
    /// The query.
    pub query: QuerySpec,
}

/// One route: an ordered stop sequence served by trips that share a
/// leg/dwell pattern length.
#[derive(Debug, Clone)]
pub struct RouteSpec {
    /// The stop sequence.
    pub stop_sequence: Vec<u8>,
    /// The trips, ordered by first departure.
    pub trips: Vec<TripSpec>,
}

/// One trip: times at each stop are prefix sums of dwells and legs from
/// `first_dep`.
#[derive(Debug, Clone)]
pub struct TripSpec {
    /// Arrival time at the first stop.
    pub first_dep: u16,
    /// One per consecutive stop pair.
    pub leg_durations: Vec<u16>,
    /// One per stop.
    pub dwell_times: Vec<u16>,
}

/// One direct footpath.
#[derive(Debug, Clone, Copy)]
pub struct FootpathSpec {
    /// Where the walk starts.
    pub from: u8,
    /// Where the walk ends.
    pub to: u8,
    /// Walking time in seconds.
    pub walk_time: u16,
}

/// The query: source, target, departure, maximum trip count.
#[derive(Debug, Clone, Copy)]
pub struct QuerySpec {
    /// Source stop.
    pub ps: u8,
    /// Target stop.
    pub pt: u8,
    /// Departure time.
    pub tau: u16,
    /// Maximum number of trips.
    pub max_transfers: u8,
}

/// Per-layer envelope sizes of generated networks.
#[derive(Debug, Clone, Copy)]
pub struct LayerBounds {
    /// Fewest stops.
    pub n_stops_min: u8,
    /// Most stops.
    pub n_stops_max: u8,
    /// Most routes.
    pub routes_max: u8,
    /// Most trips per route.
    pub trips_max: u8,
    /// Most footpaths.
    pub footpaths_max: u8,
    /// Longest stop sequence.
    pub stop_seq_max: u8,
    /// Whether footpaths are drawn at all.
    pub allow_footpaths: bool,
    /// Whether a route may visit a stop twice.
    pub allow_loops: bool,
}

/// Layer 1: small networks, no footpaths, no loops.
pub fn layer1_bounds() -> (b: LayerBounds)
    ensures
        b == (LayerBounds {
            n_stops_min: 2,
            n_stops_max: 4,
            routes_max: 2,
            trips_max: 2,
            footpaths_max: 0,
            stop_seq_max: 4,
            allow_footpaths: false,
            allow_loops: false,
        }),
{
    LayerBounds {
        n_stops_min: 2,
        n_stops_max: 4,
        routes_max: 2,
        trips_max: 2,
        footpaths_max: 0,
        stop_seq_max: 4,
        allow_footpaths: false,
        allow_loops: false,
    }
}

/// Layer 2: adds footpaths.
pub fn layer2_bounds() -> (b: LayerBounds)
    ensures
        b == (LayerBounds {
            n_stops_min: 2,
            n_stops_max: 5,
            routes_max: 3,
            trips_max: 2,
            footpaths_max: 4,
            stop_seq_max: 4,
            allow_footpaths: true,
            allow_loops: false,
        }),
{
    LayerBounds {
        n_stops_min: 2,
        n_stops_max: 5,
        routes_max: 3,
        trips_max: 2,
        footpaths_max: 4,
        stop_seq_max: 4,
        allow_footpaths: true,
        allow_loops: false,
    }
}

/// Layer 3: adds loop routes and larger networks.
pub fn layer3_bounds() -> (b: LayerBounds)
    ensures
        b == (LayerBounds {
            n_stops_min: 2,
            n_stops_max: 6,
            routes_max: 4,
            trips_max: 3,
            footpaths_max: 6,
            stop_seq_max: 4,
            allow_footpaths: true,
            allow_loops: true,
        }),
{
    LayerBounds {
        n_stops_min: 2,
        n_stops_max: 6,
        routes_max: 4,
        trips_max: 3,
        footpaths_max: 6,
        stop_seq_max: 4,
        allow_footpaths: true,
        allow_loops: true,
    }
}

/// `a + b` on `u16`, saturating.
pub open spec fn sat_add16(a: u16, b: u16) -> u16 {
    if a + b <= u16::MAX {
        (a + b) as u16
    } else {
        u16::MAX
    }
}

/// The better of a known walk and a candidate walk.
pub open spec fn min_walk(cur: Option<u16>, w: u16) -> Option<u16> {
    match cur {
        Some(d) => Some(if d <= w { d } else { w }),
        None => Some(w),
    }
}

/// The `n × n` matrix of shortest direct walks among the first `m`
/// footpaths; self-loops and out-of-range stops are ignored.
pub open spec fn direct_walks(n: nat, fps: Seq<FootpathSpec>, m: nat) -> Seq<Seq<Option<u16>>>
    decreases m,
{
    if m == 0 || m > fps.len() {
        Seq::new(n, |i: int| Seq::new(n, |j: int| None::<u16>))
    } else {
        let d = direct_walks(n, fps, (m - 1) as nat);
        let fp = fps[m - 1];
        let (i, j) = (fp.from as int, fp.to as int);
        if i == j || i >= n || j >= n {
            d
        } else {
            d.update(i, d[i].update(j, min_walk(d[i][j], fp.walk_time)))
        }
    }
}

/// Entry `(i, j)` of `d` after allowing walks through stop `k`.
pub open spec fn via(d: Seq<Seq<Option<u16>>>, k: int, i: int, j: int) -> Option<u16> {
    if i == j {
        d[i][j]
    } else {
        match (d[i][k], d[k][j]) {
            (Some(a), Some(b)) => min_walk(d[i][j], sat_add16(a, b)),
            _ => d[i][j],
        }
    }
}

/// `d` after allowing walks through stop `k`.
pub open spec fn relax_through(d: Seq<Seq<Option<u16>>>, k: int) -> Seq<Seq<Option<u16>>> {
    Seq::new(d.len(), |i: int| Seq::new(d[i].len(), |j: int| via(d, k, i, j)))
}

/// `d` after allowing walks through stops `0..k`, in that order.
pub open spec fn closed_through(d: Seq<Seq<Option<u16>>>, k: nat) -> Seq<Seq<Option<u16>>>
    decreases k,
{
    if k == 0 {
        d
    } else {
        relax_through(closed_through(d, (k - 1) as nat), k - 1)
    }
}

/// The transitive min-plus closure of the spec's footpaths.
pub open spec fn closed_walks(n: nat, fps: Seq<FootpathSpec>) -> Seq<Seq<Option<u16>>> {
    closed_through(direct_walks(n, fps, fps.len()), n)
}

/// `d` is an `n × n` matrix with no walk on the diagonal.
pub open spec fn square_no_diag(d: Seq<Seq<Option<u16>>>, n: nat) -> bool {
    &&& d.len() == n
    &&& forall|i: int| 0 <= i < n ==> (#[trigger] d[i]).len() == n
    &&& forall|i: int| 0 <= i < n ==> (#[trigger] d[i])[i] is None
}

proof fn lemma_direct_shape(n: nat, fps: Seq<FootpathSpec>, m: nat)
    ensures
        square_no_diag(direct_walks(n, fps, m), n),
    decreases m,
{
    if m > 0 && m <= fps.len() {
        lemma_direct_shape(n, fps, (m - 1) as nat);
        let d = direct_walks(n, fps, (m - 1) as nat);
        let fp = fps[m - 1];
        let (i, j) = (fp.from as int, fp.to as int);
        if !(i == j || i >= n || j >= n) {
            let e = direct_walks(n, fps, m);
            assert forall|a: int| 0 <= a < n implies (#[trigger] e[a])[a] is None by {
                if a == i {
                    assert(e[a] == d[i].update(j, min_walk(d[i][j], fp.walk_time)));
                } else {
                    assert(e[a] == d[a]);
                }
            }
        }
    }
}

proof fn lemma_closed_shape(d: Seq<Seq<Option<u16>>>, n: nat, k: nat)
    requires
        square_no_diag(d, n),
    ensures
        square_no_diag(closed_through(d, k), n),
    decreases k,
{
    if k > 0 {
        lemma_closed_shape(d, n, (k - 1) as nat);
        let p = closed_through(d, (k - 1) as nat);
        let q = closed_through(d, k);
        assert forall|i: int| 0 <= i < n implies (#[trigger] q[i]).len() == n && q[i][i] is None by {
            assert(q[i] == Seq::new(p[i].len(), |j: int| via(p, k - 1, i, j)));
        }
    }
}

/// The closed walk matrix is square with an empty diagonal.
pub proof fn lemma_walks_square(n: nat, fps: Seq<FootpathSpec>)
    ensures
        square_no_diag(closed_walks(n, fps), n),
{
    lemma_direct_shape(n, fps, fps.len());
    lemma_closed_shape(direct_walks(n, fps, fps.len()), n, n);
}

/// Shortest walks between all stop pairs: `m[i][j]` is the shortest walk
/// time from `i` to `j` over chains of the spec's footpaths (saturating at
/// `u16::MAX`), or `None` when `i == j` or no chain exists.
pub fn close_footpaths(spec: &NetworkSpec) -> (m: Vec<Vec<Option<u16>>>)
    ensures
        m@.len() == spec.n_stops,
        forall|i: int| 0 <= i < spec.n_stops ==> (#[trigger] m@[i])@ == closed_walks(
            spec.n_stops as nat,
            spec.footpaths@,
        )[i],
{
    let n = spec.n_stops as usize;
    let ghost fps = spec.footpaths@;
    let mut dist: Vec<Vec<Option<u16>>> = Vec::new();
    let mut a: usize = 0;
    while a < n
        invariant
            a <= n,
            n == spec.n_stops,
            dist@.len() == a,
            forall|i: int| 0 <= i < a ==> (#[trigger] dist@[i])@ == direct_walks(n as nat, fps, 0)[i],
        decreases n - a,
    {
        let mut row: Vec<Option<u16>> = Vec::new();
        let mut b: usize = 0;
        while b < n
            invariant
                b <= n,
                row@ == Seq::new(b as nat, |j: int| None::<u16>),
            decreases n - b,
        {
            row.push(None);
            assert(row@ =~= Seq::new((b + 1) as nat, |j: int| None::<u16>));
            b = b + 1;
        }
        assert(row@ =~= direct_walks(n as nat, fps, 0)[a as int]);
        dist.push(row);
        a = a + 1;
    }
    let mut f: usize = 0;
    while f < spec.footpaths.len()
        invariant
            f <= fps.len(),
            fps == spec.footpaths@,
            n == spec.n_stops,
            dist@.len() == n,
            forall|i: int| 0 <= i < n ==> (#[trigger] dist@[i])@ == direct_walks(n as nat, fps, f as nat)[i],
        decreases fps.len() - f,
    {
        proof {
            lemma_direct_shape(n as nat, fps, f as nat);
        }
        let fp = spec.footpaths[f];
        let i = fp.from as usize;
        let j = fp.to as usize;
        let ghost d = direct_walks(n as nat, fps, f as nat);
        if !(i == j || i >= n || j >= n) {
            let mut row = copy_vec(&dist[i]);
            let cur = row[j];
            let w = match cur {
                Some(x) => if x <= fp.walk_time { x } else { fp.walk_time },
                None => fp.walk_time,
            };
            row.set(j, Some(w));
            dist.set(i, row);
            proof {
                let e = direct_walks(n as nat, fps, (f + 1) as nat);
                assert(e == d.update(i as int, d[i as int].update(j as int, min_walk(d[i as int][j as int], fp.walk_time))));
                assert forall|r: int| 0 <= r < n implies (#[trigger] dist@[r])@ == e[r] by {
                    if r == i {
                        assert(dist@[r]@ =~= e[r]);
                    }
                }
            }
        }
        f = f + 1;
    }
    proof {
        lemma_direct_shape(n as nat, fps, fps.len());
    }
    let ghost d0 = direct_walks(n as nat, fps, fps.len());
    let mut k: usize = 0;
    while k < n
        invariant
            k <= n,
            n == spec.n_stops,
            square_no_diag(d0, n as nat),
            dist@.len() == n,
            forall|i: int| 0 <= i < n ==> (#[trigger] dist@[i])@ == closed_through(d0, k as nat)[i],
        decreases n - k,
    {
        proof {
            lemma_closed_shape(d0, n as nat, k as nat);
        }
        let ghost p = closed_through(d0, k as nat);
        let ghost q = closed_through(d0, (k + 1) as nat);
        assert(q == relax_through(p, k as int));
        let mut i: usize = 0;
        while i < n
            invariant
                i <= n,
                k < n,
                n == spec.n_stops,
                square_no_diag(p, n as nat),
                q == relax_through(p, k as int),
                dist@.len() == n,
                forall|r: int| 0 <= r < i ==> (#[trigger] dist@[r])@ == q[r],
                forall|r: int| i <= r < n ==> (#[trigger] dist@[r])@ == p[r],
            decreases n - i,
        {
            // Row `k` is the same before and after this phase, since
            // `p[k][k]` is `None`.
            proof {
                assert(dist@[k as int]@ =~= p[k as int]) by {
                    if (k as int) < i {
                        assert forall|j: int| 0 <= j < n implies q[k as int][j] == p[k as int][j] by {
                            assert(q[k as int][j] == via(p, k as int, k as int, j));
                        }
                    }
                }
            }
            let old_row = copy_vec(&dist[i]);
            let ik = old_row[k];
            let mut row: Vec<Option<u16>> = Vec::new();
            let mut j: usize = 0;
            while j < n
                invariant
                    j <= n,
                    i < n,
                    k < n,
                    square_no_diag(p, n as nat),
                    old_row@ == p[i as int],
                    ik == p[i as int][k as int],
                    dist@.len() == n,
                    dist@[k as int]@ == p[k as int],
                    row@ == Seq::new(j as nat, |c: int| via(p, k as int, i as int, c)),
                decreases n - j,
            {
                let cur = old_row[j];
                let kj = dist[k][j];
                let v = if i == j {
                    cur
                } else {
                    match (ik, kj) {
                        (Some(x), Some(y)) => {
                            let s = x.saturating_add(y);
                            match cur {
                                Some(d) => Some(if d <= s { d } else { s }),
                                None => Some(s),
                            }
                        },
                        _ => cur,
                    }
                };
                row.push(v);
                assert(row@ =~= Seq::new((j + 1) as nat, |c: int| via(p, k as int, i as int, c)));
                j = j + 1;
            }
            dist.set(i, row);
            proof {
                assert(dist@[i as int]@ =~= q[i as int]);
            }
            i = i + 1;
        }
        k = k + 1;
    }
    dist
}

/// Total number of stop-sequence entries over `routes`.
pub open spec fn total_route_stops(routes: Seq<RouteSpec>) -> nat
    decreases routes.len(),
{
    if routes.len() == 0 {
        0
    } else {
        total_route_stops(routes.drop_last()) + routes.last().stop_sequence@.len()
    }
}

/// Total number of trips over `routes`.
pub open spec fn total_trips(routes: Seq<RouteSpec>) -> nat
    decreases routes.len(),
{
    if routes.len() == 0 {
        0
    } else {
        total_trips(routes.drop_last()) + routes.last().trips@.len()
    }
}

/// The shape the renderer insists on: at most 256 routes, each with at
/// least two stops and at least one trip, every trip with one leg per
/// consecutive stop pair and one dwell per stop, and trip ids that fit
/// in `u16`.
pub open spec fn renderable(spec: NetworkSpec) -> bool {
    &&& spec.routes@.len() <= 256
    &&& forall|r: int| 0 <= r < spec.routes@.len() ==> (#[trigger] spec.routes@[r]).stop_sequence@.len() >= 2
        && spec.routes@[r].trips@.len() >= 1
    &&& forall|r: int, t: int|
        #![trigger spec.routes@[r].trips@[t]]
        0 <= r < spec.routes@.len() && 0 <= t < spec.routes@[r].trips@.len() ==> {
            &&& spec.routes@[r].trips@[t].leg_durations@.len() + 1 == spec.routes@[r].stop_sequence@.len()
            &&& spec.routes@[r].trips@[t].dwell_times@.len() == spec.routes@[r].stop_sequence@.len()
        }
    &&& total_trips(spec.routes@) <= u16::MAX
    &&& spec.n_stops + total_route_stops(spec.routes@) + 8 < u32::MAX
}

proof fn lemma_totals_prefix(routes: Seq<RouteSpec>, i: int)
    requires
        0 <= i < routes.len(),
    ensures
        total_route_stops(routes.subrange(0, i + 1)) == total_route_stops(routes.subrange(0, i))
            + routes[i].stop_sequence@.len(),
        total_trips(routes.subrange(0, i + 1)) == total_trips(routes.subrange(0, i)) + routes[i].trips@.len(),
        total_route_stops(routes.subrange(0, i + 1)) <= total_route_stops(routes),
        total_trips(routes.subrange(0, i + 1)) <= total_trips(routes),
    decreases routes.len(),
{
    assert(routes.subrange(0, i + 1).drop_last() =~= routes.subrange(0, i));
    if i + 1 < routes.len() {
        lemma_totals_prefix(routes.drop_last(), i);
        assert(routes.drop_last().subrange(0, i + 1) =~= routes.subrange(0, i + 1));
    } else {
        assert(routes.subrange(0, i + 1) =~= routes);
    }
}

proof fn lemma_pair_key_injective(a: u32, b: u32, c: u32, d: u32)
    requires
        a < 256,
        c < 256,
        pair_key(a, b) == pair_key(c, d),
    ensures
        a == c && b == d,
{
    assert(a as u64 * 4294967296 + b as u64 == (a as u64 * 4294967296 + b as u64) as u64) by (nonlinear_arith)
        requires a < 256;
    assert(c as u64 * 4294967296 + d as u64 == (c as u64 * 4294967296 + d as u64) as u64) by (nonlinear_arith)
        requires c < 256;
    assert(a == c && b == d) by (nonlinear_arith)
        requires
            a as u64 * 4294967296 + b as u64 == c as u64 * 4294967296 + d as u64,
            b < 4294967296,
            d < 4294967296,
    ;
}

/// The `(arrival, departure)` pairs of one trip, built by prefix sums.
fn trip_times(trip: &TripSpec, len: usize) -> (times: Vec<(SecondOfDay, SecondOfDay)>)
    requires
        len >= 1,
        trip.leg_durations@.len() + 1 == len,
        trip.dwell_times@.len() == len,
    ensures
        times@.len() == len,
{
    let mut times: Vec<(SecondOfDay, SecondOfDay)> = Vec::new();
    let arr0 = SecondOfDay(trip.first_dep as u32);
    let dep0 = arr0.plus(Duration(trip.dwell_times[0] as u32));
    times.push((arr0, dep0));
    let mut i: usize = 1;
    while i < len
        invariant
            1 <= i <= len,
            trip.leg_durations@.len() + 1 == len,
            trip.dwell_times@.len() == len,
            times@.len() == i,
        decreases len - i,
    {
        let prev_dep = times[i - 1].1;
        let arr = prev_dep.plus(Duration(trip.leg_durations[i - 1] as u32));
        let dep = arr.plus(Duration(trip.dwell_times[i] as u32));
        times.push((arr, dep));
        i = i + 1;
    }
    times
}

/// Renders `spec` into a timetable: stops `0..n_stops` get indices
/// `0..n_stops`, route `i` gets key `i` and index `i`, trips get keys
/// `0, 1, ...` in order with times built by prefix sums, and every pair of
/// distinct stops with a closed walk (see [`close_footpaths`]) gets a
/// footpath with that walk as its transfer time.
#[verifier::spinoff_prover]
/// The direct footpaths the renderer gives stop `a`: every other stop `b`
/// below `upto` that `a` reaches by a closed walk, in increasing order.
pub open spec fn walk_targets(cw: Seq<Seq<Option<u16>>>, a: int, upto: nat) -> Seq<StopIdx>
    decreases upto,
{
    if upto == 0 {
        Seq::empty()
    } else {
        let b = (upto - 1) as nat;
        let rest = walk_targets(cw, a, b);
        if b != a && cw[a][b as int] is Some {
            rest.push(StopIdx(b as u32))
        } else {
            rest
        }
    }
}

pub fn render(spec: &NetworkSpec) -> (out: SimpleTimetable<u8, u8, u16>)
    requires
        renderable(*spec),
    ensures
        out.inv(),
        forall|x: u8| x < spec.n_stops ==> (#[trigger] out.stop_by_key@.contains_key(x)) && out.stop_by_key@[x]
            == StopIdx(x as u32),
        out.routes@.len() == spec.routes@.len(),
        forall|i: int| 0 <= i < spec.routes@.len() ==> #[trigger] out.route_by_key@[i as u8] == RouteIdx(i as u32),
        forall|a: u8, b: u8|
            a < spec.n_stops && b < spec.n_stops && a != b && (#[trigger] closed_walks(
                spec.n_stops as nat,
                spec.footpaths@,
            )[a as int][b as int]) is Some ==> out.transfer_times@.contains_key(pair_key(a as u32, b as u32))
                && out.transfer_times@[pair_key(a as u32, b as u32)].0 == closed_walks(
                spec.n_stops as nat,
                spec.footpaths@,
            )[a as int][b as int]->0,
        forall|a: int|
            0 <= a < spec.n_stops ==> #[trigger] out.footpaths_of(a) == walk_targets(
                closed_walks(spec.n_stops as nat, spec.footpaths@),
                a,
                spec.n_stops as nat,
            ),
        forall|a: int| spec.n_stops <= a ==> (#[trigger] out.footpaths_of(a)).len() == 0,
        (forall|r: int, i: int|
            0 <= r < spec.routes@.len() && 0 <= i < spec.routes@[r].stop_sequence@.len() ==> #[trigger] spec.routes@[r].stop_sequence@[i]
                < spec.n_stops) ==> out.stop_keys@.len() == spec.n_stops,
{
    proof {
        assert(keys_ok::<u8, u8, u16>());
    }
    let mut tt: SimpleTimetable<u8, u8, u16> = SimpleTimetable::new();
    let mut next_trip_id: u16 = 0;
    let mut stop: u8 = 0;
    while stop < spec.n_stops
        invariant
            tt.inv(),
            stop <= spec.n_stops,
            tt.stop_keys@.len() == stop,
            tt.routes@.len() == 0,
            tt.route_by_key@ == Map::<u8, RouteIdx>::empty(),
            tt.trip_keys@.len() == 0,
            forall|x: u8| x < stop ==> (#[trigger] tt.stop_by_key@.contains_key(x)) && tt.stop_by_key@[x] == StopIdx(x as u32),
            forall|x: u8| #[trigger] tt.stop_by_key@.contains_key(x) ==> x < stop,
            forall|a: int| #[trigger] tt.footpaths_of(a) == Seq::<StopIdx>::empty(),
        decreases spec.n_stops - stop,
    {
        let ghost before = tt;
        tt = tt.register_stop(stop);
        proof {
            assert forall|a: int| #[trigger] tt.footpaths_of(a) == Seq::<StopIdx>::empty() by {
                if 0 <= a < tt.footpaths@.len() {
                    assert(before.footpaths_of(a) == Seq::<StopIdx>::empty());
                }
            }
            assert(!before.stop_by_key@.contains_key(stop));
            assert forall|x: u8| x < stop + 1 implies (#[trigger] tt.stop_by_key@.contains_key(x)) && tt.stop_by_key@[x]
                == StopIdx(x as u32) by {
                if x < stop {
                    assert(before.stop_by_key@.contains_key(x));
                }
            }
        }
        stop = stop + 1;
    }
    let mut ri: usize = 0;
    while ri < spec.routes.len()
        invariant
            renderable(*spec),
            tt.inv(),
            ri <= spec.routes@.len(),
            tt.routes@.len() == ri,
            tt.stop_keys@.len() <= spec.n_stops + total_route_stops(spec.routes@.subrange(0, ri as int)),
            tt.trip_keys@.len() <= total_trips(spec.routes@.subrange(0, ri as int)),
            next_trip_id == total_trips(spec.routes@.subrange(0, ri as int)),
            forall|x: u8| x < spec.n_stops ==> (#[trigger] tt.stop_by_key@.contains_key(x)) && tt.stop_by_key@[x] == StopIdx(x as u32),
            forall|k: u8| #[trigger] tt.route_by_key@.contains_key(k) <==> (k as int) < ri,
            forall|i: int| 0 <= i < ri ==> #[trigger] tt.route_by_key@[i as u8] == RouteIdx(i as u32),
            forall|a: int| #[trigger] tt.footpaths_of(a) == Seq::<StopIdx>::empty(),
            (forall|r: int, i: int|
                0 <= r < spec.routes@.len() && 0 <= i < spec.routes@[r].stop_sequence@.len() ==> #[trigger] spec.routes@[r].stop_sequence@[i]
                    < spec.n_stops) ==> tt.stop_keys@.len() == spec.n_stops,
        decreases spec.routes@.len() - ri,
    {
        proof {
            lemma_totals_prefix(spec.routes@, ri as int);
        }
        let route = &spec.routes[ri];
        let stops = &route.stop_sequence;
        let mut trip_owned: Vec<(u16, Vec<(SecondOfDay, SecondOfDay)>)> = Vec::new();
        let mut t: usize = 0;
        while t < route.trips.len()
            invariant
                renderable(*spec),
                ri < spec.routes@.len(),
                *route == spec.routes@[ri as int],
                stops@ == route.stop_sequence@,
                t <= route.trips@.len(),
                trip_owned@.len() == t,
                next_trip_id == total_trips(spec.routes@.subrange(0, ri as int)) + t,
                total_trips(spec.routes@.subrange(0, ri as int)) + route.trips@.len() <= u16::MAX,
                forall|q: int| 0 <= q < t ==> (#[trigger] trip_owned@[q]).1@.len() == stops@.len(),
            decreases route.trips@.len() - t,
        {
            let times = trip_times(&route.trips[t], stops.len());
            trip_owned.push((next_trip_id, times));
            next_trip_id = next_trip_id + 1;
            t = t + 1;
        }
        let mut trip_refs: Vec<(u16, &[(SecondOfDay, SecondOfDay)])> = Vec::new();
        let mut q: usize = 0;
        while q < trip_owned.len()
            invariant
                q <= trip_owned@.len(),
                trip_refs@.len() == q,
                forall|x: int| 0 <= x < trip_owned@.len() ==> (#[trigger] trip_owned@[x]).1@.len() == stops@.len(),
                forall|x: int| 0 <= x < q ==> (#[trigger] trip_refs@[x]).1@ == trip_owned@[x].1@,
            decreases trip_owned@.len() - q,
        {
            trip_refs.push((trip_owned[q].0, trip_owned[q].1.as_slice()));
            q = q + 1;
        }
        let ghost before = tt;
        tt = tt.route(ri as u8, stops.as_slice(), trip_refs.as_slice());
        proof {
            assert forall|a: int| #[trigger] tt.footpaths_of(a) == Seq::<StopIdx>::empty() by {
                if 0 <= a < tt.footpaths@.len() {
                    assert(before.footpaths_of(a) == Seq::<StopIdx>::empty());
                }
            }
            if forall|r: int, i: int|
                0 <= r < spec.routes@.len() && 0 <= i < spec.routes@[r].stop_sequence@.len() ==> #[trigger] spec.routes@[r].stop_sequence@[i]
                    < spec.n_stops {
                assert forall|i: int| 0 <= i < stops@.len() implies before.stop_by_key@.contains_key(#[trigger] stops@[i]) by {
                    assert(spec.routes@[ri as int].stop_sequence@[i] < spec.n_stops);
                }
                lemma_interned_stops_known(before.stop_by_key@, before.stop_keys@.len(), stops@);
            }
            assert forall|x: u8| x < spec.n_stops implies (#[trigger] tt.stop_by_key@.contains_key(x)) && tt.stop_by_key@[x]
                == StopIdx(x as u32) by {
                assert(before.stop_by_key@.contains_key(x));
            }
            assert forall|k: u8| #[trigger] tt.route_by_key@.contains_key(k) <==> (k as int) < ri + 1 by {
                if k as int == ri {
                    assert(tt.route_by_key@.contains_key(ri as u8));
                }
            }
            assert forall|i: int| 0 <= i < ri + 1 implies #[trigger] tt.route_by_key@[i as u8] == RouteIdx(i as u32) by {
                if i < ri {
                    assert(before.route_by_key@[i as u8] == RouteIdx(i as u32));
                    assert((i as u8) != (ri as u8));
                }
            }
        }
        ri = ri + 1;
    }
    proof {
        assert(spec.routes@.subrange(0, spec.routes@.len() as int) =~= spec.routes@);
    }
    let closed = close_footpaths(spec);
    let ghost cw = closed_walks(spec.n_stops as nat, spec.footpaths@);
    let ghost after_routes = tt;
    let mut from: u8 = 0;
    while from < spec.n_stops
        invariant
            tt.inv(),
            from <= spec.n_stops,
            closed@.len() == spec.n_stops,
            cw == closed_walks(spec.n_stops as nat, spec.footpaths@),
            forall|i: int| 0 <= i < spec.n_stops ==> (#[trigger] closed@[i])@ == cw[i],
            tt.stop_keys@.len() == after_routes.stop_keys@.len(),
            after_routes.stop_keys@.len() + 8 < u32::MAX,
            tt.routes@.len() == spec.routes@.len(),
            tt.route_by_key == after_routes.route_by_key,
            forall|i: int| 0 <= i < spec.routes@.len() ==> #[trigger] tt.route_by_key@[i as u8] == RouteIdx(i as u32),
            forall|x: u8| x < spec.n_stops ==> (#[trigger] tt.stop_by_key@.contains_key(x)) && tt.stop_by_key@[x] == StopIdx(x as u32),
            forall|a: u8, b: u8|
                a < from && b < spec.n_stops && a != b && (#[trigger] cw[a as int][b as int]) is Some
                    ==> tt.transfer_times@.contains_key(pair_key(a as u32, b as u32))
                    && tt.transfer_times@[pair_key(a as u32, b as u32)].0 == cw[a as int][b as int]->0,
            forall|a: int|
                #[trigger] tt.footpaths_of(a) == (if 0 <= a < from {
                    walk_targets(cw, a, spec.n_stops as nat)
                } else {
                    Seq::<StopIdx>::empty()
                }),
        decreases spec.n_stops - from,
    {
        let mut to: u8 = 0;
        proof {
            lemma_direct_shape(spec.n_stops as nat, spec.footpaths@, spec.footpaths@.len());
            lemma_closed_shape(direct_walks(spec.n_stops as nat, spec.footpaths@, spec.footpaths@.len()), spec.n_stops as nat, spec.n_stops as nat);
            assert forall|x: u8| x < spec.n_stops implies (#[trigger] tt.stop_by_key@.contains_key(x)) && tt.stop_by_key@[x]
                == StopIdx(x as u32) by {
                assert(tt.stop_by_key@.contains_key(x));
                assert(tt.stop_by_key@[x] == StopIdx(x as u32));
            }
        }
        while to < spec.n_stops
            invariant
                tt.inv(),
                from < spec.n_stops,
                to <= spec.n_stops,
                closed@.len() == spec.n_stops,
                forall|i: int| 0 <= i < spec.n_stops ==> (#[trigger] closed@[i])@ == cw[i],
                square_no_diag(cw, spec.n_stops as nat),
                tt.stop_keys@.len() == after_routes.stop_keys@.len(),
                after_routes.stop_keys@.len() + 8 < u32::MAX,
                tt.routes@.len() == spec.routes@.len(),
                tt.route_by_key == after_routes.route_by_key,
                forall|x: u8| x < spec.n_stops ==> (#[trigger] tt.stop_by_key@.contains_key(x)) && tt.stop_by_key@[x] == StopIdx(x as u32),
                forall|a: u8, b: u8|
                    (a < from || (a == from && b < to)) && b < spec.n_stops && a != b && (#[trigger] cw[a as int][b as int]) is Some
                        ==> tt.transfer_times@.contains_key(pair_key(a as u32, b as u32))
                        && tt.transfer_times@[pair_key(a as u32, b as u32)].0 == cw[a as int][b as int]->0,
                forall|a: int|
                    #[trigger] tt.footpaths_of(a) == (if 0 <= a < from {
                        walk_targets(cw, a, spec.n_stops as nat)
                    } else if a == from {
                        walk_targets(cw, a, to as nat)
                    } else {
                        Seq::<StopIdx>::empty()
                    }),
            decreases spec.n_stops - to,
        {
            let ghost t_start = tt;
            if from != to {
                let cell = closed[from as usize][to as usize];
                match cell {
                    Some(walk) => {
                        let ghost t0 = tt;
                        tt = tt.footpath(from, to);
                        let ghost t1 = tt;
                        proof {
                            assert forall|x: u8| x < spec.n_stops implies #[trigger] t1.stop_by_key@.contains_key(x)
                                && t1.stop_by_key@[x] == StopIdx(x as u32) by {
                                assert(t0.stop_by_key@.contains_key(x));
                            }
                            assert(t0.stop_by_key@.contains_key(from) && t0.stop_by_key@.contains_key(to));
                            assert(t1.stop_by_key@.contains_key(from) && t1.stop_by_key@.contains_key(to));
                        }
                        tt = tt.transfer_time(from, to, Duration(walk as u32));
                        proof {
                            assert forall|x: u8| x < spec.n_stops implies #[trigger] tt.stop_by_key@.contains_key(x)
                                && tt.stop_by_key@[x] == StopIdx(x as u32) by {
                                assert(t1.stop_by_key@.contains_key(x));
                            }
                            assert(tt.stop_by_key@[from] == StopIdx(from as u32));
                            assert(tt.stop_by_key@[to] == StopIdx(to as u32));
                            assert forall|a: int| #[trigger] tt.footpaths_of(a) == (if a == from as int {
                                t_start.footpaths_of(a).push(StopIdx(to as u32))
                            } else {
                                t_start.footpaths_of(a)
                            }) by {
                                if 0 <= a < tt.footpaths@.len() {
                                    assert(tt.footpaths_of(a) == t1.footpaths_of(a));
                                }
                                if a == from as int {
                                    assert(t1.footpaths@[a]@ == t0.footpaths_of(a).push(StopIdx(to as u32)));
                                } else if 0 <= a < t1.footpaths@.len() {
                                    assert(t1.footpaths_of(a) == t0.footpaths_of(a));
                                }
                            }
                            assert(closed@[from as int]@ == cw[from as int]);
                            assert forall|a: u8, b: u8|
                                (a < from || (a == from && b < to + 1)) && b < spec.n_stops && a != b && (#[trigger] cw[a as int][b as int]) is Some
                                    implies tt.transfer_times@.contains_key(pair_key(a as u32, b as u32))
                                    && tt.transfer_times@[pair_key(a as u32, b as u32)].0 == cw[a as int][b as int]->0 by {
                                if !(a == from && b == to) {
                                    if pair_key(a as u32, b as u32) == pair_key(from as u32, to as u32) {
                                        lemma_pair_key_injective(a as u32, b as u32, from as u32, to as u32);
                                    }
                                    assert(t0.transfer_times@.contains_key(pair_key(a as u32, b as u32)));
                                }
                            }
                        }
                    },
                    None => {},
                }
            }
            proof {
                assert(closed@[from as int]@ == cw[from as int]);
                let a0 = from as int;
                assert(walk_targets(cw, a0, (to + 1) as nat) == (if to as int != a0 && cw[a0][to as int] is Some {
                    walk_targets(cw, a0, to as nat).push(StopIdx(to as u32))
                } else {
                    walk_targets(cw, a0, to as nat)
                }));
                assert forall|a: int|
                    #[trigger] tt.footpaths_of(a) == (if 0 <= a < from {
                        walk_targets(cw, a, spec.n_stops as nat)
                    } else if a == from {
                        walk_targets(cw, a, (to + 1) as nat)
                    } else {
                        Seq::<StopIdx>::empty()
                    }) by {
                    assert(t_start.footpaths_of(a) == (if 0 <= a < from {
                        walk_targets(cw, a, spec.n_stops as nat)
                    } else if a == from {
                        walk_targets(cw, a, to as nat)
                    } else {
                        Seq::<StopIdx>::empty()
                    }));
                }
            }
            to = to + 1;
        }
        from = from + 1;
    }
    assert(tt.stop_by_key@.contains_key(0u8) || spec.n_stops == 0);
    tt
}

} // verus!
