//! [`Query`], the typestate builder that configures and runs a query, its
//! departure-mode markers, and [`RangeJourney`], the entry of a
//! range-query profile, with the Pareto filter that profiles go through.

use vstd::prelude::*;

use crate::algorithm::per_call::{all_fit, all_sound, plans_accessible, run_per_call_query};
use crate::algorithm::range::{all_range_fit, all_range_sound, raptor_range_rrap_arrival};
use crate::cache::RaptorCache;
use crate::endpoints::{Endpoints, IntoEndpoints};
use crate::journey::Journey;
use crate::label::{ArrivalTime, Label};
use crate::pareto::{covers, is_swept_front, pareto_sweep, ParetoItem};
use crate::time::{SecondOfDay, Transfers};
use crate::timetable::Timetable;

verus! {

/// One entry of a range-query profile: a departure time and the journey it
/// produces.
#[derive(Debug, Clone)]
pub struct RangeJourney<L: Label = ArrivalTime> {
    /// When the rider leaves the origin (or starts the origin walk).
    pub depart: SecondOfDay,
    /// The journey, as if `depart` had been the query's departure.
    pub journey: Journey<L>,
}

/// Marker: a query with no departure configured yet.
#[derive(Debug, Clone, Copy)]
pub struct NeedsDeparture;

/// Marker: a single-departure query.
#[derive(Debug, Clone, Copy)]
pub struct SingleDeparture {
    /// The departure time.
    pub at: SecondOfDay,
}

/// Marker: a range query; departures in the order they are scanned,
/// latest first, without repeats.
#[derive(Debug, Clone)]
pub struct RangeDeparture {
    /// The departure times, strictly descending.
    pub departures: Vec<SecondOfDay>,
}

impl<L: Label> ParetoItem for RangeJourney<L> {
    /// Later departure first, then fewer trips, then earlier arrival.
    open spec fn key_le(&self, other: &Self) -> bool {
        ||| self.depart.0 > other.depart.0
        ||| self.depart.0 == other.depart.0 && self.journey.plan@.len() < other.journey.plan@.len()
        ||| self.depart.0 == other.depart.0 && self.journey.plan@.len() == other.journey.plan@.len()
            && self.journey.label.arrival_of() <= other.journey.label.arrival_of()
    }

    /// Leaves no earlier, with no more trips, and a dominating label.
    open spec fn pdom(&self, other: &Self) -> bool {
        &&& self.depart.0 >= other.depart.0
        &&& self.journey.plan@.len() <= other.journey.plan@.len()
        &&& self.journey.label.dominates_spec(&other.journey.label)
    }

    proof fn lemma_key_total(a: &Self, b: &Self) {
    }

    proof fn lemma_key_transitive(a: &Self, b: &Self, c: &Self) {
    }

    proof fn lemma_pdom_reflexive(a: &Self) {
        L::lemma_dominates_reflexive(a.journey.label);
    }

    proof fn lemma_pdom_transitive(a: &Self, b: &Self, c: &Self) {
        L::lemma_dominates_transitive(a.journey.label, b.journey.label, c.journey.label);
    }

    fn key_le_exec(&self, other: &Self) -> (r: bool) {
        let (la, lb) = (self.journey.plan.len(), other.journey.plan.len());
        let (aa, ab) = (self.journey.arrival().0, other.journey.arrival().0);
        self.depart.0 > other.depart.0 || (self.depart.0 == other.depart.0 && (la < lb || (la == lb
            && aa <= ab)))
    }

    fn pdom_exec(&self, other: &Self) -> (r: bool) {
        self.depart.0 >= other.depart.0 && self.journey.plan.len() <= other.journey.plan.len()
            && self.journey.label.dominates(&other.journey.label)
    }
}

/// Range-profile dominance: an entry dominates another exactly when it
/// leaves no earlier, takes no more trips, and its label dominates; so it
/// also arrives no later.
pub proof fn law_range_dominance<L: Label>(a: RangeJourney<L>, b: RangeJourney<L>)
    ensures
        a.pdom(&b) ==> a.depart.0 >= b.depart.0,
        a.pdom(&b) ==> a.journey.plan@.len() <= b.journey.plan@.len(),
        a.pdom(&b) ==> a.journey.label.arrival_of() <= b.journey.label.arrival_of(),
        a.depart.0 >= b.depart.0 && a.journey.plan@.len() <= b.journey.plan@.len() && a.journey.label.dominates_spec(
            &b.journey.label,
        ) ==> a.pdom(&b),
{
    if a.pdom(&b) {
        L::lemma_dominates_arrival(a.journey.label, b.journey.label);
    }
}

/// The profile order: a later departure comes first; at the same
/// departure fewer trips come first; at the same departure and trip count
/// the earlier arrival comes first.
pub proof fn law_range_order<L: Label>(a: RangeJourney<L>, b: RangeJourney<L>)
    ensures
        a.depart.0 > b.depart.0 ==> a.key_le(&b) && !b.key_le(&a),
        a.depart.0 == b.depart.0 && a.journey.plan@.len() < b.journey.plan@.len() ==> a.key_le(&b) && !b.key_le(&a),
        a.depart.0 == b.depart.0 && a.journey.plan@.len() == b.journey.plan@.len() ==> (a.key_le(&b) <==> a.journey.label.arrival_of()
            <= b.journey.label.arrival_of()),
{
}

/// Every entry of a range query's raw output is matched in its profile by
/// an entry that leaves no earlier, takes no more trips and arrives no
/// later; in particular an entry with fewer trips than every other one
/// leaving as late is never dropped for a faster one with more trips.
pub proof fn law_range_profile_covers<L: Label>(all: Seq<RangeJourney<L>>, out: Seq<RangeJourney<L>>, i: int)
    requires
        is_swept_front(all, out),
        0 <= i < all.len(),
    ensures
        exists|j: int|
            0 <= j < out.len() && (#[trigger] out[j]).depart.0 >= all[i].depart.0 && out[j].journey.plan@.len()
                <= all[i].journey.plan@.len() && out[j].journey.label.arrival_of() <= all[i].journey.label.arrival_of(),
{
    assert(covers(out, all[i]));
    let j = choose|j: int| 0 <= j < out.len() && (#[trigger] out[j]).pdom(&all[i]);
    law_range_dominance(out[j], all[i]);
}

/// The Pareto profile of a range query's raw output: the entries not
/// weakly dominated on (later departure, fewer trips, dominating label),
/// latest departure first, then fewest trips, then earliest arrival; of
/// entries that dominate each other, the first in that order stays.
pub fn filter_range_pareto_front<L: Label>(all: Vec<RangeJourney<L>>) -> (out: Vec<RangeJourney<L>>)
    ensures
        is_swept_front(all@, out@),
{
    pareto_sweep(all)
}


/// A query under construction. Made by [`Timetable::query`] or
/// [`Timetable::query_with_label`]; in the [`NeedsDeparture`] state it
/// takes origins, targets, a transfer cap, a label context and the
/// wheelchair switch, then one departure mode ([`Query::depart_at`] or
/// [`Query::depart_in_window`]) after which it can only run.
pub struct Query<'tt, T: Timetable, L: Label = ArrivalTime, M = NeedsDeparture> {
    /// The timetable queried.
    pub tt: &'tt T,
    /// The origins.
    pub origins: Endpoints,
    /// The targets.
    pub targets: Endpoints,
    /// The most trips a journey may take.
    pub max_transfers: Transfers,
    /// Whether only wheelchair-accessible trips and stops may be used.
    pub require_wheelchair_accessible: bool,
    /// Side data handed to every label call.
    pub ctx: L::Ctx,
    /// The departure mode.
    pub mode: M,
}

impl<'tt, T: Timetable, L: Label> Query<'tt, T, L, NeedsDeparture> {
    /// Replaces the origins.
    pub fn from<E: IntoEndpoints>(self, ep: E) -> (r: Self)
        ensures
            r.origins.stops@ == ep.pairs_of(),
            r.tt == self.tt,
            r.targets == self.targets,
            r.max_transfers == self.max_transfers,
            r.require_wheelchair_accessible == self.require_wheelchair_accessible,
            r.ctx == self.ctx,
    {
        Query { origins: ep.into_endpoints(), ..self }
    }

    /// Replaces the targets.
    pub fn to<E: IntoEndpoints>(self, ep: E) -> (r: Self)
        ensures
            r.targets.stops@ == ep.pairs_of(),
            r.tt == self.tt,
            r.origins == self.origins,
            r.max_transfers == self.max_transfers,
            r.require_wheelchair_accessible == self.require_wheelchair_accessible,
            r.ctx == self.ctx,
    {
        Query { targets: ep.into_endpoints(), ..self }
    }

    /// Caps the number of trips a journey may take (ten by default).
    pub fn max_transfers(self, n: u8) -> (r: Self)
        ensures
            r.max_transfers.0 == n,
            r.tt == self.tt,
            r.origins == self.origins,
            r.targets == self.targets,
            r.require_wheelchair_accessible == self.require_wheelchair_accessible,
            r.ctx == self.ctx,
    {
        Query { max_transfers: Transfers(n), ..self }
    }

    /// Replaces the label context.
    pub fn with_context(self, ctx: L::Ctx) -> (r: Self)
        ensures
            r.ctx == ctx,
            r.tt == self.tt,
            r.origins == self.origins,
            r.targets == self.targets,
            r.max_transfers == self.max_transfers,
            r.require_wheelchair_accessible == self.require_wheelchair_accessible,
    {
        Query { ctx, ..self }
    }

    /// Restricts the query to wheelchair-accessible trips and stops.
    pub fn require_wheelchair_accessible(self) -> (r: Self)
        ensures
            r.require_wheelchair_accessible,
            r.tt == self.tt,
            r.origins == self.origins,
            r.targets == self.targets,
            r.max_transfers == self.max_transfers,
            r.ctx == self.ctx,
    {
        Query { require_wheelchair_accessible: true, ..self }
    }

    /// A single-departure query leaving at `t`.
    pub fn depart_at(self, t: SecondOfDay) -> (r: Query<'tt, T, L, SingleDeparture>)
        ensures
            r.mode.at == t,
            r.tt == self.tt,
            r.origins == self.origins,
            r.targets == self.targets,
            r.max_transfers == self.max_transfers,
            r.require_wheelchair_accessible == self.require_wheelchair_accessible,
            r.ctx == self.ctx,
    {
        Query {
            tt: self.tt,
            origins: self.origins,
            targets: self.targets,
            max_transfers: self.max_transfers,
            require_wheelchair_accessible: self.require_wheelchair_accessible,
            ctx: self.ctx,
            mode: SingleDeparture { at: t },
        }
    }

    /// A range query over the times of `deps`, kept latest first without
    /// repeats (the order the range scan takes them in).
    pub fn depart_in_window(self, deps: &[SecondOfDay]) -> (r: Query<'tt, T, L, RangeDeparture>)
        ensures
            strictly_descending(r.mode.departures@),
            forall|x: SecondOfDay| #[trigger] r.mode.departures@.contains(x) <==> deps@.contains(x),
            r.tt == self.tt,
            r.origins == self.origins,
            r.targets == self.targets,
            r.max_transfers == self.max_transfers,
            r.require_wheelchair_accessible == self.require_wheelchair_accessible,
            r.ctx == self.ctx,
    {
        let departures = descending_unique(deps);
        Query {
            tt: self.tt,
            origins: self.origins,
            targets: self.targets,
            max_transfers: self.max_transfers,
            require_wheelchair_accessible: self.require_wheelchair_accessible,
            ctx: self.ctx,
            mode: RangeDeparture { departures },
        }
    }
}

/// The query's endpoints are stops of its timetable.
pub open spec fn endpoints_in<T: Timetable>(tt: &T, origins: Endpoints, targets: Endpoints) -> bool {
    &&& forall|i: int| 0 <= i < origins.stops@.len() ==> (#[trigger] origins.stops@[i]).0.0 < tt.stop_count()
    &&& forall|i: int| 0 <= i < targets.stops@.len() ==> (#[trigger] targets.stops@[i]).0.0 < tt.stop_count()
}

impl<'tt, T: Timetable, L: Label> Query<'tt, T, L, SingleDeparture> {
    /// Runs the query with a fresh cache. The result is the Pareto front,
    /// on (trip count, label), of journeys that start at an origin, end at
    /// a target slot, take one to `max_transfers` trips and ride existing
    /// routes to stops they serve; fewest trips first, then earliest
    /// arrival.
    pub fn run(self) -> (r: Vec<Journey<L>>)
        requires
            self.tt.well_formed(),
            endpoints_in(self.tt, self.origins, self.targets),
        ensures
            exists|cands: Seq<Journey<L>>|
                #[trigger] is_swept_front(cands, r@) && all_fit(
                    self.tt,
                    self.origins.stops@,
                    self.targets.stops@,
                    self.max_transfers.0 as nat,
                    cands,
                ) && all_sound(self.tt, self.origins.stops@, self.mode.at.0, self.max_transfers.0 as nat, cands) && (
                self.require_wheelchair_accessible ==> plans_accessible(self.tt, cands)),
    {
        let mut cache = RaptorCache::<L>::for_timetable(self.tt);
        self.run_with_cache(&mut cache)
    }

    /// Runs the query reusing `cache`, which must be sized for the
    /// timetable (see [`RaptorCache::for_timetable`]). Same result as
    /// [`Query::run`].
    pub fn run_with_cache(self, cache: &mut RaptorCache<L>) -> (r: Vec<Journey<L>>)
        requires
            self.tt.well_formed(),
            endpoints_in(self.tt, self.origins, self.targets),
            old(cache).n_stops == self.tt.stop_count(),
            old(cache).n_routes == self.tt.route_count(),
            old(cache).dims_ok(),
        ensures
            final(cache).ready(self.tt, self.max_transfers.0 as nat),
            exists|cands: Seq<Journey<L>>|
                #[trigger] is_swept_front(cands, r@) && all_fit(
                    self.tt,
                    self.origins.stops@,
                    self.targets.stops@,
                    self.max_transfers.0 as nat,
                    cands,
                ) && all_sound(self.tt, self.origins.stops@, self.mode.at.0, self.max_transfers.0 as nat, cands) && (
                self.require_wheelchair_accessible ==> plans_accessible(self.tt, cands)),
    {
        let transfers = self.max_transfers.0 as usize;
        run_per_call_query(
            self.tt,
            &self.ctx,
            cache,
            transfers,
            self.mode.at,
            self.origins,
            self.targets,
            self.require_wheelchair_accessible,
        )
    }
}

impl<'tt, T: Timetable> Query<'tt, T, ArrivalTime, RangeDeparture> {
    /// Runs the range query with a fresh cache, as one reverse-chronological
    /// scan. The result is the Pareto profile, on (later departure, fewer
    /// trips, earlier arrival), of entries that depart at one of the
    /// query's departures with a journey as [`Query::run`] describes.
    pub fn run(self) -> (r: Vec<RangeJourney<ArrivalTime>>)
        requires
            self.tt.well_formed(),
            endpoints_in(self.tt, self.origins, self.targets),
        ensures
            exists|cands: Seq<RangeJourney<ArrivalTime>>|
                #[trigger] is_swept_front(cands, r@) && all_range_fit(
                    self.tt,
                    self.mode.departures@,
                    self.origins.stops@,
                    self.targets.stops@,
                    self.max_transfers.0 as nat,
                    cands,
                ) && (strictly_descending(self.mode.departures@) ==> all_range_sound(
                    self.tt,
                    self.origins.stops@,
                    self.max_transfers.0 as nat,
                    cands,
                )),
    {
        let mut cache = RaptorCache::<ArrivalTime>::for_timetable(self.tt);
        self.run_with_cache(&mut cache)
    }

    /// Runs the range query reusing `cache`, which must be sized for the
    /// timetable. Same result as [`Query::run`].
    pub fn run_with_cache(self, cache: &mut RaptorCache<ArrivalTime>) -> (r: Vec<RangeJourney<ArrivalTime>>)
        requires
            self.tt.well_formed(),
            endpoints_in(self.tt, self.origins, self.targets),
            old(cache).n_stops == self.tt.stop_count(),
            old(cache).n_routes == self.tt.route_count(),
            old(cache).dims_ok(),
        ensures
            final(cache).ready(self.tt, self.max_transfers.0 as nat),
            exists|cands: Seq<RangeJourney<ArrivalTime>>|
                #[trigger] is_swept_front(cands, r@) && all_range_fit(
                    self.tt,
                    self.mode.departures@,
                    self.origins.stops@,
                    self.targets.stops@,
                    self.max_transfers.0 as nat,
                    cands,
                ) && (strictly_descending(self.mode.departures@) ==> all_range_sound(
                    self.tt,
                    self.origins.stops@,
                    self.max_transfers.0 as nat,
                    cands,
                )),
    {
        let transfers = self.max_transfers.0 as usize;
        raptor_range_rrap_arrival(
            self.tt,
            cache,
            transfers,
            self.mode.departures.as_slice(),
            self.origins,
            self.targets,
            self.require_wheelchair_accessible,
        )
    }
}

impl<'tt, T: Timetable, L: Label> Query<'tt, T, L, RangeDeparture> {
    /// One departure of a range query run on its own, as a single-departure
    /// query at `depart`, each journey tagged with `depart`: the unit of
    /// work of the batch form of a range query, whose entries then go
    /// through [`filter_range_pareto_front`].
    pub fn run_departure(&self, depart: SecondOfDay, cache: &mut RaptorCache<L>) -> (r: Vec<RangeJourney<L>>)
        requires
            self.tt.well_formed(),
            endpoints_in(self.tt, self.origins, self.targets),
            old(cache).n_stops == self.tt.stop_count(),
            old(cache).n_routes == self.tt.route_count(),
            old(cache).dims_ok(),
        ensures
            final(cache).ready(self.tt, self.max_transfers.0 as nat),
            forall|i: int| 0 <= i < r@.len() ==> (#[trigger] r@[i]).depart == depart,
            exists|cands: Seq<Journey<L>>|
                #[trigger] is_swept_front(cands, journeys_of(r@)) && all_fit(
                    self.tt,
                    self.origins.stops@,
                    self.targets.stops@,
                    self.max_transfers.0 as nat,
                    cands,
                ) && all_sound(self.tt, self.origins.stops@, depart.0, self.max_transfers.0 as nat, cands) && (
                self.require_wheelchair_accessible ==> plans_accessible(self.tt, cands)),
    {
        let transfers = self.max_transfers.0 as usize;
        let mut journeys = run_per_call_query(
            self.tt,
            &self.ctx,
            cache,
            transfers,
            depart,
            &self.origins,
            &self.targets,
            self.require_wheelchair_accessible,
        );
        let ghost js = journeys@;
        let mut out: Vec<RangeJourney<L>> = Vec::new();
        let mut rev: Vec<Journey<L>> = Vec::new();
        while journeys.len() > 0
            invariant
                rev@.len() + journeys@.len() == js.len(),
                journeys@ == js.subrange(0, journeys@.len() as int),
                forall|i: int| 0 <= i < rev@.len() ==> #[trigger] rev@[i] == js[js.len() - 1 - i],
            decreases journeys@.len(),
        {
            let ghost n = journeys@.len();
            if let Some(j) = journeys.pop() {
                rev.push(j);
                assert(journeys@ =~= js.subrange(0, n - 1));
            }
        }
        while rev.len() > 0
            invariant
                rev@.len() + out@.len() == js.len(),
                forall|i: int| 0 <= i < rev@.len() ==> #[trigger] rev@[i] == js[js.len() - 1 - i],
                forall|i: int| 0 <= i < out@.len() ==> (#[trigger] out@[i]).depart == depart && out@[i].journey == js[i],
            decreases rev@.len(),
        {
            let ghost o0 = out@;
            let ghost n = rev@.len();
            if let Some(j) = rev.pop() {
                out.push(RangeJourney { depart, journey: j });
                assert forall|i: int| 0 <= i < out@.len() implies (#[trigger] out@[i]).depart == depart && out@[i].journey
                    == js[i] by {
                    if i < o0.len() {
                        assert(out@[i] == o0[i]);
                    }
                }
            }
        }
        assert(journeys_of(out@) =~= js);
        out
    }
}

/// The journeys of a profile's entries.
pub open spec fn journeys_of<L: Label>(rs: Seq<RangeJourney<L>>) -> Seq<Journey<L>> {
    Seq::new(rs.len(), |i: int| rs[i].journey)
}

/// Each time comes strictly before the previous one.
pub open spec fn strictly_descending(s: Seq<SecondOfDay>) -> bool {
    forall|i: int, j: int| 0 <= i < j < s.len() ==> (#[trigger] s[i]).0 > (#[trigger] s[j]).0
}

/// The times of `deps`, latest first, each once.
fn descending_unique(deps: &[SecondOfDay]) -> (r: Vec<SecondOfDay>)
    ensures
        strictly_descending(r@),
        forall|x: SecondOfDay| #[trigger] r@.contains(x) <==> deps@.contains(x),
{
    let mut out: Vec<SecondOfDay> = Vec::new();
    let mut i: usize = 0;
    while i < deps.len()
        invariant
            i <= deps@.len(),
            strictly_descending(out@),
            forall|x: SecondOfDay| #[trigger] out@.contains(x) <==> deps@.subrange(0, i as int).contains(x),
        decreases deps@.len() - i,
    {
        let d = deps[i];
        let mut p: usize = 0;
        while p < out.len() && out[p].0 > d.0
            invariant
                p <= out@.len(),
                forall|j: int| 0 <= j < p ==> (#[trigger] out@[j]).0 > d.0,
            decreases out@.len() - p,
        {
            p = p + 1;
        }
        let ghost o0 = out@;
        proof {
            assert(deps@.subrange(0, i + 1) =~= deps@.subrange(0, i as int).push(d));
        }
        if p < out.len() && out[p].0 == d.0 {
            proof {
                assert forall|x: SecondOfDay| #[trigger] out@.contains(x) <==> deps@.subrange(0, i + 1).contains(x) by {
                    if x == d {
                        assert(out@[p as int] == d);
                    }
                    if deps@.subrange(0, i + 1).contains(x) && x != d {
                        let y = choose|y: int| 0 <= y < i + 1 && #[trigger] deps@.subrange(0, i + 1)[y] == x;
                        assert(deps@.subrange(0, i as int)[y] == x);
                    }
                }
            }
        } else {
            out.insert(p, d);
            proof {
                assert forall|a: int, b: int| 0 <= a < b < out@.len() implies (#[trigger] out@[a]).0 > (#[trigger] out@[b]).0 by {
                    if b < p {
                        assert(out@[a] == o0[a] && out@[b] == o0[b]);
                    } else if b == p {
                        assert(out@[a] == o0[a]);
                    } else if a < p {
                        assert(out@[a] == o0[a] && out@[b] == o0[b - 1]);
                        assert(o0[p as int].0 < d.0);
                        if b - 1 > p {
                            assert(o0[p as int].0 > o0[b - 1].0);
                        }
                    } else if a == p {
                        assert(out@[b] == o0[b - 1]);
                        assert(o0[p as int].0 < d.0);
                        if b - 1 > p {
                            assert(o0[p as int].0 > o0[b - 1].0);
                        }
                    } else {
                        assert(out@[a] == o0[a - 1] && out@[b] == o0[b - 1]);
                    }
                }
                assert forall|x: SecondOfDay| #[trigger] out@.contains(x) <==> deps@.subrange(0, i + 1).contains(x) by {
                    let pre = deps@.subrange(0, i as int);
                    if out@.contains(x) {
                        let y = choose|y: int| 0 <= y < out@.len() && out@[y] == x;
                        if y != p {
                            if y < p {
                                assert(o0[y] == x);
                            } else {
                                assert(o0[y - 1] == x);
                            }
                            assert(o0.contains(x));
                            assert(pre.contains(x));
                            let z = choose|z: int| 0 <= z < pre.len() && pre[z] == x;
                            assert(deps@.subrange(0, i + 1)[z] == x);
                        } else {
                            assert(deps@.subrange(0, i + 1)[i as int] == x);
                        }
                    }
                    if deps@.subrange(0, i + 1).contains(x) {
                        if x == d {
                            assert(out@[p as int] == d);
                        } else {
                            let y = choose|y: int| 0 <= y < i + 1 && #[trigger] deps@.subrange(0, i + 1)[y] == x;
                            assert(deps@.subrange(0, i as int)[y] == x);
                            assert(o0.contains(x));
                            let z = choose|z: int| 0 <= z < o0.len() && o0[z] == x;
                            if z < p {
                                assert(out@[z] == x);
                            } else {
                                assert(out@[z + 1] == x);
                            }
                        }
                    }
                }
            }
        }
        i = i + 1;
    }
    proof {
        assert(deps@.subrange(0, deps@.len() as int) =~= deps@);
    }
    out
}

} // verus!
