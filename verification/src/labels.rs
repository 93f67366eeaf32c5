//! Two-criterion [`Label`] implementations: arrival against walking time
//! ([`ArrivalAndWalk`]) and arrival against accumulated fare
//! ([`ArrivalAndFare`], priced by a [`FareTable`]).

use std::collections::HashMap;

use vstd::prelude::*;

use crate::algorithm::label_bag::{bag_insert, some_dominates};
use crate::ids::{RouteIdx, StopIdx};
use crate::label::{Label, TripContext};
use crate::time::{sat_add, Duration, SecondOfDay};

verus! {

broadcast use vstd::std_specs::hash::group_hash_axioms;

/// Arrival time together with the walking time accumulated on the way.
/// Trip rides keep the walking time; walks add to both components.
#[derive(Copy, Clone, Debug, PartialEq, Eq, Structural)]
pub struct ArrivalAndWalk {
    /// Effective arrival time at the labelled stop.
    pub arrival: SecondOfDay,
    /// Total walking time along the path that produced the label.
    pub walk_time: Duration,
}

impl Label for ArrivalAndWalk {
    type Ctx = ();

    open spec fn arrival_of(&self) -> u32 {
        self.arrival.0
    }

    open spec fn dominates_spec(&self, other: &Self) -> bool {
        self.arrival.0 <= other.arrival.0 && self.walk_time.0 <= other.walk_time.0
    }

    open spec fn code(&self) -> u64 {
        ((self.arrival.0 as u64) << 32u64) | (self.walk_time.0 as u64)
    }

    proof fn lemma_dominates_reflexive(a: Self) {
    }

    proof fn lemma_dominates_transitive(a: Self, b: Self, c: Self) {
    }

    proof fn lemma_dominates_arrival(a: Self, b: Self) {
    }

    proof fn lemma_code_injective(a: Self, b: Self) {
        lemma_pack_injective(a.arrival.0, a.walk_time.0, b.arrival.0, b.walk_time.0);
    }

    fn default_ctx() -> Self::Ctx {
    }

    fn unreached_label() -> (r: Self)
        ensures
            r == (ArrivalAndWalk { arrival: SecondOfDay(u32::MAX), walk_time: Duration(0) }),
    {
        ArrivalAndWalk { arrival: SecondOfDay(u32::MAX), walk_time: Duration(0) }
    }

    fn from_departure(_ctx: &Self::Ctx, at: SecondOfDay) -> (r: Self)
        ensures
            r == (ArrivalAndWalk { arrival: at, walk_time: Duration(0) }),
    {
        ArrivalAndWalk { arrival: at, walk_time: Duration(0) }
    }

    fn extend_by_trip(self, _ctx: &Self::Ctx, leg: TripContext) -> (r: Self)
        ensures
            r == (ArrivalAndWalk { arrival: leg.arrival, walk_time: self.walk_time }),
    {
        ArrivalAndWalk { arrival: leg.arrival, walk_time: self.walk_time }
    }

    fn extend_by_footpath(
        self,
        _ctx: &Self::Ctx,
        _from_stop: StopIdx,
        _to_stop: StopIdx,
        walk: Duration,
    ) -> (r: Self)
        ensures
            r.arrival.0 == sat_add(self.arrival.0, walk.0),
            r.walk_time.0 == sat_add(self.walk_time.0, walk.0),
    {
        ArrivalAndWalk { arrival: self.arrival.plus(walk), walk_time: self.walk_time.plus(walk) }
    }

    fn dominates(&self, other: &Self) -> (r: bool) {
        self.arrival.0 <= other.arrival.0 && self.walk_time.0 <= other.walk_time.0
    }

    fn arrival(&self) -> (r: SecondOfDay) {
        self.arrival
    }
}

/// Two 32-bit halves packed into 64 bits determine the halves.
pub proof fn lemma_pack_injective(a1: u32, w1: u32, a2: u32, w2: u32)
    requires
        ((a1 as u64) << 32u64) | (w1 as u64) == ((a2 as u64) << 32u64) | (w2 as u64),
    ensures
        a1 == a2,
        w1 == w2,
{
    assert(((a1 as u64) << 32u64) | (w1 as u64) == ((a2 as u64) << 32u64) | (w2 as u64) ==> a1
        == a2 && w1 == w2) by (bit_vector);
}

/// Per-route fares, in any integer unit. Routes missing from the table
/// cost nothing.
#[derive(Debug, Clone)]
pub struct FareTable {
    /// Route index (`RouteIdx::get`) to fare.
    pub per_route: HashMap<u32, u32>,
}

impl FareTable {
    /// The fare of `route`: its table entry, or zero when absent.
    pub open spec fn fare_spec(&self, route: RouteIdx) -> u32 {
        if self.per_route@.contains_key(route.0) {
            self.per_route@[route.0]
        } else {
            0
        }
    }

    /// An empty table.
    pub fn new() -> (r: FareTable)
        ensures
            r.per_route@ == Map::<u32, u32>::empty(),
    {
        FareTable { per_route: HashMap::new() }
    }

    /// Build a table from `(route, fare)` pairs; a later pair for the same
    /// route replaces an earlier one.
    pub fn from_pairs(pairs: &[(RouteIdx, u32)]) -> (r: FareTable)
        ensures
            forall|k: u32| #[trigger]
                r.per_route@.contains_key(k) <==> exists|i: int|
                    0 <= i < pairs@.len() && pairs@[i].0.0 == k,
            forall|i: int|
                0 <= i < pairs@.len() ==> (forall|j: int|
                    i < j < pairs@.len() ==> pairs@[j].0.0 != pairs@[i].0.0) ==> r.per_route@[pairs@[i].0.0]
                    == pairs@[i].1,
    {
        let mut m: HashMap<u32, u32> = HashMap::new();
        let mut i: usize = 0;
        while i < pairs.len()
            invariant
                i <= pairs@.len(),
                forall|k: u32| #[trigger]
                    m@.contains_key(k) <==> exists|j: int| 0 <= j < i && pairs@[j].0.0 == k,
                forall|j: int|
                    0 <= j < i ==> (forall|l: int| j < l < i ==> pairs@[l].0.0 != pairs@[j].0.0)
                        ==> m@[pairs@[j].0.0] == pairs@[j].1,
            decreases pairs@.len() - i,
        {
            let (route, fare) = pairs[i];
            m.insert(route.0, fare);
            proof {
                assert forall|k: u32| #[trigger]
                    m@.contains_key(k) <==> exists|j: int| 0 <= j < i + 1 && pairs@[j].0.0 == k by {
                    if m@.contains_key(k) && k != route.0 {
                        let j = choose|j: int| 0 <= j < i && pairs@[j].0.0 == k;
                        assert(0 <= j < i + 1 && pairs@[j].0.0 == k);
                    }
                    if k == route.0 {
                        assert(pairs@[i as int].0.0 == k);
                    }
                }
            }
            i = i + 1;
        }
        FareTable { per_route: m }
    }

    /// Look up a route's fare; missing entries cost zero.
    pub fn fare_for(&self, route: RouteIdx) -> (r: u32)
        ensures
            r == self.fare_spec(route),
    {
        match self.per_route.get(&route.0) {
            Some(f) => *f,
            None => 0,
        }
    }
}

/// Arrival time together with the fare accumulated over the trips ridden.
#[derive(Copy, Clone, Debug, PartialEq, Eq, Structural)]
pub struct ArrivalAndFare {
    /// Effective arrival time at the labelled stop.
    pub arrival: SecondOfDay,
    /// Accumulated fare across the transit legs, saturating.
    pub fare: u32,
}

impl Label for ArrivalAndFare {
    type Ctx = FareTable;

    open spec fn arrival_of(&self) -> u32 {
        self.arrival.0
    }

    open spec fn dominates_spec(&self, other: &Self) -> bool {
        self.arrival.0 <= other.arrival.0 && self.fare <= other.fare
    }

    open spec fn code(&self) -> u64 {
        ((self.arrival.0 as u64) << 32u64) | (self.fare as u64)
    }

    proof fn lemma_dominates_reflexive(a: Self) {
    }

    proof fn lemma_dominates_transitive(a: Self, b: Self, c: Self) {
    }

    proof fn lemma_dominates_arrival(a: Self, b: Self) {
    }

    proof fn lemma_code_injective(a: Self, b: Self) {
        lemma_pack_injective(a.arrival.0, a.fare, b.arrival.0, b.fare);
    }

    fn default_ctx() -> (r: Self::Ctx)
        ensures
            r.per_route@ == Map::<u32, u32>::empty(),
    {
        FareTable::new()
    }

    fn unreached_label() -> (r: Self)
        ensures
            r == (ArrivalAndFare { arrival: SecondOfDay(u32::MAX), fare: 0 }),
    {
        ArrivalAndFare { arrival: SecondOfDay(u32::MAX), fare: 0 }
    }

    fn from_departure(_ctx: &Self::Ctx, at: SecondOfDay) -> (r: Self)
        ensures
            r == (ArrivalAndFare { arrival: at, fare: 0 }),
    {
        ArrivalAndFare { arrival: at, fare: 0 }
    }

    fn extend_by_trip(self, ctx: &Self::Ctx, leg: TripContext) -> (r: Self)
        ensures
            r.arrival == leg.arrival,
            r.fare == sat_add(self.fare, ctx.fare_spec(leg.route)),
    {
        let f = ctx.fare_for(leg.route);
        ArrivalAndFare { arrival: leg.arrival, fare: self.fare.saturating_add(f) }
    }

    fn extend_by_footpath(
        self,
        _ctx: &Self::Ctx,
        _from_stop: StopIdx,
        _to_stop: StopIdx,
        walk: Duration,
    ) -> (r: Self)
        ensures
            r.arrival.0 == sat_add(self.arrival.0, walk.0),
            r.fare == self.fare,
    {
        ArrivalAndFare { arrival: self.arrival.plus(walk), fare: self.fare }
    }

    fn dominates(&self, other: &Self) -> (r: bool) {
        self.arrival.0 <= other.arrival.0 && self.fare <= other.fare
    }

    fn arrival(&self) -> (r: SecondOfDay) {
        self.arrival
    }
}

/// Fare-aware dominance: an [`ArrivalAndFare`] label dominates another
/// exactly when it arrives no later and costs no more.
pub proof fn law_fare_dominance(a: ArrivalAndFare, b: ArrivalAndFare)
    ensures
        a.dominates_spec(&b) ==> a.fare <= b.fare,
        a.dominates_spec(&b) ==> a.arrival.0 <= b.arrival.0,
        a.arrival.0 <= b.arrival.0 && a.fare <= b.fare ==> a.dominates_spec(&b),
{
}

/// A faster but dearer label and a slower but cheaper one do not dominate
/// each other, so a label bag holding one keeps the other when it is
/// inserted, and keeps the first one too.
pub proof fn law_fare_tradeoff_kept(fast: ArrivalAndFare, cheap: ArrivalAndFare)
    requires
        fast.arrival.0 < cheap.arrival.0,
        cheap.fare < fast.fare,
    ensures
        !fast.dominates_spec(&cheap),
        !cheap.dominates_spec(&fast),
        !some_dominates(seq![fast], cheap),
        bag_insert(seq![fast], cheap).contains(fast),
        bag_insert(seq![fast], cheap).contains(cheap),
{
    let pred = |x: ArrivalAndFare| !cheap.dominates_spec(&x);
    let s = seq![fast];
    assert(s =~= Seq::<ArrivalAndFare>::empty().push(fast));
    Seq::<ArrivalAndFare>::empty().lemma_filter_push(fast, pred);
    assert(Seq::<ArrivalAndFare>::empty().filter(pred) =~= Seq::<ArrivalAndFare>::empty()) by {
        reveal_with_fuel(Seq::filter, 1);
    }
    assert(s.filter(pred) =~= s);
    let b = bag_insert(s, cheap);
    assert(b[0] == fast);
    assert(b[1] == cheap);
}

/// Walk-aware dominance: an [`ArrivalAndWalk`] label dominates another
/// exactly when it arrives no later and walks no more.
pub proof fn law_walk_dominance(a: ArrivalAndWalk, b: ArrivalAndWalk)
    ensures
        a.dominates_spec(&b) ==> a.walk_time.0 <= b.walk_time.0,
        a.dominates_spec(&b) ==> a.arrival.0 <= b.arrival.0,
        a.arrival.0 <= b.arrival.0 && a.walk_time.0 <= b.walk_time.0 ==> a.dominates_spec(&b),
{
}

} // verus!
