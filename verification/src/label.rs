//! The [`Label`] trait (what the algorithm carries at each `(round, stop)`
//! cell) and the default single-criterion label [`ArrivalTime`].

use vstd::prelude::*;

use crate::ids::{RouteIdx, StopIdx, TripIdx};
use crate::time::{sat_add, Duration, SecondOfDay};

verus! {

/// Per-trip context handed to [`Label::extend_by_trip`].
#[derive(Debug, Clone, Copy)]
pub struct TripContext {
    /// The trip the rider alights from.
    pub trip: TripIdx,
    /// The route the trip belongs to.
    pub route: RouteIdx,
    /// The stop where the rider boarded `trip`.
    pub board_stop: StopIdx,
    /// Position of `board_stop` within the route's stop sequence.
    pub board_pos: u32,
    /// The stop where the rider alights.
    pub alight_stop: StopIdx,
    /// Position of `alight_stop` within the route's stop sequence.
    pub alight_pos: u32,
    /// Arrival time of the trip at `alight_pos`.
    pub arrival: SecondOfDay,
}

/// A label attached to a `(round, stop)` cell during the scan.
///
/// A label carries an effective arrival time plus any further criteria;
/// [`Label::dominates`] is the weak Pareto relation on all criteria, the
/// arrival time among them. The laws below are what the algorithm relies
/// on: dominance is a preorder that implies an earlier-or-equal arrival,
/// the arrival component moves as the docs of each `extend_*` say, and
/// every label has a distinct 64-bit code (so a stop's Pareto bag can only
/// grow finitely often).
pub trait Label: Copy + Sized {
    /// Side data threaded into every label call (fare tables and the like).
    type Ctx;

    /// Effective arrival time, in seconds since midnight.
    spec fn arrival_of(&self) -> u32;

    /// `self` weakly dominates `other` on every criterion.
    spec fn dominates_spec(&self, other: &Self) -> bool;

    /// An injective 64-bit encoding of the label.
    spec fn code(&self) -> u64;

    /// Dominance is reflexive.
    proof fn lemma_dominates_reflexive(a: Self)
        ensures
            a.dominates_spec(&a),
    ;

    /// Dominance is transitive.
    proof fn lemma_dominates_transitive(a: Self, b: Self, c: Self)
        requires
            a.dominates_spec(&b),
            b.dominates_spec(&c),
        ensures
            a.dominates_spec(&c),
    ;

    /// A dominating label arrives no later.
    proof fn lemma_dominates_arrival(a: Self, b: Self)
        requires
            a.dominates_spec(&b),
        ensures
            a.arrival_of() <= b.arrival_of(),
    ;

    /// Distinct labels have distinct codes.
    proof fn lemma_code_injective(a: Self, b: Self)
        requires
            a.code() == b.code(),
        ensures
            a == b,
    ;

    /// The context used when a query supplies none.
    fn default_ctx() -> Self::Ctx;

    /// The "unreached" sentinel: a label that arrives at the latest
    /// representable time.
    fn unreached_label() -> (r: Self)
        ensures
            r.arrival_of() == u32::MAX,
    ;

    /// Initial label at an origin stop reached at `at`.
    fn from_departure(ctx: &Self::Ctx, at: SecondOfDay) -> (r: Self)
        ensures
            r.arrival_of() == at.0,
    ;

    /// Label after riding a trip; its arrival is the trip's arrival.
    fn extend_by_trip(self, ctx: &Self::Ctx, leg: TripContext) -> (r: Self)
        ensures
            r.arrival_of() == leg.arrival.0,
    ;

    /// Label after walking `walk_time` from `from_stop` to `to_stop`; its
    /// arrival advances by the walk, saturating.
    fn extend_by_footpath(
        self,
        ctx: &Self::Ctx,
        from_stop: StopIdx,
        to_stop: StopIdx,
        walk_time: Duration,
    ) -> (r: Self)
        ensures
            r.arrival_of() == sat_add(self.arrival_of(), walk_time.0),
    ;

    /// `self` weakly dominates `other`.
    fn dominates(&self, other: &Self) -> (r: bool)
        ensures
            r == self.dominates_spec(other),
    ;

    /// Effective arrival time at the labelled stop.
    fn arrival(&self) -> (r: SecondOfDay)
        ensures
            r.0 == self.arrival_of(),
    ;
}

/// Single-criterion label: the arrival time at a stop.
#[derive(Copy, Clone, Debug, PartialEq, Eq, PartialOrd, Ord, Hash, Structural)]
pub struct ArrivalTime(pub SecondOfDay);

impl Label for ArrivalTime {
    type Ctx = ();

    open spec fn arrival_of(&self) -> u32 {
        self.0.0
    }

    open spec fn dominates_spec(&self, other: &Self) -> bool {
        self.0.0 <= other.0.0
    }

    open spec fn code(&self) -> u64 {
        self.0.0 as u64
    }

    proof fn lemma_dominates_reflexive(a: Self) {
    }

    proof fn lemma_dominates_transitive(a: Self, b: Self, c: Self) {
    }

    proof fn lemma_dominates_arrival(a: Self, b: Self) {
    }

    proof fn lemma_code_injective(a: Self, b: Self) {
    }

    fn default_ctx() -> Self::Ctx {
    }

    fn unreached_label() -> (r: Self)
        ensures
            r == ArrivalTime(SecondOfDay(u32::MAX)),
    {
        ArrivalTime(SecondOfDay(u32::MAX))
    }

    fn from_departure(_ctx: &Self::Ctx, at: SecondOfDay) -> (r: Self) {
        ArrivalTime(at)
    }

    fn extend_by_trip(self, _ctx: &Self::Ctx, leg: TripContext) -> (r: Self) {
        ArrivalTime(leg.arrival)
    }

    fn extend_by_footpath(
        self,
        _ctx: &Self::Ctx,
        _from_stop: StopIdx,
        _to_stop: StopIdx,
        walk_time: Duration,
    ) -> (r: Self) {
        ArrivalTime(self.0.plus(walk_time))
    }

    fn dominates(&self, other: &Self) -> (r: bool) {
        self.0.0 <= other.0.0
    }

    fn arrival(&self) -> (r: SecondOfDay) {
        self.0
    }
}

/// Arrival-time dominance: one arrival label dominates another exactly
/// when it arrives no later.
pub proof fn law_arrival_dominance(a: ArrivalTime, b: ArrivalTime)
    ensures
        a.dominates_spec(&b) <==> a.0.0 <= b.0.0,
        a.arrival_of() == a.0.0,
{
}

} // verus!
