//! [`Endpoints`]: a query's origin or target set of `(stop, walk offset)`
//! pairs, and [`IntoEndpoints`], which turns the natural input shapes into
//! one.

use vstd::prelude::*;

use crate::ids::StopIdx;
use crate::time::Duration;

verus! {

/// The `(stop, walk offset)` pairs of a query's origins or targets.
#[derive(Debug, Clone)]
pub struct Endpoints {
    /// The pairs, in the order given.
    pub stops: Vec<(StopIdx, Duration)>,
}

impl Endpoints {
    /// No pairs.
    pub fn new() -> (r: Self)
        ensures
            r.stops@ == Seq::<(StopIdx, Duration)>::empty(),
    {
        Endpoints { stops: Vec::new() }
    }

    /// Number of pairs.
    pub fn len(&self) -> (r: usize)
        ensures
            r == self.stops@.len(),
    {
        self.stops.len()
    }

    /// Whether there are no pairs.
    pub fn is_empty(&self) -> (r: bool)
        ensures
            r == (self.stops@.len() == 0),
    {
        self.stops.len() == 0
    }

    /// The pairs.
    pub fn as_slice(&self) -> (r: &[(StopIdx, Duration)])
        ensures
            r@ == self.stops@,
    {
        self.stops.as_slice()
    }

    /// Appends one pair.
    pub fn push(&mut self, stop: StopIdx, walk: Duration)
        ensures
            final(self).stops@ == old(self).stops@.push((stop, walk)),
    {
        self.stops.push((stop, walk));
    }

    /// One pair per raw stop index, each with no walk.
    pub fn from_stop_indices(stops: &[u32]) -> (r: Self)
        ensures
            r.stops@ == Seq::new(stops@.len(), |i: int| (StopIdx(stops@[i]), Duration(0))),
    {
        let mut e = Endpoints::new();
        let mut i: usize = 0;
        while i < stops.len()
            invariant
                i <= stops@.len(),
                e.stops@ == Seq::new(i as nat, |j: int| (StopIdx(stops@[j]), Duration(0))),
            decreases stops@.len() - i,
        {
            e.push(StopIdx::new(stops[i]), Duration(0));
            assert(e.stops@ =~= Seq::new((i + 1) as nat, |j: int| (StopIdx(stops@[j]), Duration(0))));
            i = i + 1;
        }
        e
    }

    /// One pair per raw `(stop index, walk seconds)`.
    pub fn from_pairs(pairs: &[(u32, u32)]) -> (r: Self)
        ensures
            r.stops@ == Seq::new(pairs@.len(), |i: int| (StopIdx(pairs@[i].0), Duration(pairs@[i].1))),
    {
        let mut e = Endpoints::new();
        let mut i: usize = 0;
        while i < pairs.len()
            invariant
                i <= pairs@.len(),
                e.stops@ == Seq::new(i as nat, |j: int| (StopIdx(pairs@[j].0), Duration(pairs@[j].1))),
            decreases pairs@.len() - i,
        {
            let (s, w) = pairs[i];
            e.push(StopIdx::new(s), Duration(w));
            assert(e.stops@ =~= Seq::new((i + 1) as nat, |j: int| (StopIdx(pairs@[j].0), Duration(pairs@[j].1))));
            i = i + 1;
        }
        e
    }
}

/// The input shapes a query accepts as origins or targets.
pub trait IntoEndpoints: Sized {
    /// The pairs this value stands for.
    spec fn pairs_of(&self) -> Seq<(StopIdx, Duration)>;

    /// The pairs as an [`Endpoints`].
    fn into_endpoints(self) -> (r: Endpoints)
        ensures
            r.stops@ == self.pairs_of(),
    ;
}

impl IntoEndpoints for StopIdx {
    /// The stop with no walk.
    open spec fn pairs_of(&self) -> Seq<(StopIdx, Duration)> {
        seq![(*self, Duration(0))]
    }

    fn into_endpoints(self) -> (r: Endpoints) {
        let mut e = Endpoints::new();
        e.push(self, Duration(0));
        assert(e.stops@ =~= seq![(self, Duration(0))]);
        e
    }
}

impl IntoEndpoints for (StopIdx, Duration) {
    /// The one pair.
    open spec fn pairs_of(&self) -> Seq<(StopIdx, Duration)> {
        seq![*self]
    }

    fn into_endpoints(self) -> (r: Endpoints) {
        let mut e = Endpoints::new();
        e.push(self.0, self.1);
        assert(e.stops@ =~= seq![self]);
        e
    }
}

impl IntoEndpoints for Vec<StopIdx> {
    /// Each stop with no walk.
    open spec fn pairs_of(&self) -> Seq<(StopIdx, Duration)> {
        Seq::new(self@.len(), |i: int| (self@[i], Duration(0)))
    }

    fn into_endpoints(self) -> (r: Endpoints) {
        let mut e = Endpoints::new();
        let mut i: usize = 0;
        while i < self.len()
            invariant
                i <= self@.len(),
                e.stops@ == Seq::new(i as nat, |j: int| (self@[j], Duration(0))),
            decreases self@.len() - i,
        {
            e.push(self[i], Duration(0));
            assert(e.stops@ =~= Seq::new((i + 1) as nat, |j: int| (self@[j], Duration(0))));
            i = i + 1;
        }
        e
    }
}

impl IntoEndpoints for Vec<(StopIdx, Duration)> {
    /// The pairs as given.
    open spec fn pairs_of(&self) -> Seq<(StopIdx, Duration)> {
        self@
    }

    fn into_endpoints(self) -> (r: Endpoints) {
        Endpoints { stops: self }
    }
}

impl IntoEndpoints for Endpoints {
    /// The pairs as held.
    open spec fn pairs_of(&self) -> Seq<(StopIdx, Duration)> {
        self.stops@
    }

    fn into_endpoints(self) -> (r: Endpoints) {
        self
    }
}


/// The pairs for `stops`, each with no walk.
pub open spec fn zero_walk(stops: Seq<StopIdx>) -> Seq<(StopIdx, Duration)> {
    Seq::new(stops.len(), |i: int| (stops[i], Duration(0)))
}

/// An [`Endpoints`] with each stop of `stops` and no walk.
fn zero_walk_endpoints(stops: &[StopIdx]) -> (r: Endpoints)
    ensures
        r.stops@ == zero_walk(stops@),
{
    let mut e = Endpoints::new();
    let mut i: usize = 0;
    while i < stops.len()
        invariant
            i <= stops@.len(),
            e.stops@ == Seq::new(i as nat, |j: int| (stops@[j], Duration(0))),
        decreases stops@.len() - i,
    {
        e.push(stops[i], Duration(0));
        assert(e.stops@ =~= Seq::new((i + 1) as nat, |j: int| (stops@[j], Duration(0))));
        i = i + 1;
    }
    e
}

/// An [`Endpoints`] holding a copy of `pairs`.
fn copied_endpoints(pairs: &[(StopIdx, Duration)]) -> (r: Endpoints)
    ensures
        r.stops@ == pairs@,
{
    let mut e = Endpoints::new();
    let mut i: usize = 0;
    while i < pairs.len()
        invariant
            i <= pairs@.len(),
            e.stops@ == pairs@.subrange(0, i as int),
        decreases pairs@.len() - i,
    {
        let (s, w) = pairs[i];
        e.push(s, w);
        assert(e.stops@ =~= pairs@.subrange(0, i + 1));
        i = i + 1;
    }
    assert(pairs@.subrange(0, pairs@.len() as int) =~= pairs@);
    e
}

impl<'a> IntoEndpoints for &'a [StopIdx] {
    /// Each stop with no walk.
    open spec fn pairs_of(&self) -> Seq<(StopIdx, Duration)> {
        zero_walk(self@)
    }

    fn into_endpoints(self) -> (r: Endpoints) {
        zero_walk_endpoints(self)
    }
}

impl<'a, const N: usize> IntoEndpoints for &'a [StopIdx; N] {
    /// Each stop with no walk.
    open spec fn pairs_of(&self) -> Seq<(StopIdx, Duration)> {
        zero_walk(self@)
    }

    fn into_endpoints(self) -> (r: Endpoints) {
        zero_walk_endpoints(self.as_slice())
    }
}

impl<'a> IntoEndpoints for &'a Vec<StopIdx> {
    /// Each stop with no walk.
    open spec fn pairs_of(&self) -> Seq<(StopIdx, Duration)> {
        zero_walk(self@)
    }

    fn into_endpoints(self) -> (r: Endpoints) {
        zero_walk_endpoints(self.as_slice())
    }
}

impl<'a> IntoEndpoints for &'a [(StopIdx, Duration)] {
    /// The pairs as given.
    open spec fn pairs_of(&self) -> Seq<(StopIdx, Duration)> {
        self@
    }

    fn into_endpoints(self) -> (r: Endpoints) {
        copied_endpoints(self)
    }
}

impl<'a, const N: usize> IntoEndpoints for &'a [(StopIdx, Duration); N] {
    /// The pairs as given.
    open spec fn pairs_of(&self) -> Seq<(StopIdx, Duration)> {
        self@
    }

    fn into_endpoints(self) -> (r: Endpoints) {
        copied_endpoints(self.as_slice())
    }
}

impl<'a> IntoEndpoints for &'a Vec<(StopIdx, Duration)> {
    /// The pairs as given.
    open spec fn pairs_of(&self) -> Seq<(StopIdx, Duration)> {
        self@
    }

    fn into_endpoints(self) -> (r: Endpoints) {
        copied_endpoints(self.as_slice())
    }
}

impl<'a> IntoEndpoints for &'a Endpoints {
    /// The pairs as held.
    open spec fn pairs_of(&self) -> Seq<(StopIdx, Duration)> {
        self.stops@
    }

    fn into_endpoints(self) -> (r: Endpoints) {
        copied_endpoints(self.stops.as_slice())
    }
}

} // verus!
