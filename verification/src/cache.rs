//! [`RaptorCache`]: the scratch state of a query (label bags per round and
//! stop, best labels per stop, the boarding tree, marked stops, the route
//! queue), sized for one timetable and reset between queries.

use fixedbitset::FixedBitSet;
use vstd::prelude::*;

use crate::algorithm::boarding::{rides_from_round_one, tree_valid, BoardingTree, Step};
use crate::algorithm::label_bag::LabelBag;
use crate::bitset::{bit_capacity, bitset_clear, bitset_with_capacity, bits_in_range, bits_of};
use crate::ids::{RouteIdx, StopIdx};
use crate::label::{ArrivalTime, Label};
use crate::timetable::Timetable;

verus! {

broadcast use {vstd::std_specs::btree::group_btree_axioms, vstd::laws_cmp::group_laws_cmp};

/// Reusable scratch state for queries against one timetable.
pub struct RaptorCache<L: Label = ArrivalTime> {
    /// Number of stops the cache is sized for.
    pub n_stops: u32,
    /// Number of routes the cache is sized for.
    pub n_routes: u32,
    /// `labels[k][stop]`: the Pareto bag at `stop` with at most `k` trips.
    pub labels: Vec<Vec<LabelBag<L>>>,
    /// The best labels at each stop over all rounds.
    pub best_arrival: Vec<LabelBag<L>>,
    /// How each label was reached.
    pub board_detail: BoardingTree,
    /// Stops improved in the current round.
    pub marked_stops: FixedBitSet,
    /// Per route, the earliest position to board from this round.
    pub q_entry: Vec<Option<u32>>,
    /// The routes with an entry in `q_entry`.
    pub q_routes: Vec<RouteIdx>,
    /// Stops a footpath pass improved.
    pub walked_buf: Vec<StopIdx>,
    /// The query's origin stops.
    pub origin_set: FixedBitSet,
    /// Footpath relaxation queue of `(arrival, stop)`.
    pub relax_heap: Vec<(u32, u32)>,
    /// Stops with a label in some round of this query.
    pub ever_reached: FixedBitSet,
}

/// `labels` has `rounds` rows of `n` bags each.
pub open spec fn labels_shape<L>(labels: Seq<Vec<LabelBag<L>>>, rounds: nat, n: nat) -> bool {
    &&& labels.len() == rounds
    &&& forall|k: int| 0 <= k < rounds ==> (#[trigger] labels[k])@.len() == n
}

/// A bitset over `n` stops.
pub open spec fn stop_set(b: FixedBitSet, n: nat) -> bool {
    bit_capacity(b) == n && bits_in_range(b)
}

impl<L: Label> RaptorCache<L> {
    /// The cache's buffers are sized for `n` stops and `nr` routes, with
    /// `rounds` rows of label bags.
    pub open spec fn sized(&self, n: nat, nr: nat, rounds: nat) -> bool {
        &&& self.n_stops == n
        &&& self.n_routes == nr
        &&& labels_shape(self.labels@, rounds, n)
        &&& self.best_arrival@.len() == n
        &&& stop_set(self.marked_stops, n)
        &&& stop_set(self.ever_reached, n)
        &&& stop_set(self.origin_set, n)
        &&& self.q_entry@.len() == nr
    }

    /// The buffers that keep their size across queries match the counts
    /// the cache was made for.
    pub open spec fn dims_ok(&self) -> bool {
        &&& self.best_arrival@.len() == self.n_stops
        &&& self.q_entry@.len() == self.n_routes
        &&& bit_capacity(self.marked_stops) == self.n_stops
        &&& bit_capacity(self.ever_reached) == self.n_stops
        &&& bit_capacity(self.origin_set) == self.n_stops
    }

    /// Sized for `tt` with `rounds` rows, and a boarding tree consistent
    /// with it (the route queue may be in use).
    pub open spec fn state_ok<T: Timetable>(&self, tt: &T, rounds: nat) -> bool {
        &&& self.sized(tt.stop_count(), tt.route_count(), rounds)
        &&& self.dims_ok()
        &&& tree_valid(tt, self.board_detail@)
        &&& rides_from_round_one(self.board_detail@)
        &&& forall|i: int| 0 <= i < self.walked_buf@.len() ==> (#[trigger] self.walked_buf@[i]).0 < tt.stop_count()
        &&& forall|i: int| 0 <= i < self.relax_heap@.len() ==> (#[trigger] self.relax_heap@[i]).1 < tt.stop_count()
        &&& forall|i: int| 0 <= i < self.q_routes@.len() ==> (#[trigger] self.q_routes@[i]).0 < tt.route_count()
    }

    /// The cache is ready for a query of `transfers` rounds on `tt`: sized
    /// for it, with a boarding tree consistent with it.
    pub open spec fn ready<T: Timetable>(&self, tt: &T, transfers: nat) -> bool {
        &&& self.state_ok(tt, transfers + 1)
        &&& forall|r: int| 0 <= r < self.q_entry@.len() ==> (#[trigger] self.q_entry@[r]) is None
        &&& self.q_routes@.len() == 0
    }

    /// A cache sized for `tt`.
    pub fn for_timetable<T: Timetable>(tt: &T) -> (r: Self)
        requires
            tt.well_formed(),
        ensures
            r.n_stops == tt.stop_count(),
            r.n_routes == tt.route_count(),
            r.dims_ok(),
    {
        proof {
            tt.lemma_shape();
        }
        Self::with_capacity(tt.n_stops() as u32, tt.n_routes() as u32)
    }

    /// A cache sized for `n_stops` stops and `n_routes` routes.
    pub fn with_capacity(n_stops: u32, n_routes: u32) -> (r: Self)
        ensures
            r.n_stops == n_stops,
            r.n_routes == n_routes,
            r.dims_ok(),
            r.labels@.len() == 0,
            r.best_arrival@.len() == n_stops,
            r.q_entry@.len() == n_routes,
            r.board_detail@ == Map::<(usize, u32, u32), Step>::empty(),
    {
        let mut best_arrival: Vec<LabelBag<L>> = Vec::new();
        let mut i: u32 = 0;
        while i < n_stops
            invariant
                i <= n_stops,
                best_arrival@.len() == i,
            decreases n_stops - i,
        {
            best_arrival.push(LabelBag::new());
            i = i + 1;
        }
        let mut q_entry: Vec<Option<u32>> = Vec::new();
        let mut r: u32 = 0;
        while r < n_routes
            invariant
                r <= n_routes,
                q_entry@.len() == r,
            decreases n_routes - r,
        {
            q_entry.push(None);
            r = r + 1;
        }
        RaptorCache {
            n_stops,
            n_routes,
            labels: Vec::new(),
            best_arrival,
            board_detail: BoardingTree::new(),
            marked_stops: bitset_with_capacity(n_stops as usize),
            q_entry,
            q_routes: Vec::new(),
            walked_buf: Vec::new(),
            origin_set: bitset_with_capacity(n_stops as usize),
            relax_heap: Vec::new(),
            ever_reached: bitset_with_capacity(n_stops as usize),
        }
    }

    /// Resets the cache for a query of `transfers` rounds: `transfers + 1`
    /// rows of empty bags, empty best labels, an empty tree, no marked or
    /// reached stops, an empty route queue. The cache must be sized for the
    /// timetable (a mismatch is a caller error).
    pub fn reset_for_query(&mut self, transfers: usize, tt_n_stops: u32, tt_n_routes: u32)
        requires
            old(self).n_stops == tt_n_stops,
            old(self).n_routes == tt_n_routes,
            old(self).dims_ok(),
            transfers < usize::MAX,
        ensures
            final(self).dims_ok(),
            final(self).sized(tt_n_stops as nat, tt_n_routes as nat, (transfers + 1) as nat),
            final(self).board_detail@ == Map::<(usize, u32, u32), Step>::empty(),
            bits_of(final(self).marked_stops) == Set::<nat>::empty(),
            bits_of(final(self).ever_reached) == Set::<nat>::empty(),
            bits_of(final(self).origin_set) == Set::<nat>::empty(),
            forall|k: int, s: int|
                0 <= k <= transfers && 0 <= s < tt_n_stops ==> (#[trigger] final(self).labels@[k]@[s]).items@.len() == 0,
            forall|s: int| 0 <= s < tt_n_stops ==> (#[trigger] final(self).best_arrival@[s]).items@.len() == 0,
            forall|r: int| 0 <= r < tt_n_routes ==> (#[trigger] final(self).q_entry@[r]) is None,
            final(self).q_routes@.len() == 0,
            final(self).walked_buf@.len() == 0,
            final(self).relax_heap@.len() == 0,
    {
        let n = self.n_stops;
        let mut labels: Vec<Vec<LabelBag<L>>> = Vec::new();
        let mut k: usize = 0;
        while k <= transfers
            invariant
                k <= transfers + 1,
                transfers < usize::MAX,
                labels@.len() == k,
                forall|x: int| 0 <= x < k ==> (#[trigger] labels@[x])@.len() == n,
                forall|x: int, s: int| 0 <= x < k && 0 <= s < n ==> (#[trigger] labels@[x]@[s]).items@.len() == 0,
            decreases transfers + 1 - k,
        {
            let mut row: Vec<LabelBag<L>> = Vec::new();
            let mut i: u32 = 0;
            while i < n
                invariant
                    i <= n,
                    row@.len() == i,
                    forall|s: int| 0 <= s < i ==> (#[trigger] row@[s]).items@.len() == 0,
                decreases n - i,
            {
                row.push(LabelBag::new());
                i = i + 1;
            }
            labels.push(row);
            k = k + 1;
        }
        let mut best: Vec<LabelBag<L>> = Vec::new();
        let mut s: u32 = 0;
        while s < n
            invariant
                s <= n,
                best@.len() == s,
                forall|x: int| 0 <= x < s ==> (#[trigger] best@[x]).items@.len() == 0,
            decreases n - s,
        {
            best.push(LabelBag::new());
            s = s + 1;
        }
        let nr = self.n_routes;
        let mut q_entry: Vec<Option<u32>> = Vec::new();
        let mut r: u32 = 0;
        while r < nr
            invariant
                r <= nr,
                q_entry@.len() == r,
                forall|x: int| 0 <= x < r ==> (#[trigger] q_entry@[x]) is None,
            decreases nr - r,
        {
            q_entry.push(None);
            r = r + 1;
        }
        self.labels = labels;
        self.best_arrival = best;
        self.q_entry = q_entry;
        self.board_detail.clear();
        bitset_clear(&mut self.marked_stops);
        bitset_clear(&mut self.ever_reached);
        bitset_clear(&mut self.origin_set);
        self.q_routes.clear();
        self.walked_buf.clear();
        self.relax_heap.clear();
    }
}

} // verus!
