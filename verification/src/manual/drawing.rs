//! The edges of a [`SimpleTimetable`] drawn as a graph: one edge per hop
//! of each route, carrying every trip's times over that hop, and one edge
//! per footpath, carrying its walking time. Rendering the edges (keys,
//! colours, text) is left to the caller.

use std::hash::Hash;

use vstd::prelude::*;

use super::SimpleTimetable;
use crate::ids::{RouteIdx, StopIdx, TripIdx};
use crate::time::{Duration, SecondOfDay};
use crate::timetable::Timetable;

verus! {

/// The view of one route hop: the route, the stop it leaves, the stop it
/// reaches, and each trip of the route with its departure from the first
/// stop and arrival at the second.
pub open spec fn hop_view(
    h: (RouteIdx, StopIdx, StopIdx, Vec<(TripIdx, SecondOfDay, SecondOfDay)>),
) -> (RouteIdx, StopIdx, StopIdx, Seq<(TripIdx, SecondOfDay, SecondOfDay)>) {
    (h.0, h.1, h.2, h.3@)
}

impl<S: Hash + Eq + Copy, R: Hash + Eq + Copy, T: Hash + Eq + Copy> SimpleTimetable<S, R, T> {
    /// Among the first `n` trip slots, in slot order, the trips of `route`,
    /// each with its departure at position `pos` and its arrival at `pos + 1`.
    pub open spec fn hop_times_upto(&self, route: nat, pos: int, n: nat) -> Seq<(TripIdx, SecondOfDay, SecondOfDay)>
        decreases n,
    {
        if n == 0 {
            Seq::empty()
        } else {
            let prev = self.hop_times_upto(route, pos, (n - 1) as nat);
            let (r, times) = self.trips@[n - 1];
            if r.0 == route {
                prev.push((TripIdx((n - 1) as u32), times@[pos].1, times@[pos + 1].0))
            } else {
                prev
            }
        }
    }

    /// The hops of route `r`, from its first stop to its last.
    pub open spec fn hops_of(&self, r: nat) -> Seq<(RouteIdx, StopIdx, StopIdx, Seq<(TripIdx, SecondOfDay, SecondOfDay)>)> {
        let stops = self.routes@[r as int]@;
        let n: nat = if stops.len() > 0 { (stops.len() - 1) as nat } else { 0 };
        Seq::new(
            n,
            |i: int| (RouteIdx(r as u32), stops[i], stops[i + 1], self.hop_times_upto(r, i, self.trips@.len())),
        )
    }

    /// The hops of the first `n` routes, route by route.
    pub open spec fn hops_upto(&self, n: nat) -> Seq<(RouteIdx, StopIdx, StopIdx, Seq<(TripIdx, SecondOfDay, SecondOfDay)>)>
        decreases n,
    {
        if n == 0 {
            Seq::empty()
        } else {
            self.hops_upto((n - 1) as nat) + self.hops_of((n - 1) as nat)
        }
    }

    /// The footpaths out of stop `s`, in list order, with their walking times.
    pub open spec fn walks_of(&self, s: nat) -> Seq<(StopIdx, StopIdx, Duration)> {
        let outs = self.footpaths@[s as int]@;
        Seq::new(
            outs.len(),
            |i: int| (StopIdx(s as u32), outs[i], Duration(self.transfer_secs(s, outs[i].0 as nat))),
        )
    }

    /// The footpaths out of the first `n` stops, stop by stop.
    pub open spec fn walks_upto(&self, n: nat) -> Seq<(StopIdx, StopIdx, Duration)>
        decreases n,
    {
        if n == 0 {
            Seq::empty()
        } else {
            self.walks_upto((n - 1) as nat) + self.walks_of((n - 1) as nat)
        }
    }

    /// The trips of `route`, in trip order, with their departure at `pos`
    /// and arrival at `pos + 1`.
    fn hop_times(&self, route: u32, pos: usize) -> (v: Vec<(TripIdx, SecondOfDay, SecondOfDay)>)
        requires
            self.inv(),
            route < self.routes@.len(),
            pos + 1 < self.routes@[route as int]@.len(),
        ensures
            v@ == self.hop_times_upto(route as nat, pos as int, self.trips@.len()),
    {
        let mut v: Vec<(TripIdx, SecondOfDay, SecondOfDay)> = Vec::new();
        let mut t: usize = 0;
        while t < self.trips.len()
            invariant
                self.inv(),
                route < self.routes@.len(),
                pos + 1 < self.routes@[route as int]@.len(),
                t <= self.trips@.len(),
                v@ == self.hop_times_upto(route as nat, pos as int, t as nat),
            decreases self.trips@.len() - t,
        {
            let r = self.trips[t].0;
            if r.0 == route {
                assert(self.trips@[t as int].1@.len() == self.routes@[route as int]@.len());
                let dep = self.trips[t].1[pos].1;
                let arr = self.trips[t].1[pos + 1].0;
                v.push((TripIdx(t as u32), dep, arr));
            }
            t = t + 1;
        }
        v
    }

    /// Every hop of every route, route by route and along each route, each
    /// with the times of all of the route's trips over it.
    pub fn route_hops(&self) -> (r: Vec<(RouteIdx, StopIdx, StopIdx, Vec<(TripIdx, SecondOfDay, SecondOfDay)>)>)
        requires
            self.inv(),
        ensures
            r@.map_values(|h| hop_view(h)) == self.hops_upto(self.routes@.len()),
    {
        let mut out: Vec<(RouteIdx, StopIdx, StopIdx, Vec<(TripIdx, SecondOfDay, SecondOfDay)>)> = Vec::new();
        let mut ri: usize = 0;
        while ri < self.routes.len()
            invariant
                self.inv(),
                ri <= self.routes@.len(),
                out@.map_values(|h| hop_view(h)) == self.hops_upto(ri as nat),
            decreases self.routes@.len() - ri,
        {
            let n = self.routes[ri].len();
            let ghost base = out@.map_values(|h| hop_view(h));
            let mut i: usize = 0;
            if n > 0 {
                while i + 1 < n
                    invariant
                        self.inv(),
                        ri < self.routes@.len(),
                        n == self.routes@[ri as int]@.len(),
                        n > 0,
                        i + 1 <= n,
                        out@.map_values(|h| hop_view(h)) == base + self.hops_of(ri as nat).take(i as int),
                    decreases n - i,
                {
                    let from = self.routes[ri][i];
                    let to = self.routes[ri][i + 1];
                    let times = self.hop_times(ri as u32, i);
                    let ghost before = out@;
                    out.push((RouteIdx(ri as u32), from, to, times));
                    proof {
                        assert(out@ == before.push((RouteIdx(ri as u32), from, to, times)));
                        assert(out@.map_values(|h| hop_view(h)) =~= before.map_values(|h| hop_view(h)).push(
                            hop_view((RouteIdx(ri as u32), from, to, times)),
                        ));
                        assert(self.hops_of(ri as nat).take(i + 1) =~= self.hops_of(ri as nat).take(i as int).push(
                            self.hops_of(ri as nat)[i as int],
                        ));
                    }
                    i = i + 1;
                }
            }
            proof {
                assert(self.hops_of(ri as nat).take(i as int) =~= self.hops_of(ri as nat));
            }
            ri = ri + 1;
        }
        out
    }

    /// Every footpath, grouped by the stop it leaves in stop order, each
    /// with its walking time.
    pub fn walk_edges(&self) -> (r: Vec<(StopIdx, StopIdx, Duration)>)
        requires
            self.inv(),
        ensures
            r@ == self.walks_upto(self.footpaths@.len()),
    {
        let mut out: Vec<(StopIdx, StopIdx, Duration)> = Vec::new();
        let mut s: usize = 0;
        while s < self.footpaths.len()
            invariant
                self.inv(),
                s <= self.footpaths@.len(),
                out@ == self.walks_upto(s as nat),
            decreases self.footpaths@.len() - s,
        {
            let ghost base = out@;
            let mut i: usize = 0;
            while i < self.footpaths[s].len()
                invariant
                    self.inv(),
                    s < self.footpaths@.len(),
                    i <= self.footpaths@[s as int]@.len(),
                    out@ == base + self.walks_of(s as nat).take(i as int),
                decreases self.footpaths@[s as int]@.len() - i,
            {
                let to = self.footpaths[s][i];
                let from = StopIdx(s as u32);
                let d = self.get_transfer_time(from, to);
                out.push((from, to, d));
                proof {
                    assert(self.walks_of(s as nat).take(i + 1) =~= self.walks_of(s as nat).take(i as int).push(
                        self.walks_of(s as nat)[i as int],
                    ));
                }
                i = i + 1;
            }
            proof {
                assert(self.walks_of(s as nat).take(i as int) =~= self.walks_of(s as nat));
            }
            s = s + 1;
        }
        out
    }
}

} // verus!
