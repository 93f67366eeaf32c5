//! Dense `u32` indices for stops, routes and trips. Adapters intern
//! external identifiers to these at construction time so the algorithm
//! indexes arrays instead of hashing.

use vstd::prelude::*;

verus! {

/// Dense index of a stop within a timetable; indices are in `0..n_stops`.
#[derive(Debug, Clone, Copy, PartialEq, Eq, PartialOrd, Ord, Hash, Structural)]
pub struct StopIdx(pub u32);

/// Dense index of a route within a timetable; indices are in `0..n_routes`.
#[derive(Debug, Clone, Copy, PartialEq, Eq, PartialOrd, Ord, Hash, Structural)]
pub struct RouteIdx(pub u32);

/// Dense index of a trip within a timetable.
#[derive(Debug, Clone, Copy, PartialEq, Eq, PartialOrd, Ord, Hash, Structural)]
pub struct TripIdx(pub u32);

impl StopIdx {
    /// The raw index, as a mathematical integer.
    pub open spec fn id(self) -> nat {
        self.0 as nat
    }

    /// Construct from a raw `u32`. The caller chooses a value that is a
    /// valid stop of the timetable in question.
    pub fn new(n: u32) -> (r: Self)
        ensures
            r.0 == n,
    {
        StopIdx(n)
    }

    /// The underlying `u32`.
    pub fn get(self) -> (r: u32)
        ensures
            r == self.0,
    {
        self.0
    }

    /// The index as a `usize`, for indexing per-stop arrays.
    pub fn idx(self) -> (r: usize)
        ensures
            r == self.0,
    {
        self.0 as usize
    }

    /// Round trip from a `u32`.
    pub fn from_u32(n: u32) -> (r: Self)
        ensures
            r.0 == n,
    {
        StopIdx(n)
    }

    /// The decimal rendering of the index.
    pub fn to_string(&self) -> (r: String)
        ensures
            r@ == crate::time::decimal(self.0 as nat),
    {
        crate::time::u32_to_string(self.0)
    }
}

impl RouteIdx {
    /// Construct from a raw `u32`. The caller chooses a value that is a
    /// valid route of the timetable in question.
    pub fn new(n: u32) -> (r: Self)
        ensures
            r.0 == n,
    {
        RouteIdx(n)
    }

    /// The underlying `u32`.
    pub fn get(self) -> (r: u32)
        ensures
            r == self.0,
    {
        self.0
    }

    /// The index as a `usize`, for indexing per-route arrays.
    pub fn idx(self) -> (r: usize)
        ensures
            r == self.0,
    {
        self.0 as usize
    }

    /// Round trip from a `u32`.
    pub fn from_u32(n: u32) -> (r: Self)
        ensures
            r.0 == n,
    {
        RouteIdx(n)
    }

    /// The decimal rendering of the index.
    pub fn to_string(&self) -> (r: String)
        ensures
            r@ == crate::time::decimal(self.0 as nat),
    {
        crate::time::u32_to_string(self.0)
    }
}

impl TripIdx {
    /// Construct from a raw `u32`. The caller chooses a value that is a
    /// valid trip of the timetable in question.
    pub fn new(n: u32) -> (r: Self)
        ensures
            r.0 == n,
    {
        TripIdx(n)
    }

    /// The underlying `u32`.
    pub fn get(self) -> (r: u32)
        ensures
            r == self.0,
    {
        self.0
    }

    /// The index as a `usize`, for indexing per-trip arrays.
    pub fn idx(self) -> (r: usize)
        ensures
            r == self.0,
    {
        self.0 as usize
    }

    /// Round trip from a `u32`.
    pub fn from_u32(n: u32) -> (r: Self)
        ensures
            r.0 == n,
    {
        TripIdx(n)
    }

    /// The decimal rendering of the index.
    pub fn to_string(&self) -> (r: String)
        ensures
            r@ == crate::time::decimal(self.0 as nat),
    {
        crate::time::u32_to_string(self.0)
    }
}

impl From<u32> for StopIdx {
    fn from(n: u32) -> (r: StopIdx) {
        StopIdx(n)
    }
}

impl vstd::std_specs::convert::FromSpecImpl<u32> for StopIdx {
    open spec fn obeys_from_spec() -> bool {
        true
    }

    open spec fn from_spec(v: u32) -> StopIdx {
        StopIdx(v)
    }
}

impl From<StopIdx> for u32 {
    fn from(i: StopIdx) -> (r: u32) {
        i.0
    }
}

impl vstd::std_specs::convert::FromSpecImpl<StopIdx> for u32 {
    open spec fn obeys_from_spec() -> bool {
        true
    }

    open spec fn from_spec(v: StopIdx) -> u32 {
        v.0
    }
}

impl From<u32> for RouteIdx {
    fn from(n: u32) -> (r: RouteIdx) {
        RouteIdx(n)
    }
}

impl vstd::std_specs::convert::FromSpecImpl<u32> for RouteIdx {
    open spec fn obeys_from_spec() -> bool {
        true
    }

    open spec fn from_spec(v: u32) -> RouteIdx {
        RouteIdx(v)
    }
}

impl From<RouteIdx> for u32 {
    fn from(i: RouteIdx) -> (r: u32) {
        i.0
    }
}

impl vstd::std_specs::convert::FromSpecImpl<RouteIdx> for u32 {
    open spec fn obeys_from_spec() -> bool {
        true
    }

    open spec fn from_spec(v: RouteIdx) -> u32 {
        v.0
    }
}

impl From<u32> for TripIdx {
    fn from(n: u32) -> (r: TripIdx) {
        TripIdx(n)
    }
}

impl vstd::std_specs::convert::FromSpecImpl<u32> for TripIdx {
    open spec fn obeys_from_spec() -> bool {
        true
    }

    open spec fn from_spec(v: u32) -> TripIdx {
        TripIdx(v)
    }
}

impl From<TripIdx> for u32 {
    fn from(i: TripIdx) -> (r: u32) {
        i.0
    }
}

impl vstd::std_specs::convert::FromSpecImpl<TripIdx> for u32 {
    open spec fn obeys_from_spec() -> bool {
        true
    }

    open spec fn from_spec(v: TripIdx) -> u32 {
        v.0
    }
}

} // verus!
