//! Round-based public transit routing (RAPTOR): given a transit network,
//! find the Pareto-optimal journeys between stops, trading fewer trips
//! against earlier arrival.

pub mod algorithm;
pub(crate) mod bitset;
pub mod cache;
pub mod endpoints;
pub mod ffi;
pub mod gtfs;
pub mod ids;
pub mod journey;
pub mod label;
pub mod labels;
pub mod manual;
pub mod pareto;
pub mod proptest_support;
pub mod query;
pub mod time;
pub mod timetable;

pub use cache::RaptorCache;
pub use endpoints::Endpoints;
pub use endpoints::IntoEndpoints;
pub use ids::RouteIdx;
pub use ids::StopIdx;
pub use ids::TripIdx;
pub use journey::Journey;
pub use journey::TimedLeg;
pub use journey::TimingError;
pub use label::ArrivalTime;
pub use label::Label;
pub use label::TripContext;
pub use query::NeedsDeparture;
pub use query::Query;
pub use query::RangeDeparture;
pub use query::RangeJourney;
pub use query::SingleDeparture;
pub use time::Duration;
pub use time::ParseSecondOfDayError;
pub use time::SecondOfDay;
pub use time::Transfers;
pub use time::TryFromSignedDurationError;
pub use timetable::Raptor;
pub use timetable::Timetable;
