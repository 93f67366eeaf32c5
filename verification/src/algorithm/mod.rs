//! The RAPTOR scan: Pareto label bags, the boarding tree, footpath
//! relaxation, the per-call rounds loop and the range-query scan.

pub mod itinerary;
pub mod label_bag;
pub mod boarding;
pub mod footpaths;
pub mod per_call;
pub mod range;
