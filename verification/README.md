# vulture

Round-based public transit routing (RAPTOR) with machine-checked contracts.
Given a timetable, the router finds the journeys between stops that are
Pareto-optimal on (fewer trips, better label) — by default the label is the
arrival time; an arrival-and-walk and an arrival-and-fare label come with it,
and other labels plug in through the `Label` trait.

## Layout

- `src/` — the library, verified with Verus.
  - `time.rs`, `ids.rs` — time newtypes (saturating arithmetic, `HH:MM:SS`
    rendering and parsing) and dense indices.
  - `label.rs`, `labels.rs` — the `Label` trait and the bundled labels.
  - `timetable.rs` — the `Timetable` trait the router runs on.
  - `algorithm/` — label bags, route scans, footpath relaxation, the
    per-departure rounds and the range (rRAPTOR) scan, and the itinerary
    model (rides and walks run against the timetable) that every returned
    label is proved to be reachable by. A route scan is proved complete on
    routes whose trips do not overtake: every later stop is reached by the
    earliest catchable trip's arrival, or pruned.
  - `pareto.rs`, `journey.rs`, `query.rs`, `endpoints.rs`, `cache.rs`,
    `ffi.rs` — Pareto fronts, journeys with per-leg timing, the typestate
    query builder, origin/target endpoints, reusable scratch space, and flat
    entry points.
  - `manual/` — an in-memory timetable built by hand, synthetic networks,
    and its edges (route hops with trip times, footpaths with walking times)
    for drawing.
  - `gtfs/` — service calendars, the non-overtaking split of GTFS routes, and
    the dense timetable built from a resolved feed.
  - `proptest_support/` — generated-network descriptions, their rendering,
    and brute-force reference solvers (single- and multi-source) used as
    ground truth.
- `app/` — the parts that stay outside verification: the thread-safe cache
  pool and parallel range runs (Rayon), loading a `gtfs-structures` feed,
  coordinate-derived walking footpaths (floating point, R-tree), Graphviz
  text for the timetable's edges, and error types with `std::error::Error`.
- `tests/` — unit and scenario tests of the library.
