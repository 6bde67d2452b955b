# ferrobus_core

Multimodal (walking + public transit) routing core, verified with Verus.

## Layout

- `src/` — the verified library.
  - `types.rs`, `error.rs` — model records and error values.
  - `collections.rs` — hash maps and sets of `hashbrown`, each behind a small
    wrapper whose contract states what the map holds.
  - `gtfs.rs`, `variants.rs` — loading GTFS feeds: service calendars, date
    filtering, grouping stop times by trip, and laying out route variants.
  - `transit.rs` — the public transit data, its well-formedness and the audit
    that decides it.
  - `transfers.rs`, `relations.rs` — transfers between stops (street walks,
    co-located stops, GTFS transfers) and the relation a model ends up with.
  - `loading.rs`, `snapping.rs`, `streets.rs` — input checks, assembling the
    street graph from OSM nodes and ways, keeping the
    largest street component, and splitting street edges at snapped stops.
  - `point.rs`, `routing.rs`, `traced.rs` — routing endpoints and the choice
    between walking and transit journeys.
  - `isochrone.rs`, `statistics.rs` — grid reachability and travel-time
    statistics.
  - `persist.rs` — the header framing stored artifacts.
- `app/` — file I/O, serde copies of the library types, floating-point
  statistics and the graph pruning call into `petgraph`.
- `tests/` — executable tests of the library.
