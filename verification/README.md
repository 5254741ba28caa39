# cityparquet

Verified logic for converting 3D city models between CityJSON, CityGML 2.0
and a columnar package layout. The library is written in Verus: every
function in `src/` carries a `requires` / `ensures` contract that Verus
proves, and the laws the library keeps (round trips, id uniqueness,
partitions, what a refused input leaves behind) stand in `src/` as proof
functions.

## Layout

- `src/` — the verified library.
  - `json.rs`, `text.rs`, `error.rs`: the JSON value model with its view,
    text helpers, and the error type.
  - `xml.rs`, `xml_stream.rs`, `gml.rs`, `appearance_read.rs`,
    `building_read.rs`: CityGML reading as step functions, from one event
    and a state to the next state and an action.
  - `crs.rs`: `srsName` resolution and the reference-system round trip.
  - `shape.rs`, `shells.rs`, `boundaries.rs`, `pools.rs`, `properties.rs`,
    `resolve.rs`, `canonical.rs`, `localise.rs`, `export.rs`: rebuilding
    CityJSON geometry, semantics and appearance from stored rows.
  - `interner.rs`, `appearance.rs`, `semantics.rs`, `layout.rs`,
    `building.rs`, `assembly.rs`, `attributes.rs`, `coerce.rs`,
    `encoding.rs`, `address.rs`, `decode.rs`: the decisions of the
    CityGML writer and of the package encoder.
  - `report.rs`, `counting.rs`: per-run counters.
- `tests/` — tests of the library on concrete values.
- `app/` — the unverified edge: file and XML I/O with `quick-xml`, JSON
  conversion with `serde_json`, object-store access, and the loops that
  drive the library's step functions.
