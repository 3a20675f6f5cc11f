# ontrack-core

Route optimisation for field crews: a list of stops, a cost matrix between
them, and a driving order built by a nearest-neighbour tour refined with 2-opt
moves, with the surrounding rules stated and proved in Verus.

- `src/` is the verified library:
  - `cost`: `f64` costs carried as bit patterns, ordered by integer keys;
  - `solver`: validation, nearest neighbour, the 2-opt search as a state
    machine (`TwoOptSearch`, `TspRun`), route plans and open routes;
  - `matrix`: backend names, the decisions and checks around OSRM, Google and
    great-circle matrices, and the assembly of matrices from their costs;
  - `geocoder`: stops and the decisions taken on geocoding replies;
  - `config`: identity constants and service settings;
  - `exporter`: Google Maps directions links, split into chained links.
- `app/` holds what talks to the outside world or computes in floating point:
  environment settings, HTTP calls to Nominatim, Google, OSRM and ip-api,
  great-circle distances, route totals and the 2-opt gain test, and copies of
  `Location` and `RouteResult` with `f64` fields and serde derives.
- `tests/` exercises the library on concrete values.
