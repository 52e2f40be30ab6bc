# osm_test

Ship routing on the sea: coastlines taken from OpenStreetMap data are closed into polygons, a
graph of points on the water is searched for routes, and contraction hierarchies and hub labels
speed the searches up.

The library under `src/` is verified with Verus:

- `coastline` joins open coastline ways into closed ones.
- `routing` holds the graphs, the bucket queues, the searches (Dijkstra in several forms, A*,
  bidirectional searches, landmark heuristics), contraction hierarchies (`ch`) and hub labels
  (`hl`). The proofs state, among other things, that the Dijkstra searches answer with shortest
  routes (the bucket-queue searches always; the others, and A* with the zero or distance
  heuristic, where every edge costs less than the 30001 buckets of their queue; the
  bidirectional ones on graphs whose backward edges mirror the forward ones), that the query
  over a contracted graph finds the cheapest meeting of its upward and downward searches, and
  what contracting a node adds and removes. They do not state that A* with landmarks finds
  shortest routes, that the contracted query equals Dijkstra on the original graph, or that
  hub labels cover every shortest route.

`app/` holds what the verifier does not see: floating-point geometry on the sphere and its
spatial partitions, reading OSM, GeoJSON and graph files, and storable copies of library types.
`tests/` runs the library on concrete graphs.
