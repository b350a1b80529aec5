# dijkstra

A diff of two syntax trees as a shortest route through a graph. A vertex of the
graph is a pair of positions in the two trees, an edge is one step of matching
them up (a node is unchanged, novel, entered, left), and the cheapest route from
the start to an end vertex is the diff.

The library is verified with Verus.

## Modules

- `syntax`: syntax nodes, and how many there are.
- `graph`: vertices, edges, and what a search asks of a graph.
- `listing`: a graph that is written out row by row.
- `estimate`: the estimate of what is left to the end.
- `paths`: trails, routes, their costs, and which are shortest.
- `search`: what holds of every search that improves distances as it goes.
- `fringe`: `fringe_search`, in rounds of growing thresholds.
- `best_first`: `shortest_vertex_path`, least estimated total first, within a limit
  on the vertices reached.
- `distances`: what is really left to the end in a listing, and whether the estimates
  stay below that.
- `heap`: the priority queue of the best-first search.
- `predecessors`: the map of what has been reached, and the way back through it.
- `arena`: where the vertices of a search are kept.
- `route`: `edge_between`, `shortest_path_with_edges`, `shortest_path`.
- `changes`: what becomes of each node.
- `mark`: `mark_syntax`, the whole diff.
- `laws`: what holds of routes and searches taken together.

## What is proved

Both searches return a route from the start to an end vertex, the first on the route,
and never run out of vertices.

The route of the fringe search, on which `shortest_path` and `mark_syntax` rest, is a
shortest one, whatever the estimates are.

The best-first search stops earlier, and goes by the estimates. They mislead along a
way if, at some vertex past the start, the estimate exceeds what the rest of the way
costs. No way along which they do not mislead is cheaper than the route returned. For
a listing, `check_admissible` tells whether they ever mislead. Without lists they never
do; with lists they may.

Which route a search returns depends on the graph and the start alone. A larger limit
never turns success into failure, nor does it change the route.

No sum overflows on a graph whose trails are `affordable`; every graph that passes
`Listing::check` is.

## What is trusted

The arena is `bumpalo::Bump` and the maps are `rustc_hash::FxHashMap`. The contracts
of the calls into them stand in `arena` and `predecessors`, and are believed as they
are written there.
