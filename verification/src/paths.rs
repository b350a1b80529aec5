//! What a path through a graph is, what it costs, and which one is shortest.
//!
//! A trail says which edges are taken and where each of them leads. A route says
//! only which vertices are passed.

use vstd::prelude::*;

use crate::estimate::{estimate, estimate_fits};
use crate::graph::{Edge, Graph, Vertex};

verus! {

/// The vertex that a trail has reached after `i` steps.
pub open spec fn vertex_at<'a>(
    from: Vertex<'a>,
    steps: Seq<(Edge, Vertex<'a>)>,
    i: int,
) -> Vertex<'a> {
    if i <= 0 {
        from
    } else {
        steps[i - 1].1
    }
}

/// The vertex at which a trail stops.
pub open spec fn trail_end<'a>(from: Vertex<'a>, steps: Seq<(Edge, Vertex<'a>)>) -> Vertex<'a> {
    vertex_at(from, steps, steps.len() as int)
}

/// `steps` can be taken one after the other, starting at `from`.
pub open spec fn trail<'a, G: Graph<'a>>(
    g: &G,
    from: Vertex<'a>,
    steps: Seq<(Edge, Vertex<'a>)>,
) -> bool {
    forall|i: int|
        0 <= i < steps.len() ==> g.successors(vertex_at(from, steps, i)).contains(
            #[trigger] steps[i],
        )
}

/// What the edges of a trail cost together.
pub open spec fn trail_cost<'a, G: Graph<'a>>(g: &G, steps: Seq<(Edge, Vertex<'a>)>) -> nat
    decreases steps.len(),
{
    if steps.len() == 0 {
        0
    } else {
        trail_cost(g, steps.drop_last()) + g.edge_cost(steps.last().0) as nat
    }
}

/// `steps` leads from `from` to an end vertex.
pub open spec fn trail_to_end<'a, G: Graph<'a>>(
    g: &G,
    from: Vertex<'a>,
    steps: Seq<(Edge, Vertex<'a>)>,
) -> bool {
    trail(g, from, steps) && trail_end(from, steps).end
}

/// No edge from `u` to `v` is cheaper than `edge`, nor as cheap and listed earlier.
pub open spec fn is_shortest_edge<'a, G: Graph<'a>>(
    g: &G,
    u: Vertex<'a>,
    v: Vertex<'a>,
    edge: Edge,
) -> bool {
    exists|i: int|
        {
            &&& 0 <= i < g.successors(u).len()
            &&& #[trigger] g.successors(u)[i] == (edge, v)
            &&& forall|j: int|
                0 <= j < g.successors(u).len() && (#[trigger] g.successors(u)[j]).1 == v ==> {
                    &&& g.edge_cost(edge) <= g.edge_cost(g.successors(u)[j].0)
                    &&& j < i ==> g.edge_cost(edge) < g.edge_cost(g.successors(u)[j].0)
                }
        }
}

/// The edge to take from `u` to `v`.
pub open spec fn shortest_edge<'a, G: Graph<'a>>(g: &G, u: Vertex<'a>, v: Vertex<'a>) -> Edge {
    choose|edge: Edge| is_shortest_edge(g, u, v, edge)
}

/// Some edge leads from `u` to `v`.
pub open spec fn linked<'a, G: Graph<'a>>(g: &G, u: Vertex<'a>, v: Vertex<'a>) -> bool {
    exists|i: int| 0 <= i < g.successors(u).len() && (#[trigger] g.successors(u)[i]).1 == v
}

/// An edge leads from each vertex of `route` to the next.
pub open spec fn is_route<'a, G: Graph<'a>>(g: &G, route: Seq<Vertex<'a>>) -> bool {
    &&& route.len() > 0
    &&& forall|i: int|
        0 <= i < route.len() ==> g.has_vertex(#[trigger] route[i])
    &&& forall|i: int, j: int|
        0 <= i && i + 1 == j && j < route.len() ==> linked(
            g,
            #[trigger] route[i],
            #[trigger] route[j],
        )
}

/// What the edges between the vertices of `route` cost together.
pub open spec fn route_cost<'a, G: Graph<'a>>(g: &G, route: Seq<Vertex<'a>>) -> nat
    decreases route.len(),
{
    if route.len() <= 1 {
        0
    } else {
        route_cost(g, route.drop_last()) + g.edge_cost(
            shortest_edge(g, route[route.len() - 2], route.last()),
        ) as nat
    }
}

/// `route` leads from `start` to an end vertex.
pub open spec fn route_to_end<'a, G: Graph<'a>>(
    g: &G,
    start: Vertex<'a>,
    route: Seq<Vertex<'a>>,
) -> bool {
    &&& is_route(g, route)
    &&& route[0] == start
    &&& route.last().end
}

/// No way from `start` to an end vertex is cheaper than `route`.
pub open spec fn is_shortest<'a, G: Graph<'a>>(
    g: &G,
    start: Vertex<'a>,
    route: Seq<Vertex<'a>>,
) -> bool {
    forall|steps: Seq<(Edge, Vertex<'a>)>| #[trigger]
        trail_to_end(g, start, steps) ==> route_cost(g, route) <= trail_cost(g, steps)
}

/// The edges between the vertices of `route`, each with the vertex that it leaves.
pub open spec fn with_edges<'a, G: Graph<'a>>(g: &G, route: Seq<Vertex<'a>>) -> Seq<
    (Edge, Vertex<'a>),
> {
    Seq::new(
        (route.len() - 1) as nat,
        |i: int| (shortest_edge(g, route[i], route[i + 1]), route[i]),
    )
}

/// The edges between the vertices of `route`, each with the vertex that it leads to.
pub open spec fn steps_of<'a, G: Graph<'a>>(g: &G, route: Seq<Vertex<'a>>) -> Seq<
    (Edge, Vertex<'a>),
> {
    Seq::new(
        (route.len() - 1) as nat,
        |i: int| (shortest_edge(g, route[i], route[i + 1]), route[i + 1]),
    )
}

/// At no vertex that a trail leads to does the estimate exceed what the rest of
/// the trail costs. The estimate at `from` itself may.
pub open spec fn well_estimated<'a, G: Graph<'a>>(
    g: &G,
    from: Vertex<'a>,
    steps: Seq<(Edge, Vertex<'a>)>,
) -> bool {
    forall|i: int|
        0 < i <= steps.len() ==> estimate(g, #[trigger] vertex_at(from, steps, i)) <= trail_cost(
            g,
            steps.skip(i),
        )
}

/// No way from `start` to an end vertex is cheaper than `route`, unless the
/// estimates mislead along that way.
pub open spec fn is_unbeaten<'a, G: Graph<'a>>(
    g: &G,
    start: Vertex<'a>,
    route: Seq<Vertex<'a>>,
) -> bool {
    forall|steps: Seq<(Edge, Vertex<'a>)>| #[trigger]
        trail_to_end(g, start, steps) && well_estimated(g, start, steps) ==> route_cost(g, route)
            <= trail_cost(g, steps)
}

/// The estimate at `v` exceeds the cost of no way from there to an end vertex.
pub open spec fn admissible_at<'a, G: Graph<'a>>(g: &G, v: Vertex<'a>) -> bool {
    forall|steps: Seq<(Edge, Vertex<'a>)>| #[trigger]
        trail_to_end(g, v, steps) ==> estimate(g, v) <= trail_cost(g, steps)
}

/// The estimates mislead along no way from `start` to an end vertex.
pub open spec fn admissible<'a, G: Graph<'a>>(g: &G, start: Vertex<'a>) -> bool {
    forall|steps: Seq<(Edge, Vertex<'a>)>| #[trigger]
        trail_to_end(g, start, steps) ==> well_estimated(g, start, steps)
}

/// No vertex of `route` but the last is an end vertex.
pub open spec fn stops_at_end<'a>(route: Seq<Vertex<'a>>) -> bool {
    forall|i: int| 0 <= i < route.len() - 1 ==> !(#[trigger] route[i]).end
}

/// Along every trail from `start`, what has been spent and the estimate of what
/// is left, on top of `base`, fit in a `u64`.
pub open spec fn affordable<'a, G: Graph<'a>>(g: &G, start: Vertex<'a>, base: int) -> bool {
    forall|steps: Seq<(Edge, Vertex<'a>)>| #[trigger]
        trail(g, start, steps) ==> {
            &&& estimate_fits(g, trail_end(start, steps))
            &&& base + trail_cost(g, steps) + estimate(g, trail_end(start, steps)) <= u64::MAX
        }
}

/// The vertices of a trail belong to the graph, and each step uses up some of
/// what remains.
pub proof fn lemma_trail_vertex<'a, G: Graph<'a>>(
    g: &G,
    from: Vertex<'a>,
    steps: Seq<(Edge, Vertex<'a>)>,
    i: int,
)
    requires
        g.has_vertex(from),
        trail(g, from, steps),
        0 <= i <= steps.len(),
    ensures
        g.has_vertex(vertex_at(from, steps, i)),
        g.remaining(vertex_at(from, steps, i)) + i <= g.remaining(from),
    decreases i,
{
    if i > 0 {
        lemma_trail_vertex(g, from, steps, i - 1);
        let before = vertex_at(from, steps, i - 1);
        g.lemma_vertex(before);
        assert(g.successors(before).contains(steps[i - 1]));
        let j = choose|j: int|
            0 <= j < g.successors(before).len() && g.successors(before)[j] == steps[i - 1];
        assert(g.has_vertex(g.successors(before)[j].1));
    }
}

/// A trail can be extended by any edge of its last vertex.
pub proof fn lemma_trail_push<'a, G: Graph<'a>>(
    g: &G,
    from: Vertex<'a>,
    steps: Seq<(Edge, Vertex<'a>)>,
    step: (Edge, Vertex<'a>),
)
    requires
        trail(g, from, steps),
        g.successors(trail_end(from, steps)).contains(step),
    ensures
        trail(g, from, steps.push(step)),
        trail_end(from, steps.push(step)) == step.1,
        trail_cost(g, steps.push(step)) == trail_cost(g, steps) + g.edge_cost(step.0),
{
    let longer = steps.push(step);
    assert forall|i: int| 0 <= i < longer.len() implies g.successors(
        vertex_at(from, longer, i),
    ).contains(#[trigger] longer[i]) by {
        assert(vertex_at(from, longer, i) == vertex_at(from, steps, i));
        if i < steps.len() {
            assert(longer[i] == steps[i]);
        }
    }
    assert(longer.drop_last() =~= steps);
}

/// The cost of a trail splits at any step.
pub proof fn lemma_trail_cost_split<'a, G: Graph<'a>>(
    g: &G,
    steps: Seq<(Edge, Vertex<'a>)>,
    i: int,
)
    requires
        0 <= i <= steps.len(),
    ensures
        trail_cost(g, steps) == trail_cost(g, steps.take(i)) + trail_cost(g, steps.skip(i)),
    decreases steps.len(),
{
    if i == steps.len() {
        assert(steps.take(i) =~= steps);
        assert(steps.skip(i) =~= Seq::empty());
    } else {
        lemma_trail_cost_split(g, steps.drop_last(), i);
        assert(steps.drop_last().take(i) =~= steps.take(i));
        assert(steps.drop_last().skip(i) =~= steps.skip(i).drop_last());
    }
}

/// A trail that starts where another stops continues it.
pub proof fn lemma_trail_join<'a, G: Graph<'a>>(
    g: &G,
    from: Vertex<'a>,
    steps: Seq<(Edge, Vertex<'a>)>,
    rest: Seq<(Edge, Vertex<'a>)>,
)
    requires
        trail(g, from, steps),
        trail(g, trail_end(from, steps), rest),
    ensures
        trail(g, from, steps + rest),
        trail_end(from, steps + rest) == trail_end(trail_end(from, steps), rest),
        trail_cost(g, steps + rest) == trail_cost(g, steps) + trail_cost(g, rest),
{
    let middle = trail_end(from, steps);
    let all = steps + rest;
    let n = steps.len() as int;
    assert forall|i: int| 0 <= i < all.len() implies g.successors(
        vertex_at(from, all, i),
    ).contains(#[trigger] all[i]) by {
        if i < n {
            assert(all[i] == steps[i]);
            assert(vertex_at(from, all, i) == vertex_at(from, steps, i));
        } else {
            assert(all[i] == rest[i - n]);
            assert(vertex_at(from, all, i) == vertex_at(middle, rest, i - n));
        }
    }
    lemma_trail_cost_split(g, all, n);
    assert(all.take(n) =~= steps);
    assert(all.skip(n) =~= rest);
}

/// A trail can be cut in two at any vertex.
pub proof fn lemma_trail_part<'a, G: Graph<'a>>(
    g: &G,
    from: Vertex<'a>,
    steps: Seq<(Edge, Vertex<'a>)>,
    i: int,
)
    requires
        trail(g, from, steps),
        0 <= i <= steps.len(),
    ensures
        trail(g, from, steps.take(i)),
        trail_end(from, steps.take(i)) == vertex_at(from, steps, i),
        trail(g, vertex_at(from, steps, i), steps.skip(i)),
        trail_end(vertex_at(from, steps, i), steps.skip(i)) == trail_end(from, steps),
{
    let middle = vertex_at(from, steps, i);
    assert forall|k: int| 0 <= k < steps.take(i).len() implies g.successors(
        vertex_at(from, steps.take(i), k),
    ).contains(#[trigger] steps.take(i)[k]) by {
        assert(steps.take(i)[k] == steps[k]);
        assert(vertex_at(from, steps.take(i), k) == vertex_at(from, steps, k));
    }
    assert forall|k: int| 0 <= k < steps.skip(i).len() implies g.successors(
        vertex_at(middle, steps.skip(i), k),
    ).contains(#[trigger] steps.skip(i)[k]) by {
        assert(steps.skip(i)[k] == steps[k + i]);
        assert(vertex_at(middle, steps.skip(i), k) == vertex_at(from, steps, k + i));
    }
}

/// An end vertex can be reached from every vertex.
pub proof fn lemma_end_in_reach<'a, G: Graph<'a>>(g: &G, from: Vertex<'a>) -> (steps: Seq<
    (Edge, Vertex<'a>),
>)
    requires
        g.has_vertex(from),
    ensures
        trail_to_end(g, from, steps),
    decreases g.remaining(from),
{
    if from.end {
        Seq::empty()
    } else {
        g.lemma_vertex(from);
        let first = g.successors(from)[0];
        let rest = lemma_end_in_reach(g, first.1);
        let steps = seq![first] + rest;
        assert forall|i: int| 0 <= i < steps.len() implies g.successors(
            vertex_at(from, steps, i),
        ).contains(#[trigger] steps[i]) by {
            if i > 0 {
                assert(steps[i] == rest[i - 1]);
                assert(vertex_at(from, steps, i) == vertex_at(first.1, rest, i - 1));
            }
        }
        assert(trail_end(from, steps) == trail_end(first.1, rest));
        steps
    }
}

/// Between linked vertices there is a shortest edge.
pub proof fn lemma_shortest_edge<'a, G: Graph<'a>>(g: &G, u: Vertex<'a>, v: Vertex<'a>)
    requires
        linked(g, u, v),
    ensures
        is_shortest_edge(g, u, v, shortest_edge(g, u, v)),
{
    let i = choose|i: int|
        0 <= i < g.successors(u).len() && (#[trigger] g.successors(u)[i]).1 == v;
    let best = lemma_least_index(g, u, v, g.successors(u).len() as int);
    assert(g.successors(u)[best] == (g.successors(u)[best].0, v));
    assert(is_shortest_edge(g, u, v, g.successors(u)[best].0));
}

/// The first cheapest of the edges from `u` to `v` among the first `n` edges of `u`.
proof fn lemma_least_index<'a, G: Graph<'a>>(g: &G, u: Vertex<'a>, v: Vertex<'a>, n: int) -> (best:
    int)
    requires
        0 < n <= g.successors(u).len(),
        exists|i: int| 0 <= i < n && (#[trigger] g.successors(u)[i]).1 == v,
    ensures
        0 <= best < n,
        g.successors(u)[best].1 == v,
        forall|j: int|
            0 <= j < n && (#[trigger] g.successors(u)[j]).1 == v ==> {
                &&& g.edge_cost(g.successors(u)[best].0) <= g.edge_cost(g.successors(u)[j].0)
                &&& j < best ==> g.edge_cost(g.successors(u)[best].0) < g.edge_cost(
                    g.successors(u)[j].0,
                )
            },
    decreases n,
{
    let last = g.successors(u)[n - 1];
    if exists|i: int| 0 <= i < n - 1 && (#[trigger] g.successors(u)[i]).1 == v {
        let before = lemma_least_index(g, u, v, n - 1);
        if last.1 == v && g.edge_cost(last.0) < g.edge_cost(g.successors(u)[before].0) {
            n - 1
        } else {
            before
        }
    } else {
        n - 1
    }
}

/// There is no more than one shortest edge between two vertices.
pub proof fn lemma_shortest_edge_unique<'a, G: Graph<'a>>(
    g: &G,
    u: Vertex<'a>,
    v: Vertex<'a>,
    edge: Edge,
)
    requires
        is_shortest_edge(g, u, v, edge),
    ensures
        shortest_edge(g, u, v) == edge,
{
    let other = shortest_edge(g, u, v);
    assert(is_shortest_edge(g, u, v, other));
    let i = choose|i: int|
        {
            &&& 0 <= i < g.successors(u).len()
            &&& #[trigger] g.successors(u)[i] == (edge, v)
            &&& forall|j: int|
                0 <= j < g.successors(u).len() && (#[trigger] g.successors(u)[j]).1 == v ==> {
                    &&& g.edge_cost(edge) <= g.edge_cost(g.successors(u)[j].0)
                    &&& j < i ==> g.edge_cost(edge) < g.edge_cost(g.successors(u)[j].0)
                }
        };
    let k = choose|k: int|
        {
            &&& 0 <= k < g.successors(u).len()
            &&& #[trigger] g.successors(u)[k] == (other, v)
            &&& forall|j: int|
                0 <= j < g.successors(u).len() && (#[trigger] g.successors(u)[j]).1 == v ==> {
                    &&& g.edge_cost(other) <= g.edge_cost(g.successors(u)[j].0)
                    &&& j < k ==> g.edge_cost(other) < g.edge_cost(g.successors(u)[j].0)
                }
        };
    assert(g.successors(u)[i].1 == v);
    assert(g.successors(u)[k].1 == v);
}

/// A route is a trail once its edges are filled in, at the same cost.
pub proof fn lemma_steps_of<'a, G: Graph<'a>>(g: &G, route: Seq<Vertex<'a>>)
    requires
        is_route(g, route),
    ensures
        trail(g, route[0], steps_of(g, route)),
        trail_end(route[0], steps_of(g, route)) == route.last(),
        trail_cost(g, steps_of(g, route)) == route_cost(g, route),
    decreases route.len(),
{
    let steps = steps_of(g, route);
    if route.len() > 1 {
        let shorter = route.drop_last();
        assert(is_route(g, shorter)) by {
            assert forall|i: int| 0 <= i < shorter.len() implies g.has_vertex(
                #[trigger] shorter[i],
            ) by {
                assert(shorter[i] == route[i]);
            }
            assert forall|i: int, j: int|
                0 <= i && i + 1 == j && j < shorter.len() implies linked(
                g,
                #[trigger] shorter[i],
                #[trigger] shorter[j],
            ) by {
                assert(linked(g, route[i], route[j]));
            }
        }
        lemma_steps_of(g, shorter);
        let before = route[route.len() - 2];
        assert(linked(g, before, route[route.len() - 1]));
        lemma_shortest_edge(g, before, route.last());
        let step = (shortest_edge(g, before, route.last()), route.last());
        let i = choose|i: int|
            0 <= i < g.successors(before).len() && #[trigger] g.successors(before)[i] == step;
        assert(g.successors(before).contains(step));
        lemma_trail_push(g, route[0], steps_of(g, shorter), step);
        assert(steps =~= steps_of(g, shorter).push(step));
    }
}

/// Where no edge costs more than `most`, a trail costs no more than `most` a step.
proof fn lemma_trail_cost_bound<'a, G: Graph<'a>>(
    g: &G,
    steps: Seq<(Edge, Vertex<'a>)>,
    most: nat,
)
    requires
        forall|edge: Edge| #[trigger] g.edge_cost(edge) <= most,
    ensures
        trail_cost(g, steps) <= steps.len() * most,
    decreases steps.len(),
{
    if steps.len() > 0 {
        lemma_trail_cost_bound(g, steps.drop_last(), most);
        let n = steps.len() as int;
        assert((n - 1) * most + most == n * most) by (nonlinear_arith);
    }
}

/// Bounds on the edges, on the estimates and on the length of trails make every
/// trail affordable.
pub proof fn lemma_affordable<'a, G: Graph<'a>>(
    g: &G,
    start: Vertex<'a>,
    base: int,
    most_cost: nat,
    most_estimate: int,
)
    requires
        g.has_vertex(start),
        forall|edge: Edge| #[trigger] g.edge_cost(edge) <= most_cost,
        forall|v: Vertex<'a>|
            g.has_vertex(v) ==> #[trigger] estimate_fits(g, v) && estimate(g, v) <= most_estimate,
        base + g.remaining(start) * most_cost + most_estimate <= u64::MAX,
    ensures
        affordable(g, start, base),
{
    assert forall|steps: Seq<(Edge, Vertex<'a>)>| #[trigger] trail(g, start, steps) implies {
        &&& estimate_fits(g, trail_end(start, steps))
        &&& base + trail_cost(g, steps) + estimate(g, trail_end(start, steps)) <= u64::MAX
    } by {
        lemma_trail_vertex(g, start, steps, steps.len() as int);
        lemma_trail_cost_bound(g, steps, most_cost);
        assert(estimate_fits(g, trail_end(start, steps)));
        let n = steps.len() as int;
        let all = g.remaining(start) as int;
        let most = most_cost as int;
        assert(n * most <= all * most) by (nonlinear_arith)
            requires
                0 <= n <= all,
                0 <= most,
        ;
    }
}

} // verus!
