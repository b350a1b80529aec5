//! What holds of routes and searches taken together.

use std::cmp::Ordering;

use vstd::math::{max, min};
use vstd::prelude::*;
use vstd::std_specs::cmp::{PartialEqSpec, PartialOrdSpec};

use crate::best_first::{best_first_outcome, best_first_route, law_best_first_search_finds};
use crate::estimate::{
    after, after_other_levels, estimate, estimate_fits, lemma_estimate_nonnegative,
};
use crate::fringe::{fringe_route, law_fringe_search_finds};
use crate::graph::{Edge, Graph, Vertex};
use crate::heap::OrdByFirst;
use crate::paths::{
    admissible, admissible_at, affordable, is_route, is_shortest, is_shortest_edge,
    lemma_shortest_edge, lemma_steps_of, lemma_trail_cost_split, lemma_trail_join,
    lemma_trail_part, lemma_trail_vertex, linked, route_cost, route_to_end, shortest_edge,
    steps_of, stops_at_end, trail, trail_cost, trail_end, trail_to_end, vertex_at, well_estimated,
    with_edges,
};
use crate::syntax::Syntax;

verus! {

/// What the edges of a path cost together.
pub open spec fn path_cost<'a, G: Graph<'a>>(g: &G, path: Seq<(Edge, Vertex<'a>)>) -> nat
    decreases path.len(),
{
    if path.len() == 0 {
        0
    } else {
        path_cost(g, path.drop_last()) + g.edge_cost(path.last().0) as nat
    }
}

/// A path without edges costs nothing, and every further edge adds what it costs.
pub proof fn law_path_costs_add_up<'a, G: Graph<'a>>(
    g: &G,
    path: Seq<(Edge, Vertex<'a>)>,
    step: (Edge, Vertex<'a>),
)
    ensures
        path_cost(g, Seq::empty()) == 0,
        path_cost(g, path.push(step)) == path_cost(g, path) + g.edge_cost(step.0),
{
    assert(path.push(step).drop_last() =~= path);
}

/// A trail without steps stays where it is, and costs nothing. A first step can be put
/// before a trail exactly if it is an edge of the vertex that it leaves and leads to
/// where the trail begins; it adds what its edge costs, and the trail ends where it did.
#[verifier::spinoff_prover]
#[verifier::rlimit(40)]
pub proof fn law_trails_go_step_by_step<'a, G: Graph<'a>>(
    g: &G,
    from: Vertex<'a>,
    step: (Edge, Vertex<'a>),
    rest: Seq<(Edge, Vertex<'a>)>,
)
    ensures
        trail(g, from, Seq::empty()),
        trail_end(from, Seq::empty()) == from,
        trail_cost(g, Seq::empty()) == 0,
        trail(g, from, seq![step] + rest) <==> g.successors(from).contains(step) && trail(
            g,
            step.1,
            rest,
        ),
        trail_end(from, seq![step] + rest) == trail_end(step.1, rest),
        trail_cost(g, seq![step] + rest) == g.edge_cost(step.0) + trail_cost(g, rest),
        trail_to_end(g, from, rest) <==> trail(g, from, rest) && trail_end(from, rest).end,
        vertex_at(from, rest, 0) == from,
        forall|i: int| 0 < i <= rest.len() ==> #[trigger] vertex_at(from, rest, i) == rest[i - 1].1,
{
    let steps = seq![step] + rest;
    lemma_trail_cost_split(g, steps, 1);
    assert(steps.take(1) =~= seq![step]);
    assert(seq![step].drop_last() =~= Seq::empty());
    assert(steps.skip(1) =~= rest);
    if trail(g, from, steps) {
        lemma_trail_part(g, from, steps, 1);
        assert(vertex_at(from, steps, 1) == step.1);
        assert(steps[0] == step && vertex_at(from, steps, 0) == from);
    }
    if g.successors(from).contains(step) && trail(g, step.1, rest) {
        assert(trail(g, from, seq![step])) by {
            assert(vertex_at(from, seq![step], 0) == from);
        }
        lemma_trail_join(g, from, seq![step], rest);
    }
}

/// A route of one vertex costs nothing. A further vertex adds what the cheapest of the
/// edges that lead to it costs. An edge leads from each vertex of a route to the next.
pub proof fn law_routes_go_vertex_by_vertex<'a, G: Graph<'a>>(
    g: &G,
    route: Seq<Vertex<'a>>,
    v: Vertex<'a>,
    i: int,
)
    requires
        is_route(g, route.push(v)),
        0 <= i < route.len(),
    ensures
        route_cost(g, seq![v]) == 0,
        exists|k: int|
            {
                &&& 0 <= k < g.successors(route.last()).len()
                &&& (#[trigger] g.successors(route.last())[k]).1 == v
                &&& route_cost(g, route.push(v)) == route_cost(g, route) + g.edge_cost(
                    g.successors(route.last())[k].0,
                )
                &&& forall|j: int|
                    0 <= j < g.successors(route.last()).len() && (#[trigger] g.successors(
                        route.last(),
                    )[j]).1 == v ==> g.edge_cost(g.successors(route.last())[k].0) <= g.edge_cost(
                        g.successors(route.last())[j].0,
                    )
            },
        g.has_vertex(route[i]),
        exists|k: int|
            0 <= k < g.successors(route[i]).len() && (#[trigger] g.successors(route[i])[k]).1
                == route.push(v)[i + 1],
{
    let longer = route.push(v);
    assert(longer.drop_last() =~= route);
    assert(linked(g, longer[longer.len() - 2], longer[longer.len() - 1]));
    lemma_shortest_edge(g, route.last(), v);
    let edge = shortest_edge(g, route.last(), v);
    let k = choose|k: int|
        {
            &&& 0 <= k < g.successors(route.last()).len()
            &&& #[trigger] g.successors(route.last())[k] == (edge, v)
            &&& forall|j: int|
                0 <= j < g.successors(route.last()).len() && (#[trigger] g.successors(
                    route.last(),
                )[j]).1 == v ==> {
                    &&& g.edge_cost(edge) <= g.edge_cost(g.successors(route.last())[j].0)
                    &&& j < k ==> g.edge_cost(edge) < g.edge_cost(g.successors(route.last())[j].0)
                }
        };
    assert(g.successors(route.last())[k].1 == v);
    assert(longer[i] == route[i]);
    assert(linked(g, longer[i], longer[i + 1]));
}

/// The path that a diff takes begins at the start, unless that is an end vertex, and
/// then there is none. Each of its edges is an edge of its vertex and leads to the next
/// vertex, the last to an end vertex. However else one goes from the start to an end
/// vertex, it costs no less.
pub proof fn law_shortest_path<'a, G: Graph<'a>>(
    g: &G,
    start: Vertex<'a>,
    path: Seq<(Edge, Vertex<'a>)>,
    steps: Seq<(Edge, Vertex<'a>)>,
)
    requires
        g.has_vertex(start),
        affordable(g, start, estimate(g, start)),
        path == with_edges(g, fringe_route(g, start)),
        trail(g, start, steps),
        trail_end(start, steps).end,
    ensures
        path.len() == 0 <==> start.end,
        path.len() > 0 ==> path[0].1 == start,
        forall|i: int, j: int|
            #![trigger path[i], path[j]]
            0 <= i && i + 1 == j && j < path.len() ==> g.successors(path[i].1).contains(
                (path[i].0, path[j].1),
            ),
        path.len() > 0 ==> exists|k: int|
            {
                &&& 0 <= k < g.successors(path.last().1).len()
                &&& (#[trigger] g.successors(path.last().1)[k]).0 == path.last().0
                &&& g.successors(path.last().1)[k].1.end
            },
        path_cost(g, path) <= trail_cost(g, steps),
        path_cost(g, Seq::empty()) == 0,
        path.len() > 0 ==> path_cost(g, path) == path_cost(g, path.drop_last()) + g.edge_cost(
            path.last().0,
        ),
{
    let route = fringe_route(g, start);
    law_fringe_search_finds(g, start);
    law_path_of_route(g, start, route);
    assert(trail_to_end(g, start, steps));
    assert forall|i: int| 0 <= i < path.len() implies g.successors(route[i]).contains(
        ((#[trigger] path[i]).0, route[i + 1]),
    ) by {
        assert(is_shortest_edge(g, path[i].1, route[i + 1], path[i].0));
        let k = choose|k: int|
            0 <= k < g.successors(route[i]).len() && #[trigger] g.successors(route[i])[k] == (
                path[i].0,
                route[i + 1],
            );
        assert(g.successors(route[i])[k] == (path[i].0, route[i + 1]));
    }
    assert forall|i: int, j: int|
        #![trigger path[i], path[j]]
        0 <= i && i + 1 == j && j < path.len() implies g.successors(path[i].1).contains(
        (path[i].0, path[j].1),
    ) by {
        assert(g.successors(route[i]).contains((path[i].0, route[i + 1])));
    }
    if path.len() > 0 {
        let last = path.len() - 1;
        assert(g.successors(route[last]).contains((path[last].0, route[last + 1])));
        let k = choose|k: int|
            0 <= k < g.successors(route[last]).len() && g.successors(route[last])[k] == (
                path[last].0,
                route[last + 1],
            );
        assert(g.successors(path.last().1)[k].0 == path.last().0);
        assert(!route[0].end);
    }
}

/// What a best-first search finds begins at the start and leads from vertex to vertex
/// to an end vertex, the first on its way.
pub proof fn law_best_first_leads_to_end<'a, G: Graph<'a>>(
    g: &G,
    start: Vertex<'a>,
    graph_limit: usize,
    route: Seq<Vertex<'a>>,
    i: int,
)
    requires
        g.has_vertex(start),
        affordable(g, start, 0),
        best_first_outcome(g, start, graph_limit) == Some(route),
        0 <= i < route.len() - 1,
    ensures
        route[0] == start,
        route.last().end,
        !route[i].end,
        exists|k: int|
            0 <= k < g.successors(route[i]).len() && (#[trigger] g.successors(route[i])[k]).1
                == route[i + 1],
{
    law_best_first_search_finds(g, start);
    assert(linked(g, route[i], route[i + 1]));
}

/// What a best-first search finds costs no more than any other way to an end along
/// which no estimate past the start exceeds what is left.
pub proof fn law_best_first_is_unbeaten<'a, G: Graph<'a>>(
    g: &G,
    start: Vertex<'a>,
    graph_limit: usize,
    route: Seq<Vertex<'a>>,
    steps: Seq<(Edge, Vertex<'a>)>,
)
    requires
        g.has_vertex(start),
        affordable(g, start, 0),
        best_first_outcome(g, start, graph_limit) == Some(route),
        trail(g, start, steps),
        trail_end(start, steps).end,
        forall|i: int|
            0 < i <= steps.len() ==> estimate(g, #[trigger] vertex_at(start, steps, i))
                <= trail_cost(g, steps.skip(i)),
    ensures
        route_cost(g, route) <= trail_cost(g, steps),
{
    assert(well_estimated(g, start, steps));
    law_best_first_search_finds(g, start);
    assert(trail_to_end(g, start, steps));
}

/// A path has one edge fewer than its route has vertices. It begins at the start,
/// each of its edges leads to the vertex of the next, and the last to the end of
/// the route, which is not part of the path. It costs what the route costs.
pub proof fn law_path_of_route<'a, G: Graph<'a>>(
    g: &G,
    start: Vertex<'a>,
    route: Seq<Vertex<'a>>,
)
    requires
        route_to_end(g, start, route),
    ensures
        with_edges(g, route).len() == route.len() - 1,
        with_edges(g, route).len() == 0 <==> start.end && route == seq![start],
        with_edges(g, route).len() > 0 ==> with_edges(g, route)[0].1 == start,
        forall|i: int|
            0 <= i < with_edges(g, route).len() ==> (#[trigger] with_edges(g, route)[i]).1
                == route[i],
        forall|i: int|
            0 <= i < with_edges(g, route).len() ==> is_shortest_edge(
                g,
                (#[trigger] with_edges(g, route)[i]).1,
                route[i + 1],
                with_edges(g, route)[i].0,
            ),
        path_cost(g, with_edges(g, route)) == route_cost(g, route),
{
    let path = with_edges(g, route);
    assert forall|i: int| 0 <= i < path.len() implies is_shortest_edge(
        g,
        (#[trigger] path[i]).1,
        route[i + 1],
        path[i].0,
    ) by {
        assert(linked(g, route[i], route[i + 1]));
        lemma_shortest_edge(g, route[i], route[i + 1]);
    }
    if path.len() == 0 {
        assert(route =~= seq![start]);
    }
    lemma_path_cost(g, route);
}

/// A path costs what its route costs.
proof fn lemma_path_cost<'a, G: Graph<'a>>(g: &G, route: Seq<Vertex<'a>>)
    requires
        route.len() > 0,
    ensures
        path_cost(g, with_edges(g, route)) == route_cost(g, route),
    decreases route.len(),
{
    if route.len() > 1 {
        lemma_path_cost(g, route.drop_last());
        assert(with_edges(g, route).drop_last() =~= with_edges(g, route.drop_last()));
    }
}

/// No route passes a vertex twice.
pub proof fn law_route_passes_once<'a, G: Graph<'a>>(g: &G, route: Seq<Vertex<'a>>)
    requires
        is_route(g, route),
    ensures
        route.no_duplicates(),
{
    assert forall|i: int, j: int| 0 <= i < j < route.len() implies route[i] != route[j] by {
        let rest = route.skip(i);
        assert(is_route(g, rest)) by {
            assert forall|k: int| 0 <= k < rest.len() implies g.has_vertex(#[trigger] rest[k]) by {
                assert(rest[k] == route[k + i]);
            }
            assert forall|k: int, l: int| 0 <= k && k + 1 == l && l < rest.len() implies linked(
                g,
                #[trigger] rest[k],
                #[trigger] rest[l],
            ) by {
                assert(linked(g, route[k + i], route[l + i]));
            }
        }
        lemma_steps_of(g, rest);
        lemma_trail_vertex(g, rest[0], steps_of(g, rest), j - i);
        assert(vertex_at(rest[0], steps_of(g, rest), j - i) == route[j]);
    }
}

/// A route costs what some trail costs: the edges that it leaves open can be
/// filled in.
pub proof fn law_route_is_attained<'a, G: Graph<'a>>(
    g: &G,
    start: Vertex<'a>,
    route: Seq<Vertex<'a>>,
)
    requires
        route_to_end(g, start, route),
    ensures
        exists|steps: Seq<(Edge, Vertex<'a>)>| #[trigger]
            trail_to_end(g, start, steps) && trail_cost(g, steps) == route_cost(g, route),
{
    lemma_steps_of(g, route);
    assert(trail_to_end(g, start, steps_of(g, route)));
}

/// All shortest routes cost the same.
pub proof fn law_shortest_routes_agree<'a, G: Graph<'a>>(
    g: &G,
    start: Vertex<'a>,
    one: Seq<Vertex<'a>>,
    other: Seq<Vertex<'a>>,
)
    requires
        route_to_end(g, start, one),
        route_to_end(g, start, other),
        is_shortest(g, start, one),
        is_shortest(g, start, other),
    ensures
        route_cost(g, one) == route_cost(g, other),
{
    lemma_steps_of(g, one);
    lemma_steps_of(g, other);
    assert(trail_to_end(g, start, steps_of(g, one)));
    assert(trail_to_end(g, start, steps_of(g, other)));
}

/// A search that can be carried out from the estimate on can be carried out from
/// zero on.
proof fn lemma_affordable_from_zero<'a, G: Graph<'a>>(g: &G, start: Vertex<'a>)
    requires
        g.has_vertex(start),
        affordable(g, start, estimate(g, start)),
    ensures
        affordable(g, start, 0),
{
    let steps = Seq::<(Edge, Vertex<'a>)>::empty();
    assert(trail(g, start, steps) && trail_end(start, steps) == start);
    lemma_estimate_nonnegative(g, start);
    assert forall|steps: Seq<(Edge, Vertex<'a>)>| #[trigger] trail(g, start, steps) implies {
        &&& estimate_fits(g, trail_end(start, steps))
        &&& 0 + trail_cost(g, steps) + estimate(g, trail_end(start, steps)) <= u64::MAX
    } by {}
}

/// Neither search goes on from an end vertex: only the last vertex of a route that
/// they find is one, and none of a path.
pub proof fn law_routes_stop_at_the_end<'a, G: Graph<'a>>(g: &G, start: Vertex<'a>)
    requires
        g.has_vertex(start),
        affordable(g, start, estimate(g, start)),
    ensures
        stops_at_end(fringe_route(g, start)),
        stops_at_end(best_first_route(g, start)),
        forall|i: int|
            0 <= i < with_edges(g, fringe_route(g, start)).len() ==> !(#[trigger] with_edges(
                g,
                fringe_route(g, start),
            )[i]).1.end,
{
    law_fringe_search_finds(g, start);
    lemma_affordable_from_zero(g, start);
    law_best_first_search_finds(g, start);
}

/// A best-first search never finds a cheaper route than a fringe search. Where the
/// estimates are admissible, the two find routes of the same cost.
pub proof fn law_searches_agree<'a, G: Graph<'a>>(g: &G, start: Vertex<'a>)
    requires
        g.has_vertex(start),
        affordable(g, start, estimate(g, start)),
    ensures
        route_cost(g, fringe_route(g, start)) <= route_cost(g, best_first_route(g, start)),
        admissible(g, start) ==> route_cost(g, best_first_route(g, start)) == route_cost(
            g,
            fringe_route(g, start),
        ),
{
    law_fringe_search_finds(g, start);
    lemma_affordable_from_zero(g, start);
    law_best_first_search_finds(g, start);
    lemma_steps_of(g, best_first_route(g, start));
    assert(trail_to_end(g, start, steps_of(g, best_first_route(g, start))));
    if admissible(g, start) {
        law_shortest_routes_agree(g, start, best_first_route(g, start), fringe_route(g, start));
    }
}

/// The estimates mislead along no way from `start` exactly if, at every vertex that
/// an edge or more lead to, the estimate exceeds the cost of no way to an end.
pub proof fn law_admissible_by_vertex<'a, G: Graph<'a>>(g: &G, start: Vertex<'a>)
    ensures
        admissible(g, start) <==> forall|steps: Seq<(Edge, Vertex<'a>)>| #[trigger]
            trail(g, start, steps) && steps.len() > 0 ==> admissible_at(
                g,
                trail_end(start, steps),
            ),
{
    if admissible(g, start) {
        assert forall|steps: Seq<(Edge, Vertex<'a>)>| #[trigger]
            trail(g, start, steps) && steps.len() > 0 implies admissible_at(
            g,
            trail_end(start, steps),
        ) by {
            lemma_admissible_at(g, start, steps);
        }
    }
    if forall|steps: Seq<(Edge, Vertex<'a>)>| #[trigger]
        trail(g, start, steps) && steps.len() > 0 ==> admissible_at(g, trail_end(start, steps)) {
        assert forall|way: Seq<(Edge, Vertex<'a>)>| #[trigger]
            trail_to_end(g, start, way) implies well_estimated(g, start, way) by {
            assert forall|i: int| 0 < i <= way.len() implies estimate(
                g,
                #[trigger] vertex_at(start, way, i),
            ) <= trail_cost(g, way.skip(i)) by {
                lemma_trail_part(g, start, way, i);
                let v = vertex_at(start, way, i);
                assert(trail(g, start, way.take(i)) && way.take(i).len() > 0);
                assert(admissible_at(g, v));
                assert(trail_to_end(g, v, way.skip(i)));
            }
        }
    }
}

/// Where no way from `start` misleads, the estimate at a later vertex exceeds no way
/// from there.
proof fn lemma_admissible_at<'a, G: Graph<'a>>(
    g: &G,
    start: Vertex<'a>,
    steps: Seq<(Edge, Vertex<'a>)>,
)
    requires
        admissible(g, start),
        trail(g, start, steps),
        steps.len() > 0,
    ensures
        admissible_at(g, trail_end(start, steps)),
{
    let v = trail_end(start, steps);
    assert forall|rest: Seq<(Edge, Vertex<'a>)>| #[trigger] trail_to_end(g, v, rest) implies estimate(
        g,
        v,
    ) <= trail_cost(g, rest) by {
        let way = steps + rest;
        let n = steps.len() as int;
        lemma_trail_join(g, start, steps, rest);
        assert(trail_to_end(g, start, way));
        assert(vertex_at(start, way, n) == v);
        assert(way.skip(n) =~= rest);
    }
}

/// `bound` is nothing at the end, and no edge lowers it by more than it costs.
pub open spec fn is_consistent<'a, G: Graph<'a>>(
    g: &G,
    bound: spec_fn(Vertex<'a>) -> int,
) -> bool {
    &&& forall|v: Vertex<'a>| #[trigger] g.has_vertex(v) && v.end ==> bound(v) <= 0
    &&& forall|v: Vertex<'a>, i: int|
        g.has_vertex(v) && 0 <= i < g.successors(v).len() ==> bound(v) <= g.edge_cost(
            (#[trigger] g.successors(v)[i]).0,
        ) + bound(g.successors(v)[i].1)
}

/// An estimate is admissible if it is within a consistent bound, whether or not the
/// estimates themselves are consistent.
pub proof fn law_admissible_within_bound<'a, G: Graph<'a>>(
    g: &G,
    bound: spec_fn(Vertex<'a>) -> int,
    v: Vertex<'a>,
)
    requires
        g.has_vertex(v),
        is_consistent(g, bound),
        estimate(g, v) <= bound(v),
    ensures
        admissible_at(g, v),
{
    assert forall|steps: Seq<(Edge, Vertex<'a>)>| #[trigger]
        trail_to_end(g, v, steps) implies estimate(g, v) <= trail_cost(g, steps) by {
        lemma_consistent_trail(g, bound, v, steps, steps.len() as int);
        lemma_trail_vertex(g, v, steps, steps.len() as int);
        assert(steps.take(steps.len() as int) =~= steps);
    }
}

/// The edges of a trail do not lower a consistent bound by more than they cost
/// together.
proof fn lemma_consistent_trail<'a, G: Graph<'a>>(
    g: &G,
    bound: spec_fn(Vertex<'a>) -> int,
    v: Vertex<'a>,
    steps: Seq<(Edge, Vertex<'a>)>,
    i: int,
)
    requires
        g.has_vertex(v),
        is_consistent(g, bound),
        trail(g, v, steps),
        0 <= i <= steps.len(),
    ensures
        bound(v) <= trail_cost(g, steps.take(i)) + bound(vertex_at(v, steps, i)),
    decreases i,
{
    if i > 0 {
        lemma_consistent_trail(g, bound, v, steps, i - 1);
        lemma_trail_vertex(g, v, steps, i - 1);
        let before = vertex_at(v, steps, i - 1);
        assert(g.successors(before).contains(steps[i - 1]));
        let j = choose|j: int|
            0 <= j < g.successors(before).len() && g.successors(before)[j] == steps[i - 1];
        assert(g.successors(before)[j].0 == steps[i - 1].0);
        assert(steps.take(i).drop_last() =~= steps.take(i - 1));
    }
}

/// How many nodes are left on a side that has no lists: the current node and those
/// after it.
pub open spec fn left_over(node: Option<&Syntax>) -> int {
    match node {
        Some(node) => node.place().num_after + 1,
        None => 0,
    }
}

/// What the nodes that are left cost at least, if there are no lists: as many pairs
/// of unchanged nodes as there can be, and the rest novel.
pub open spec fn flat_bound<'a, G: Graph<'a>>(g: &G, v: Vertex<'a>) -> int {
    let lhs = left_over(v.lhs_syntax);
    let rhs = left_over(v.rhs_syntax);
    min(lhs, rhs) * g.edge_cost(Edge::UnchangedNode { depth_difference: 0 }) + (max(lhs, rhs) - min(
        lhs,
        rhs,
    )) * g.edge_cost(Edge::NovelAtomLHS { contiguous: true })
}

/// `edge` goes past one node on each side, at no less than an unchanged node costs,
/// or past one node on one side, at no less than a novel node costs.
pub open spec fn flat_edge<'a, G: Graph<'a>>(
    g: &G,
    v: Vertex<'a>,
    edge: Edge,
    next: Vertex<'a>,
) -> bool {
    let past_lhs = left_over(v.lhs_syntax) - left_over(next.lhs_syntax);
    let past_rhs = left_over(v.rhs_syntax) - left_over(next.rhs_syntax);
    ||| {
        &&& past_lhs == 1 && past_rhs == 1
        &&& g.edge_cost(edge) >= g.edge_cost(Edge::UnchangedNode { depth_difference: 0 })
    }
    ||| {
        &&& past_lhs == 1 && past_rhs == 0 || past_lhs == 0 && past_rhs == 1
        &&& g.edge_cost(edge) >= g.edge_cost(Edge::NovelAtomLHS { contiguous: true })
    }
}

/// A graph of two sides without lists: there is one level, nothing to leave, and
/// nothing left at the end. An unchanged node costs no more than a novel one.
pub open spec fn is_flat<'a, G: Graph<'a>>(g: &G) -> bool {
    &&& g.edge_cost(Edge::UnchangedNode { depth_difference: 0 }) <= g.edge_cost(
        Edge::NovelAtomLHS { contiguous: true },
    )
    &&& forall|v: Vertex<'a>| #[trigger]
        g.has_vertex(v) ==> {
            &&& v.num_parents == 0
            &&& after_other_levels(v.lhs_syntax) == 0
            &&& after_other_levels(v.rhs_syntax) == 0
            &&& v.end ==> v.lhs_syntax is None && v.rhs_syntax is None
        }
    &&& forall|v: Vertex<'a>, i: int|
        g.has_vertex(v) && 0 <= i < g.successors(v).len() ==> flat_edge(
            g,
            v,
            (#[trigger] g.successors(v)[i]).0,
            g.successors(v)[i].1,
        )
}

/// Without lists every estimate is admissible. With lists it need not be: nodes that
/// a list encloses on one side alone are taken for novel.
pub proof fn law_flat_estimate_is_admissible<'a, G: Graph<'a>>(g: &G, v: Vertex<'a>)
    requires
        g.has_vertex(v),
        is_flat(g),
    ensures
        admissible_at(g, v),
{
    let bound = |u: Vertex<'a>| flat_bound(g, u);
    let unchanged = g.edge_cost(Edge::UnchangedNode { depth_difference: 0 }) as int;
    let novel = g.edge_cost(Edge::NovelAtomLHS { contiguous: true }) as int;
    assert forall|u: Vertex<'a>| #[trigger] g.has_vertex(u) && u.end implies bound(u) <= 0 by {
        assert(0 * unchanged == 0 && 0 * novel == 0) by (nonlinear_arith);
        assert(left_over(u.lhs_syntax) == 0 && left_over(u.rhs_syntax) == 0);
    }
    assert forall|u: Vertex<'a>, i: int|
        g.has_vertex(u) && 0 <= i < g.successors(u).len() implies bound(u) <= g.edge_cost(
        (#[trigger] g.successors(u)[i]).0,
    ) + bound(g.successors(u)[i].1) by {
        let (edge, next) = g.successors(u)[i];
        assert(flat_edge(g, u, edge, next));
        lemma_flat_step(
            left_over(u.lhs_syntax),
            left_over(u.rhs_syntax),
            left_over(next.lhs_syntax),
            left_over(next.rhs_syntax),
            unchanged,
            novel,
            g.edge_cost(edge) as int,
        );
    }
    g.lemma_vertex(v);
    lemma_flat_estimate(
        after(v.lhs_syntax),
        after(v.rhs_syntax),
        left_over(v.lhs_syntax),
        left_over(v.rhs_syntax),
        unchanged,
        novel,
    );
    law_admissible_within_bound(g, bound, v);
}

/// Going past a node on one side or both lowers the bound by no more than it costs.
proof fn lemma_flat_step(
    lhs: int,
    rhs: int,
    lhs_next: int,
    rhs_next: int,
    unchanged: int,
    novel: int,
    cost: int,
)
    by (nonlinear_arith)
    requires
        0 <= unchanged <= novel,
        0 <= lhs_next,
        0 <= rhs_next,
        (lhs == lhs_next + 1 && rhs == rhs_next + 1 && cost >= unchanged) || (lhs == lhs_next + 1
            && rhs == rhs_next && cost >= novel) || (lhs == lhs_next && rhs == rhs_next + 1 && cost
            >= novel),
    ensures
        min(lhs, rhs) * unchanged + (max(lhs, rhs) - min(lhs, rhs)) * novel <= cost + min(
            lhs_next,
            rhs_next,
        ) * unchanged + (max(lhs_next, rhs_next) - min(lhs_next, rhs_next)) * novel,
{
}

/// The nodes after the current ones cost no more than all that are left.
proof fn lemma_flat_estimate(
    lhs_after: int,
    rhs_after: int,
    lhs: int,
    rhs: int,
    unchanged: int,
    novel: int,
)
    by (nonlinear_arith)
    requires
        0 <= unchanged <= novel,
        0 <= lhs_after,
        0 <= rhs_after,
        lhs == lhs_after + 1 || lhs == 0 && lhs_after == 0,
        rhs == rhs_after + 1 || rhs == 0 && rhs_after == 0,
    ensures
        min(lhs_after, rhs_after) * unchanged + (max(lhs_after, rhs_after) - min(
            lhs_after,
            rhs_after,
        )) * novel <= min(lhs, rhs) * unchanged + (max(lhs, rhs) - min(lhs, rhs)) * novel,
{
}

/// An admissible estimate is zero at an end vertex.
pub proof fn law_nothing_remains_at_the_end<'a, G: Graph<'a>>(g: &G, v: Vertex<'a>)
    requires
        g.has_vertex(v),
        v.end,
        admissible_at(g, v),
    ensures
        estimate(g, v) == 0,
{
    let steps = Seq::<(Edge, Vertex<'a>)>::empty();
    g.lemma_vertex(v);
    lemma_estimate_nonnegative(g, v);
    assert(trail_to_end(g, v, steps));
}

/// The estimate does not care which side is which.
pub proof fn law_estimate_is_symmetric<'a, G: Graph<'a>>(g: &G, v: Vertex<'a>)
    ensures
        estimate(g, v) == estimate(
            g,
            (Vertex { lhs_syntax: v.rhs_syntax, rhs_syntax: v.lhs_syntax, ..v }),
        ),
{
}

/// Values that are ordered by a number are totally ordered, and equal values are
/// those with equal numbers, whatever comes with the numbers.
pub proof fn law_order_by_first<T>(a: OrdByFirst<T>, b: OrdByFirst<T>, c: OrdByFirst<T>)
    ensures
        a.order(&a) == Ordering::Equal,
        a.order(&b) == Ordering::Equal <==> a.0 == b.0,
        a.order(&b) == Ordering::Less <==> a.0 < b.0,
        a.order(&b) == Ordering::Greater <==> a.0 > b.0,
        a.eq_spec(&b) <==> a.0 == b.0,
        a.partial_cmp_spec(&b) == Some(a.order(&b)),
        a.order(&b) == Ordering::Less <==> b.order(&a) == Ordering::Greater,
        a.order(&b) == Ordering::Less && b.order(&c) == Ordering::Less ==> a.order(&c)
            == Ordering::Less,
{
}

} // verus!
