//! From the vertices of a route to its edges.

use bumpalo::Bump;
use vstd::prelude::*;

use crate::best_first::ExceededGraphLimit;
use crate::estimate::estimate;
use crate::fringe::{fringe_route, fringe_search};
use crate::graph::{Edge, Graph, Vertex, MAX_NEIGHBOURS};
use crate::paths::{
    affordable, is_route, is_shortest, is_shortest_edge, lemma_shortest_edge,
    lemma_shortest_edge_unique, linked, route_to_end, shortest_edge, with_edges,
};
use crate::predecessors::reservable;

verus! {

/// The edge that leads from `before` to `after`. If there are several, the cheapest.
pub fn edge_between<'a, G: Graph<'a>>(g: &G, before: &Vertex<'a>, after: &Vertex<'a>) -> (edge:
    Edge)
    requires
        g.has_vertex(*before),
        linked(g, *before, *after),
    ensures
        is_shortest_edge(g, *before, *after, edge),
        edge == shortest_edge(g, *before, *after),
        exists|i: int|
            {
                &&& 0 <= i < g.successors(*before).len()
                &&& #[trigger] g.successors(*before)[i] == (edge, *after)
                &&& forall|j: int|
                    0 <= j < g.successors(*before).len() && (#[trigger] g.successors(*before)[j]).1
                        == *after ==> {
                        &&& g.edge_cost(edge) <= g.edge_cost(g.successors(*before)[j].0)
                        &&& j < i ==> g.edge_cost(edge) < g.edge_cost(g.successors(*before)[j].0)
                    }
            },
{
    let vertex_arena = Bump::new();
    let mut neighbour_buf: [Option<(Edge, &Vertex<'a>)>; 12] = [
        None,
        None,
        None,
        None,
        None,
        None,
        None,
        None,
        None,
        None,
        None,
        None,
    ];

    g.neighbours(before, &mut neighbour_buf, &vertex_arena);

    let ghost successors = g.successors(*before);
    let ghost mut best: int = 0;
    proof {
        g.lemma_vertex(*before);
    }
    let mut shortest_edge: Option<Edge> = None;
    let mut i: usize = 0;
    while i < MAX_NEIGHBOURS
        invariant
            i <= MAX_NEIGHBOURS,
            g.has_vertex(*before),
            linked(g, *before, *after),
            successors == g.successors(*before),
            successors.len() <= MAX_NEIGHBOURS,
            forall|j: int| 0 <= j < successors.len() ==> g.has_vertex(#[trigger] successors[j].1),
            forall|j: int|
                i <= j < MAX_NEIGHBOURS ==> #[trigger] neighbour_buf@[j] == if j
                    < successors.len() {
                    Some((successors[j].0, &successors[j].1))
                } else {
                    None
                },
            match shortest_edge {
                Some(edge) => {
                    &&& 0 <= best < i
                    &&& best < successors.len()
                    &&& successors[best] == (edge, *after)
                    &&& forall|j: int|
                        0 <= j < i && j < successors.len() && (#[trigger] successors[j]).1 == *after
                            ==> {
                            &&& g.edge_cost(edge) <= g.edge_cost(successors[j].0)
                            &&& j < best ==> g.edge_cost(edge) < g.edge_cost(successors[j].0)
                        }
                },
                None => forall|j: int|
                    0 <= j < i && j < successors.len() ==> (#[trigger] successors[j]).1 != *after,
            },
        decreases MAX_NEIGHBOURS - i,
    {
        if let Some((edge, next)) = neighbour_buf[i].take() {
            proof {
                assert(successors[i as int].1 == *next);
                let target = choose|j: int|
                    0 <= j < g.successors(*before).len() && (#[trigger] g.successors(
                        *before,
                    )[j]).1 == *after;
                assert(g.has_vertex(successors[target].1));
                if next.key == after.key {
                    g.lemma_key(*next, *after);
                }
            }
            // If there are multiple edges that can take us to `next`,
            // prefer the shortest.
            if next.key == after.key {
                let is_shorter: bool = match shortest_edge {
                    Some(prev_edge) => g.cost(edge) < g.cost(prev_edge),
                    None => true,
                };

                if is_shorter {
                    shortest_edge = Some(edge);
                    proof {
                        best = i as int;
                    }
                }
            }
        }
        i = i + 1;
    }

    match shortest_edge {
        Some(edge) => {
            proof {
                assert(g.successors(*before)[best] == (edge, *after));
                lemma_shortest_edge_unique(g, *before, *after, edge);
            }
            edge
        },
        None => {
            assert(false);
            vstd::pervasive::unreached()
        },
    }
}

/// Fills in the edges of a route. A route of N vertices has N - 1 edges: each is
/// given with the vertex that it leaves.
pub fn shortest_path_with_edges<'a, G: Graph<'a>>(g: &G, route: &[Vertex<'a>]) -> (path: Vec<
    (Edge, Vertex<'a>),
>)
    requires
        is_route(g, route@),
    ensures
        path@ == with_edges(g, route@),
        path@.len() == route@.len() - 1,
        forall|i: int|
            0 <= i < path@.len() ==> {
                &&& (#[trigger] path@[i]).1 == route@[i]
                &&& g.successors(route@[i]).contains((path@[i].0, route@[i + 1]))
            },
        forall|i: int, j: int|
            0 <= i < path@.len() && 0 <= j < g.successors(route@[i]).len() && (
            #[trigger] g.successors(route@[i])[j]).1 == route@[i + 1] ==> g.edge_cost(path@[i].0)
                <= g.edge_cost(g.successors(route@[i])[j].0),
{
    let mut prev: Vertex<'a> = route[0];

    let mut res: Vec<(Edge, Vertex<'a>)> = Vec::new();
    let mut i: usize = 1;
    while i < route.len()
        invariant
            is_route(g, route@),
            1 <= i <= route@.len(),
            prev == route@[i - 1],
            res@ == with_edges(g, route@).take(i - 1),
        decreases route@.len() - i,
    {
        let vertex: Vertex<'a> = route[i];
        assert(linked(g, route@[i - 1], route@[i as int]));
        let edge: Edge = edge_between(g, &prev, &vertex);
        res.push((edge, prev));
        assert(res@ =~= with_edges(g, route@).take(i as int));

        prev = vertex;
        i = i + 1;
    }
    assert(res@ =~= with_edges(g, route@));
    proof {
        assert forall|i: int| 0 <= i < res@.len() implies {
            &&& (#[trigger] res@[i]).1 == route@[i]
            &&& is_shortest_edge(g, route@[i], route@[i + 1], res@[i].0)
            &&& g.successors(route@[i]).contains((res@[i].0, route@[i + 1]))
        } by {
            assert(linked(g, route@[i], route@[i + 1]));
            lemma_shortest_edge(g, route@[i], route@[i + 1]);
            let k = choose|k: int|
                0 <= k < g.successors(route@[i]).len() && #[trigger] g.successors(route@[i])[k] == (
                    res@[i].0,
                    route@[i + 1],
                );
            assert(g.successors(route@[i])[k] == (res@[i].0, route@[i + 1]));
        }
        assert forall|i: int, j: int|
            0 <= i < res@.len() && 0 <= j < g.successors(route@[i]).len() && (
            #[trigger] g.successors(route@[i])[j]).1 == route@[i + 1] implies g.edge_cost(res@[i].0)
            <= g.edge_cost(g.successors(route@[i])[j].0) by {
            assert(res@[i].1 == route@[i]);
            assert(is_shortest_edge(g, route@[i], route@[i + 1], res@[i].0));
        }
    }
    res
}

/// Return the shortest route from the `start` to the end vertex.
///
/// The vec returned does not return the very last vertex. This is
/// necessary because a route of N vertices only has N-1 edges.
pub fn shortest_path<'a, G: Graph<'a>>(
    g: &G,
    start: Vertex<'a>,
    size_hint: usize,
    _graph_limit: usize,
) -> (result: Result<Vec<(Edge, Vertex<'a>)>, ExceededGraphLimit>)
    requires
        g.has_vertex(start),
        affordable(g, start, estimate(g, start)),
        reservable(size_hint),
    ensures
        result matches Ok(path) && {
            &&& path@ == with_edges(g, fringe_route(g, start))
            &&& route_to_end(g, start, fringe_route(g, start))
            &&& is_shortest(g, start, fringe_route(g, start))
        },
{
    let vertex_path: Vec<Vertex<'a>> = fringe_search(g, start, size_hint);
    Ok(shortest_path_with_edges(g, vertex_path.as_slice()))
}

} // verus!
