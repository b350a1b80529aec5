//! Diffs two syntax trees and records the outcome.

use vstd::prelude::*;

use crate::best_first::ExceededGraphLimit;
use crate::estimate::estimate;
use crate::fringe::fringe_route;
use crate::graph::{offers, Edge, Graph, Vertex};
use crate::listing::{lemma_listing_affordable, Listing};
use crate::paths::{
    affordable, is_route, is_shortest, lemma_shortest_edge, linked, route_to_end, shortest_edge,
    with_edges,
};
use crate::predecessors::reservable_count;
use crate::route::shortest_path;
use crate::syntax::{countable, node_count, siblings, total_size, Syntax};

verus! {

/// The two sides have so few nodes that their product can be reserved for.
pub open spec fn sides_countable<'a>(
    lhs_syntax: Option<&'a Syntax<'a>>,
    rhs_syntax: Option<&'a Syntax<'a>>,
) -> bool {
    &&& countable(lhs_syntax)
    &&& countable(rhs_syntax)
    &&& reservable_count(total_size(siblings(lhs_syntax)) * total_size(siblings(rhs_syntax)))
}

/// The two sides can be diffed on `g`.
pub open spec fn diffable<'a, G: Graph<'a>>(
    g: &G,
    lhs_syntax: Option<&'a Syntax<'a>>,
    rhs_syntax: Option<&'a Syntax<'a>>,
) -> bool {
    &&& g.has_start(lhs_syntax, rhs_syntax)
    &&& sides_countable(lhs_syntax, rhs_syntax)
    &&& affordable(
        g,
        g.start_vertex(lhs_syntax, rhs_syntax),
        estimate(g, g.start_vertex(lhs_syntax, rhs_syntax)),
    )
}

/// All that a diff asks of two sides is that the nodes of each, and the product of the
/// two, are not too many to count and to reserve for. A listing asks no more than that
/// its first row is at their first nodes.
pub proof fn law_when_sides_can_be_diffed<'a>(
    listing: &Listing<'a>,
    lhs_syntax: Option<&'a Syntax<'a>>,
    rhs_syntax: Option<&'a Syntax<'a>>,
)
    ensures
        diffable(listing, lhs_syntax, rhs_syntax) <==> {
            &&& listing.wf()
            &&& listing.rows@.len() > 0
            &&& listing.rows@[0].vertex.lhs_syntax == lhs_syntax
            &&& listing.rows@[0].vertex.rhs_syntax == rhs_syntax
            &&& total_size(siblings(lhs_syntax)) <= u32::MAX
            &&& total_size(siblings(rhs_syntax)) <= u32::MAX
            &&& total_size(siblings(lhs_syntax)) * total_size(siblings(rhs_syntax)) <= usize::MAX
                / 128
        },
{
    if listing.has_start(lhs_syntax, rhs_syntax) {
        listing.lemma_start(lhs_syntax, rhs_syntax);
        lemma_listing_affordable(listing, listing.start_vertex(lhs_syntax, rhs_syntax));
    }
}

/// How many items of a route to show.
pub fn print_length(verbose: bool) -> (len: usize)
    ensures
        len == if verbose {
            50int
        } else {
            5int
        },
{
    if verbose {
        50
    } else {
        5
    }
}

/// The edges of a route are edges of the vertices that they are given with.
proof fn lemma_with_edges<'a, G: Graph<'a>>(g: &G, route: Seq<Vertex<'a>>)
    requires
        is_route(g, route),
    ensures
        forall|i: int|
            0 <= i < with_edges(g, route).len() ==> {
                &&& g.has_vertex(#[trigger] with_edges(g, route)[i].1)
                &&& offers(g.successors(with_edges(g, route)[i].1), with_edges(g, route)[i].0)
            },
{
    let path = with_edges(g, route);
    assert forall|i: int| 0 <= i < path.len() implies {
        &&& g.has_vertex(#[trigger] path[i].1)
        &&& offers(g.successors(path[i].1), path[i].0)
    } by {
        let u = route[i];
        let v = route[i + 1];
        assert(linked(g, u, v));
        lemma_shortest_edge(g, u, v);
        let edge = shortest_edge(g, u, v);
        let j = choose|j: int|
            0 <= j < g.successors(u).len() && #[trigger] g.successors(u)[j] == (edge, v);
        assert(g.successors(u)[j].0 == edge);
        assert(path[i] == (edge, u));
    }
}

/// The steps that turn one side into the other at the least cost.
pub fn diff_route<'a, G: Graph<'a>>(
    g: &G,
    lhs_syntax: Option<&'a Syntax<'a>>,
    rhs_syntax: Option<&'a Syntax<'a>>,
    graph_limit: usize,
) -> (result: Result<Vec<(Edge, Vertex<'a>)>, ExceededGraphLimit>)
    requires
        diffable(g, lhs_syntax, rhs_syntax),
    ensures
        ({
            let start = g.start_vertex(lhs_syntax, rhs_syntax);
            result matches Ok(path) && {
                &&& path@ == with_edges(g, fringe_route(g, start))
                &&& route_to_end(g, start, fringe_route(g, start))
                &&& is_shortest(g, start, fringe_route(g, start))
            }
        }),
{
    let lhs_node_count: usize = node_count(lhs_syntax) as usize;
    let rhs_node_count: usize = node_count(rhs_syntax) as usize;

    // When there are a large number of changes, we end up building a
    // graph whose size is roughly quadratic. Use this as a size hint,
    // so we don't spend too much time re-hashing and expanding the
    // predecessors hashmap.
    let size_hint: usize = lhs_node_count * rhs_node_count;

    proof {
        g.lemma_start(lhs_syntax, rhs_syntax);
    }
    let start: Vertex<'a> = g.start(lhs_syntax, rhs_syntax);
    shortest_path(g, start, size_hint, graph_limit)
}

/// Diffs two syntax nodes and their siblings, and records in `change_map` what
/// becomes of each node.
pub fn mark_syntax<'a, G: Graph<'a>>(
    g: &G,
    lhs_syntax: Option<&'a Syntax<'a>>,
    rhs_syntax: Option<&'a Syntax<'a>>,
    change_map: &mut G::ChangeMap,
    graph_limit: usize,
) -> (result: Result<(), ExceededGraphLimit>)
    requires
        diffable(g, lhs_syntax, rhs_syntax),
    ensures
        result is Ok,
        ({
            let start = g.start_vertex(lhs_syntax, rhs_syntax);
            let route = fringe_route(g, start);
            &&& final(change_map)@ == g.marked(with_edges(g, route), old(change_map)@)
            &&& route_to_end(g, start, route)
            &&& is_shortest(g, start, route)
        }),
{
    match diff_route(g, lhs_syntax, rhs_syntax, graph_limit) {
        Ok(route) => {
            proof {
                lemma_with_edges(g, fringe_route(g, g.start_vertex(lhs_syntax, rhs_syntax)));
            }
            g.populate_change_map(route.as_slice(), change_map);
            Ok(())
        },
        Err(exceeded) => Err(exceeded),
    }
}

} // verus!
