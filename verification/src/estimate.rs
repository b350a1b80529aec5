//! How far the end is at least.

use vstd::math::{max, min};
use vstd::prelude::*;

use crate::graph::{Edge, Graph, Vertex};
use crate::syntax::Syntax;

verus! {

/// How many nodes come after `node`.
pub open spec fn after(node: Option<&Syntax>) -> int {
    match node {
        Some(node) => node.place().num_after as int,
        None => 0,
    }
}

/// How many nodes come after `node` at its own level.
pub open spec fn after_this_level(node: Option<&Syntax>) -> int {
    match node {
        Some(node) => node.place().num_siblings_after as int,
        None => 0,
    }
}

/// How many nodes come after `node` at the levels above.
pub open spec fn after_other_levels(node: Option<&Syntax>) -> int {
    after(node) - after_this_level(node)
}

/// How many nodes of `v` can be matched up at best, level by level.
pub open spec fn max_common(v: Vertex) -> int {
    min(after_this_level(v.lhs_syntax), after_this_level(v.rhs_syntax)) + min(
        after_other_levels(v.lhs_syntax),
        after_other_levels(v.rhs_syntax),
    )
}

/// How many nodes of `v` are left over even so.
pub open spec fn min_novel(v: Vertex) -> int {
    max(after_this_level(v.lhs_syntax), after_this_level(v.rhs_syntax)) - min(
        after_this_level(v.lhs_syntax),
        after_this_level(v.rhs_syntax),
    ) + max(after_other_levels(v.lhs_syntax), after_other_levels(v.rhs_syntax)) - min(
        after_other_levels(v.lhs_syntax),
        after_other_levels(v.rhs_syntax),
    )
}

/// The estimate of what a route from `v` to the end costs: as many unchanged
/// nodes as there can be, the rest novel, and an exit for each list entered.
pub open spec fn estimate<'a, G: Graph<'a>>(g: &G, v: Vertex<'a>) -> int {
    max_common(v) * g.edge_cost(Edge::UnchangedNode { depth_difference: 0 }) + min_novel(v)
        * g.edge_cost(Edge::NovelAtomLHS { contiguous: true }) + v.num_parents * g.edge_cost(
        Edge::ExitDelimiterBoth,
    )
}

/// An estimate is never negative.
pub proof fn lemma_estimate_nonnegative<'a, G: Graph<'a>>(g: &G, v: Vertex<'a>)
    requires
        v.wf(),
    ensures
        0 <= max_common(v) * g.edge_cost(Edge::UnchangedNode { depth_difference: 0 }),
        0 <= min_novel(v) * g.edge_cost(Edge::NovelAtomLHS { contiguous: true }),
        0 <= v.num_parents * g.edge_cost(Edge::ExitDelimiterBoth),
        0 <= estimate(g, v),
{
    let common = max_common(v);
    let novel = min_novel(v);
    let parents = v.num_parents as int;
    let unchanged_cost = g.edge_cost(Edge::UnchangedNode { depth_difference: 0 }) as int;
    let novel_cost = g.edge_cost(Edge::NovelAtomLHS { contiguous: true }) as int;
    let exit_cost = g.edge_cost(Edge::ExitDelimiterBoth) as int;
    assert(0 <= common * unchanged_cost) by (nonlinear_arith)
        requires
            0 <= common,
            0 <= unchanged_cost,
    ;
    assert(0 <= novel * novel_cost) by (nonlinear_arith)
        requires
            0 <= novel,
            0 <= novel_cost,
    ;
    assert(0 <= parents * exit_cost) by (nonlinear_arith)
        requires
            0 <= parents,
            0 <= exit_cost,
    ;
}

/// Every node after a vertex is paid for, once: as many pairs as the two sides allow,
/// at the level of the vertex and above it, as unchanged nodes, and each of the others
/// as a novel node. Each list that has been entered is paid for as an exit.
pub proof fn law_every_node_is_paid_for<'a, G: Graph<'a>>(
    g: &G,
    v: Vertex<'a>,
    lhs_after: int,
    lhs_siblings: int,
    rhs_after: int,
    rhs_siblings: int,
) -> (pairs: (int, int))
    requires
        match v.lhs_syntax {
            Some(node) => lhs_after == node.place().num_after && lhs_siblings
                == node.place().num_siblings_after,
            None => lhs_after == 0 && lhs_siblings == 0,
        },
        match v.rhs_syntax {
            Some(node) => rhs_after == node.place().num_after && rhs_siblings
                == node.place().num_siblings_after,
            None => rhs_after == 0 && rhs_siblings == 0,
        },
    ensures
        pairs.0 <= lhs_siblings,
        pairs.0 <= rhs_siblings,
        pairs.0 == lhs_siblings || pairs.0 == rhs_siblings,
        pairs.1 <= lhs_after - lhs_siblings,
        pairs.1 <= rhs_after - rhs_siblings,
        pairs.1 == lhs_after - lhs_siblings || pairs.1 == rhs_after - rhs_siblings,
        estimate(g, v) == (pairs.0 + pairs.1) * g.edge_cost(
            Edge::UnchangedNode { depth_difference: 0 },
        ) + (lhs_after + rhs_after - 2 * (pairs.0 + pairs.1)) * g.edge_cost(
            Edge::NovelAtomLHS { contiguous: true },
        ) + v.num_parents * g.edge_cost(Edge::ExitDelimiterBoth),
{
    let this_level = if lhs_siblings < rhs_siblings {
        lhs_siblings
    } else {
        rhs_siblings
    };
    let other_levels = if lhs_after - lhs_siblings < rhs_after - rhs_siblings {
        lhs_after - lhs_siblings
    } else {
        rhs_after - rhs_siblings
    };
    assert(max_common(v) == this_level + other_levels);
    assert(min_novel(v) == lhs_after + rhs_after - 2 * (this_level + other_levels));
    (this_level, other_levels)
}

/// One more node on the left above the level of a vertex, where the left has no fewer
/// than the right already, has no counterpart: it costs exactly a novel node more.
pub proof fn law_one_more_node<'a, G: Graph<'a>>(
    g: &G,
    v: Vertex<'a>,
    more: Vertex<'a>,
    node: &'a Syntax<'a>,
    node_more: &'a Syntax<'a>,
)
    requires
        v.lhs_syntax == Some(node),
        more.lhs_syntax == Some(node_more),
        more.rhs_syntax == v.rhs_syntax,
        more.num_parents == v.num_parents,
        node_more.place().num_after == node.place().num_after + 1,
        node_more.place().num_siblings_after == node.place().num_siblings_after,
        match v.rhs_syntax {
            Some(rhs) => node.place().num_after - node.place().num_siblings_after
                >= rhs.place().num_after - rhs.place().num_siblings_after,
            None => node.place().num_after >= node.place().num_siblings_after,
        },
    ensures
        estimate(g, more) == estimate(g, v) + g.edge_cost(Edge::NovelAtomLHS { contiguous: true }),
{
    assert(max_common(more) == max_common(v));
    let novel = min_novel(v);
    let cost = g.edge_cost(Edge::NovelAtomLHS { contiguous: true }) as int;
    assert(min_novel(more) == novel + 1);
    assert((novel + 1) * cost == novel * cost + cost) by (nonlinear_arith);
}

/// One more list that has been entered costs exactly an exit more.
pub proof fn law_one_more_list<'a, G: Graph<'a>>(g: &G, v: Vertex<'a>, more: Vertex<'a>)
    requires
        more.lhs_syntax == v.lhs_syntax,
        more.rhs_syntax == v.rhs_syntax,
        more.num_parents == v.num_parents + 1,
    ensures
        estimate(g, more) == estimate(g, v) + g.edge_cost(Edge::ExitDelimiterBoth),
{
    let parents = v.num_parents as int;
    let cost = g.edge_cost(Edge::ExitDelimiterBoth) as int;
    assert((parents + 1) * cost == parents * cost + cost) by (nonlinear_arith);
}

/// Neither the estimate nor what it is summed up from exceeds a `u64`.
pub open spec fn estimate_fits<'a, G: Graph<'a>>(g: &G, v: Vertex<'a>) -> bool {
    &&& v.wf()
    &&& min_novel(v) <= u64::MAX
    &&& estimate(g, v) <= u64::MAX
}

/// The smaller of two numbers.
fn lesser(a: u64, b: u64) -> (least: u64)
    ensures
        least == min(a as int, b as int),
{
    if a <= b {
        a
    } else {
        b
    }
}

/// The larger of two numbers.
fn greater(a: u64, b: u64) -> (greatest: u64)
    ensures
        greatest == max(a as int, b as int),
{
    if a >= b {
        a
    } else {
        b
    }
}

/// Estimates what the cheapest route from `v` to the end costs.
pub fn estimated_distance_remaining<'a, G: Graph<'a>>(g: &G, v: &Vertex<'a>) -> (distance: u64)
    requires
        estimate_fits(g, *v),
    ensures
        distance == estimate(g, *v),
        ({
            let (lhs_after, lhs_siblings) = match v.lhs_syntax {
                Some(node) => (
                    node.place().num_after as int,
                    node.place().num_siblings_after as int,
                ),
                None => (0, 0),
            };
            let (rhs_after, rhs_siblings) = match v.rhs_syntax {
                Some(node) => (
                    node.place().num_after as int,
                    node.place().num_siblings_after as int,
                ),
                None => (0, 0),
            };
            let pairs = min(lhs_siblings, rhs_siblings) + min(
                lhs_after - lhs_siblings,
                rhs_after - rhs_siblings,
            );
            distance == pairs * g.edge_cost(Edge::UnchangedNode { depth_difference: 0 }) + (lhs_after
                + rhs_after - 2 * pairs) * g.edge_cost(Edge::NovelAtomLHS { contiguous: true })
                + v.num_parents * g.edge_cost(Edge::ExitDelimiterBoth)
        }),
{
    let lhs_num_after: u64 = match v.lhs_syntax {
        Some(lhs_syntax) => lhs_syntax.num_after() as u64,
        None => 0,
    };
    let rhs_num_after: u64 = match v.rhs_syntax {
        Some(rhs_syntax) => rhs_syntax.num_after() as u64,
        None => 0,
    };

    let lhs_num_siblings_after: u64 = match v.lhs_syntax {
        Some(lhs_syntax) => lhs_syntax.num_siblings_after() as u64,
        None => 0,
    };
    let rhs_num_siblings_after: u64 = match v.rhs_syntax {
        Some(rhs_syntax) => rhs_syntax.num_siblings_after() as u64,
        None => 0,
    };
    proof {
        lemma_estimate_nonnegative(g, *v);
        law_every_node_is_paid_for(
            g,
            *v,
            lhs_num_after as int,
            lhs_num_siblings_after as int,
            rhs_num_after as int,
            rhs_num_siblings_after as int,
        );
    }

    let exit_costs: u64 = v.num_parents as u64 * g.cost(Edge::ExitDelimiterBoth);

    let max_common_this_level: u64 = lesser(lhs_num_siblings_after, rhs_num_siblings_after);
    let min_novel_this_level: u64 = greater(lhs_num_siblings_after, rhs_num_siblings_after)
        - max_common_this_level;

    // Best case scenario: we match up all of these.
    let max_other_levels: u64 = lesser(
        lhs_num_after - lhs_num_siblings_after,
        rhs_num_after - rhs_num_siblings_after,
    );
    // For the remaining, they must be novel in some form.
    let min_novel_other_levels: u64 = greater(
        lhs_num_after - lhs_num_siblings_after,
        rhs_num_after - rhs_num_siblings_after,
    ) - max_other_levels;

    (max_common_this_level + max_other_levels) * g.cost(
        Edge::UnchangedNode { depth_difference: 0 },
    ) + (min_novel_this_level + min_novel_other_levels) * g.cost(
        Edge::NovelAtomLHS { contiguous: true },
    ) + exit_costs
}

} // verus!
