//! A graph that is written out in full: one row for each vertex.

use bumpalo::Bump;
use vstd::prelude::*;

use crate::arena::store;
use crate::changes::{mark_route, ChangeKind, ChangeMap};
use crate::estimate::{
    estimate, estimate_fits, lemma_estimate_nonnegative, max_common, min_novel,
};
use crate::graph::{Edge, Graph, Vertex, MAX_NEIGHBOURS};
use crate::paths::{affordable, lemma_affordable};
use crate::syntax::Syntax;

verus! {

/// No count, no cost and no number of rows exceeds this, so that nothing that is
/// summed up over a listing exceeds a `u64`.
pub const LIMIT: u64 = 0x1000_0000;

/// A vertex, with the edges that leave it and the rows that they lead to.
pub struct Row<'a> {
    pub vertex: Vertex<'a>,
    pub edges: Vec<(Edge, usize)>,
}

/// A graph as a list of rows. The first row is the start, and edges lead down.
pub struct Listing<'a> {
    /// The vertices, each of which has the number of its row for its key.
    pub rows: Vec<Row<'a>>,
    /// What edges cost.
    pub prices: Vec<(Edge, u64)>,
    /// What the other edges cost.
    pub other_price: u64,
}

/// The first price that is listed for `edge`, or else `other_price`.
pub open spec fn price(prices: Seq<(Edge, u64)>, other_price: u64, edge: Edge) -> u64
    decreases prices.len(),
{
    if prices.len() == 0 {
        other_price
    } else if prices[0].0 == edge {
        prices[0].1
    } else {
        price(prices.drop_first(), other_price, edge)
    }
}

/// The counts of a node are within the limit.
pub open spec fn node_within_limit(node: Option<&Syntax>) -> bool {
    node matches Some(node) ==> node.wf() && node.place().num_after <= LIMIT
}

impl<'a> Row<'a> {
    /// The row stands at `index` of `len` rows as it should.
    pub open spec fn wf(&self, index: int, len: int) -> bool {
        &&& self.vertex.key == index
        &&& node_within_limit(self.vertex.lhs_syntax)
        &&& node_within_limit(self.vertex.rhs_syntax)
        &&& self.vertex.num_parents <= LIMIT
        &&& self.edges@.len() <= MAX_NEIGHBOURS
        &&& self.vertex.end || self.edges@.len() > 0
        &&& forall|i: int|
            0 <= i < self.edges@.len() ==> index < (#[trigger] self.edges@[i]).1 < len
    }

    /// Does the row stand at `index` of `len` rows as it should?
    fn check(&self, index: usize, len: usize) -> (ok: bool)
        ensures
            ok == self.wf(index as int, len as int),
    {
        if !(self.vertex.key == index as u64 && self.vertex.num_parents as u64 <= LIMIT
            && self.edges.len() <= MAX_NEIGHBOURS && (self.vertex.end || self.edges.len() > 0)) {
            return false;
        }
        if !check_node(self.vertex.lhs_syntax) || !check_node(self.vertex.rhs_syntax) {
            return false;
        }
        let mut i: usize = 0;
        while i < self.edges.len()
            invariant
                i <= self.edges@.len(),
                forall|j: int| 0 <= j < i ==> index < (#[trigger] self.edges@[j]).1 < len,
            decreases self.edges@.len() - i,
        {
            let target: usize = self.edges[i].1;
            if !(index < target && target < len) {
                assert(!self.wf(index as int, len as int));
                return false;
            }
            i = i + 1;
        }
        true
    }
}

/// Are the counts of a node within the limit?
fn check_node(node: Option<&Syntax>) -> (ok: bool)
    ensures
        ok == node_within_limit(node),
{
    match node {
        Some(node) => node.num_siblings_after() <= node.num_after() && node.num_after() as u64
            <= LIMIT,
        None => true,
    }
}

impl<'a> Listing<'a> {
    /// The rows fit together, and nothing is beyond the limit.
    pub open spec fn wf(&self) -> bool {
        &&& self.rows@.len() <= LIMIT
        &&& self.other_price <= LIMIT
        &&& forall|i: int| 0 <= i < self.prices@.len() ==> (#[trigger] self.prices@[i]).1 <= LIMIT
        &&& forall|i: int|
            0 <= i < self.rows@.len() ==> (#[trigger] self.rows@[i]).wf(
                i,
                self.rows@.len() as int,
            )
    }

    /// Do the rows fit together, with nothing beyond the limit?
    pub fn check(&self) -> (ok: bool)
        ensures
            ok == self.wf(),
    {
        if !(self.rows.len() as u64 <= LIMIT && self.other_price <= LIMIT) {
            return false;
        }
        let mut i: usize = 0;
        while i < self.prices.len()
            invariant
                i <= self.prices@.len(),
                forall|j: int| 0 <= j < i ==> (#[trigger] self.prices@[j]).1 <= LIMIT,
            decreases self.prices@.len() - i,
        {
            if self.prices[i].1 > LIMIT {
                assert(self.prices@[i as int].1 > LIMIT);
                return false;
            }
            i = i + 1;
        }
        let mut i: usize = 0;
        while i < self.rows.len()
            invariant
                i <= self.rows@.len(),
                forall|j: int|
                    0 <= j < i ==> (#[trigger] self.rows@[j]).wf(j, self.rows@.len() as int),
            decreases self.rows@.len() - i,
        {
            if !self.rows[i].check(i, self.rows.len()) {
                assert(!self.rows@[i as int].wf(i as int, self.rows@.len() as int));
                return false;
            }
            i = i + 1;
        }
        true
    }
}

impl<'a> Graph<'a> for Listing<'a> {
    type ChangeMap = ChangeMap;

    open spec fn has_vertex(&self, v: Vertex<'a>) -> bool {
        &&& self.wf()
        &&& v.key < self.rows@.len()
        &&& self.rows@[v.key as int].vertex == v
    }

    open spec fn has_start(
        &self,
        lhs_syntax: Option<&'a Syntax<'a>>,
        rhs_syntax: Option<&'a Syntax<'a>>,
    ) -> bool {
        &&& self.wf()
        &&& self.rows@.len() > 0
        &&& self.rows@[0].vertex.lhs_syntax == lhs_syntax
        &&& self.rows@[0].vertex.rhs_syntax == rhs_syntax
    }

    open spec fn start_vertex(
        &self,
        lhs_syntax: Option<&'a Syntax<'a>>,
        rhs_syntax: Option<&'a Syntax<'a>>,
    ) -> Vertex<'a> {
        self.rows@[0].vertex
    }

    open spec fn successors(&self, v: Vertex<'a>) -> Seq<(Edge, Vertex<'a>)> {
        let edges = self.rows@[v.key as int].edges@;
        Seq::new(edges.len(), |i: int| (edges[i].0, self.rows@[edges[i].1 as int].vertex))
    }

    open spec fn edge_cost(&self, edge: Edge) -> u64 {
        price(self.prices@, self.other_price, edge)
    }

    open spec fn remaining(&self, v: Vertex<'a>) -> nat {
        (self.rows@.len() - v.key) as nat
    }

    open spec fn marked(
        &self,
        route: Seq<(Edge, Vertex<'a>)>,
        before: Map<u64, ChangeKind>,
    ) -> Map<u64, ChangeKind> {
        mark_route(before, route)
    }

    proof fn lemma_vertex(&self, v: Vertex<'a>) {
        let row = self.rows@[v.key as int];
        assert(row.wf(v.key as int, self.rows@.len() as int));
        assert forall|i: int| 0 <= i < self.successors(v).len() implies {
            &&& self.has_vertex(#[trigger] self.successors(v)[i].1)
            &&& self.remaining(self.successors(v)[i].1) < self.remaining(v)
        } by {
            let target = row.edges@[i].1 as int;
            assert(self.rows@[target].wf(target, self.rows@.len() as int));
        }
    }

    proof fn lemma_key(&self, u: Vertex<'a>, v: Vertex<'a>) {
    }

    proof fn lemma_start(
        &self,
        lhs_syntax: Option<&'a Syntax<'a>>,
        rhs_syntax: Option<&'a Syntax<'a>>,
    ) {
        assert(self.rows@[0].wf(0, self.rows@.len() as int));
    }

    fn cost(&self, edge: Edge) -> (cost: u64)
        ensures
            forall|i: int|
                0 <= i < self.prices@.len() && (#[trigger] self.prices@[i]).0 == edge && (forall|
                    j: int,
                |
                    0 <= j < i ==> (#[trigger] self.prices@[j]).0 != edge) ==> cost
                    == self.prices@[i].1,
            (forall|i: int| 0 <= i < self.prices@.len() ==> (#[trigger] self.prices@[i]).0 != edge)
                ==> cost == self.other_price,
    {
        proof {
            lemma_first_price(self.prices@, self.other_price, edge);
        }
        assert(self.prices@.skip(0) =~= self.prices@);
        let mut i: usize = 0;
        while i < self.prices.len()
            invariant
                i <= self.prices@.len(),
                price(self.prices@.skip(i as int), self.other_price, edge) == price(
                    self.prices@,
                    self.other_price,
                    edge,
                ),
            decreases self.prices@.len() - i,
        {
            assert(self.prices@.skip(i as int).drop_first() =~= self.prices@.skip(i + 1));
            if self.prices[i].0 == edge {
                proof {
                    lemma_first_price(self.prices@, self.other_price, edge);
                }
                return self.prices[i].1;
            }
            i = i + 1;
        }
        self.other_price
    }

    fn start(
        &self,
        lhs_syntax: Option<&'a Syntax<'a>>,
        rhs_syntax: Option<&'a Syntax<'a>>,
    ) -> (start: Vertex<'a>) {
        self.rows[0].vertex
    }

    fn neighbours<'b>(
        &self,
        v: &Vertex<'a>,
        buf: &mut [Option<(Edge, &'b Vertex<'a>)>; 12],
        vertex_arena: &'b Bump,
    ) {
        proof {
            self.lemma_vertex(*v);
        }
        let row: &Row<'a> = &self.rows[v.key as usize];
        assert(row.wf(v.key as int, self.rows@.len() as int));
        let mut i: usize = 0;
        while i < MAX_NEIGHBOURS
            invariant
                i <= MAX_NEIGHBOURS,
                self.has_vertex(*v),
                *row == self.rows@[v.key as int],
                row.wf(v.key as int, self.rows@.len() as int),
                forall|j: int|
                    0 <= j < i ==> #[trigger] buf@[j] == if j < self.successors(*v).len() {
                        Some((self.successors(*v)[j].0, &self.successors(*v)[j].1))
                    } else {
                        None
                    },
            decreases MAX_NEIGHBOURS - i,
        {
            if i < row.edges.len() {
                let (edge, target) = row.edges[i];
                buf[i] = Some((edge, store(vertex_arena, self.rows[target].vertex)));
            } else {
                buf[i] = None;
            }
            i = i + 1;
        }
    }

    fn populate_change_map(
        &self,
        route: &[(Edge, Vertex<'a>)],
        change_map: &mut ChangeMap,
    ) {
        change_map.insert_route(route);
    }
}

/// The first price of an edge counts, wherever it is listed, and the price of the
/// others where none is.
proof fn lemma_first_price(prices: Seq<(Edge, u64)>, other_price: u64, edge: Edge)
    ensures
        forall|i: int|
            0 <= i < prices.len() && (#[trigger] prices[i]).0 == edge && (forall|j: int|
                0 <= j < i ==> (#[trigger] prices[j]).0 != edge) ==> price(
                prices,
                other_price,
                edge,
            ) == prices[i].1,
        (forall|i: int| 0 <= i < prices.len() ==> (#[trigger] prices[i]).0 != edge) ==> price(
            prices,
            other_price,
            edge,
        ) == other_price,
    decreases prices.len(),
{
    if prices.len() > 0 && prices[0].0 != edge {
        let rest = prices.drop_first();
        lemma_first_price(rest, other_price, edge);
        assert forall|i: int|
            0 <= i < prices.len() && (#[trigger] prices[i]).0 == edge && (forall|j: int|
                0 <= j < i ==> (#[trigger] prices[j]).0 != edge) implies price(
            prices,
            other_price,
            edge,
        ) == prices[i].1 by {
            assert(rest[i - 1] == prices[i]);
            assert forall|j: int| 0 <= j < i - 1 implies (#[trigger] rest[j]).0 != edge by {
                assert(rest[j] == prices[j + 1]);
            }
        }
        if forall|i: int| 0 <= i < prices.len() ==> (#[trigger] prices[i]).0 != edge {
            assert forall|i: int| 0 <= i < rest.len() implies (#[trigger] rest[i]).0 != edge by {
                assert(rest[i] == prices[i + 1]);
            }
        }
    } else if prices.len() > 0 {
        assert(prices[0].0 == edge);
    }
}

/// An edge costs what the first entry of the price table that lists it says, at
/// whatever place it stands, and the price of the others if no entry lists it.
pub proof fn law_listed_price<'a>(listing: &Listing<'a>, edge: Edge)
    ensures
        forall|i: int|
            0 <= i < listing.prices@.len() && (#[trigger] listing.prices@[i]).0 == edge && (forall|
                j: int,
            |
                0 <= j < i ==> (#[trigger] listing.prices@[j]).0 != edge) ==> listing.edge_cost(
                edge,
            ) == listing.prices@[i].1,
        (forall|i: int|
            0 <= i < listing.prices@.len() ==> (#[trigger] listing.prices@[i]).0 != edge)
            ==> listing.edge_cost(edge) == listing.other_price,
{
    lemma_first_price(listing.prices@, listing.other_price, edge);
}

/// The edges that leave the vertex of a row are all the edges of the row, in order,
/// each with the vertex of the row that it leads to. The start is the first row, and a
/// route is recorded step by step.
pub proof fn law_listed_graph<'a>(listing: &Listing<'a>, index: int)
    requires
        listing.wf(),
        0 <= index < listing.rows@.len(),
    ensures
        listing.has_vertex(listing.rows@[index].vertex),
        listing.successors(listing.rows@[index].vertex).len() == listing.rows@[index].edges@.len(),
        forall|i: int|
            0 <= i < listing.rows@[index].edges@.len() ==> (#[trigger] listing.successors(
                listing.rows@[index].vertex,
            )[i]) == (
                listing.rows@[index].edges@[i].0,
                listing.rows@[listing.rows@[index].edges@[i].1 as int].vertex,
            ),
        forall|lhs: Option<&'a Syntax<'a>>, rhs: Option<&'a Syntax<'a>>| #[trigger]
            listing.has_start(lhs, rhs) ==> listing.start_vertex(lhs, rhs)
                == listing.rows@[0].vertex,
        listing.has_start(listing.rows@[0].vertex.lhs_syntax, listing.rows@[0].vertex.rhs_syntax),
        forall|route: Seq<(Edge, Vertex<'a>)>, before: Map<u64, ChangeKind>| #[trigger]
            listing.marked(route, before) == mark_route(before, route),
{
    assert(listing.rows@[index].wf(index, listing.rows@.len() as int));
}

/// A listing is valid exactly if every vertex has the number of its row for its key,
/// only end vertices have no edge, no vertex has more than twelve, every edge leads
/// further down, the nodes after a node include its siblings, and nothing is beyond the
/// limit.
pub proof fn law_valid_listing<'a>(listing: &Listing<'a>)
    ensures
        listing.wf() <==> {
            &&& listing.rows@.len() <= 0x1000_0000
            &&& listing.other_price <= 0x1000_0000
            &&& forall|i: int|
                0 <= i < listing.prices@.len() ==> (#[trigger] listing.prices@[i]).1 <= 0x1000_0000
            &&& forall|i: int|
                0 <= i < listing.rows@.len() ==> {
                    let row = #[trigger] listing.rows@[i];
                    &&& row.vertex.key == i
                    &&& row.vertex.num_parents <= 0x1000_0000
                    &&& row.vertex.lhs_syntax matches Some(node) ==> node.place().num_siblings_after
                        <= node.place().num_after <= 0x1000_0000
                    &&& row.vertex.rhs_syntax matches Some(node) ==> node.place().num_siblings_after
                        <= node.place().num_after <= 0x1000_0000
                    &&& row.edges@.len() <= 12
                    &&& row.edges@.len() == 0 ==> row.vertex.end
                    &&& forall|k: int|
                        0 <= k < row.edges@.len() ==> i < (#[trigger] row.edges@[k]).1
                            < listing.rows@.len()
                }
        },
{
    if listing.wf() {
        assert forall|i: int| 0 <= i < listing.rows@.len() implies (
        #[trigger] listing.rows@[i]).vertex.key == i by {
            assert(listing.rows@[i].wf(i, listing.rows@.len() as int));
        }
    }
}

/// Every listed price is within the limit.
pub proof fn lemma_price(prices: Seq<(Edge, u64)>, other_price: u64, edge: Edge)
    requires
        other_price <= LIMIT,
        forall|i: int| 0 <= i < prices.len() ==> (#[trigger] prices[i]).1 <= LIMIT,
    ensures
        price(prices, other_price, edge) <= LIMIT,
    decreases prices.len(),
{
    if prices.len() > 0 {
        lemma_price(prices.drop_first(), other_price, edge);
    }
}

/// The estimates of a listing are within the square of the limit, four times over.
pub proof fn lemma_estimate_within_limit<'a>(listing: &Listing<'a>, v: Vertex<'a>)
    requires
        listing.has_vertex(v),
    ensures
        estimate_fits(listing, v),
        estimate(listing, v) <= 4 * LIMIT * LIMIT,
{
    assert(listing.rows@[v.key as int].wf(v.key as int, listing.rows@.len() as int));
    let unchanged = Edge::UnchangedNode { depth_difference: 0 };
    let novel = Edge::NovelAtomLHS { contiguous: true };
    let exit = Edge::ExitDelimiterBoth;
    lemma_price(listing.prices@, listing.other_price, unchanged);
    lemma_price(listing.prices@, listing.other_price, novel);
    lemma_price(listing.prices@, listing.other_price, exit);
    lemma_product(max_common(v), listing.edge_cost(unchanged) as int, 1);
    lemma_product(min_novel(v), listing.edge_cost(novel) as int, 2);
    lemma_product(v.num_parents as int, listing.edge_cost(exit) as int, 1);
}

/// A product of numbers within limits.
proof fn lemma_product(count: int, cost: int, times: int)
    requires
        0 <= count <= times * LIMIT,
        0 <= cost <= LIMIT,
        1 <= times <= 2,
    ensures
        count * cost <= times * LIMIT * LIMIT,
{
    assert(count * cost <= times * LIMIT * LIMIT) by (nonlinear_arith)
        requires
            0 <= count <= times * LIMIT,
            0 <= cost <= LIMIT,
            1 <= times <= 2,
    ;
}

/// Every search on a listing stays within a `u64`.
pub proof fn lemma_listing_affordable<'a>(listing: &Listing<'a>, start: Vertex<'a>)
    requires
        listing.has_vertex(start),
    ensures
        affordable(listing, start, 0),
        affordable(listing, start, estimate(listing, start)),
{
    assert forall|edge: Edge| #[trigger] listing.edge_cost(edge) <= LIMIT by {
        lemma_price(listing.prices@, listing.other_price, edge);
    }
    assert forall|v: Vertex<'a>| listing.has_vertex(v) implies #[trigger] estimate_fits(listing, v)
        && estimate(listing, v) <= 4 * LIMIT * LIMIT by {
        lemma_estimate_within_limit(listing, v);
    }
    lemma_estimate_within_limit(listing, start);
    lemma_estimate_nonnegative(listing, start);
    let all = listing.remaining(start) as int;
    assert(all * LIMIT <= LIMIT * LIMIT) by (nonlinear_arith)
        requires
            0 <= all <= LIMIT,
    ;
    let square = 4 * LIMIT * LIMIT;
    lemma_affordable(listing, start, 0, LIMIT as nat, square);
    lemma_affordable(listing, start, estimate(listing, start), LIMIT as nat, square);
}

} // verus!
