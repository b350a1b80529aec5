//! The graph of the ways to match up two syntax trees, as the search sees it.

use bumpalo::Bump;
use vstd::prelude::*;

use crate::syntax::Syntax;

verus! {

/// No vertex has more neighbours than this.
pub const MAX_NEIGHBOURS: usize = 12;

/// One step of matching up two trees.
#[derive(Clone, Copy, Debug, PartialEq, Eq, Structural)]
pub enum Edge {
    /// The current nodes are the same.
    UnchangedNode { depth_difference: u32 },
    /// The current lists have the same delimiters.
    EnterUnchangedDelimiter { depth_difference: u32 },
    /// The current comments stand for each other.
    ReplacedComment { levenshtein_pct: u8 },
    /// The left atom has no counterpart.
    NovelAtomLHS { contiguous: bool },
    /// The right atom has no counterpart.
    NovelAtomRHS { contiguous: bool },
    /// The delimiters of the left list have no counterpart.
    EnterNovelDelimiterLHS { contiguous: bool },
    /// The delimiters of the right list have no counterpart.
    EnterNovelDelimiterRHS { contiguous: bool },
    /// Leave a list on the left.
    ExitDelimiterLHS,
    /// Leave a list on the right.
    ExitDelimiterRHS,
    /// Leave a list on both sides.
    ExitDelimiterBoth,
}

/// A pair of positions in the two trees.
#[derive(Clone, Copy)]
pub struct Vertex<'a> {
    /// The current node on the left, unless its list is exhausted.
    pub lhs_syntax: Option<&'a Syntax<'a>>,
    /// The current node on the right, unless its list is exhausted.
    pub rhs_syntax: Option<&'a Syntax<'a>>,
    /// How many lists have been entered and not left yet.
    pub num_parents: usize,
    /// Whether both trees have been gone through.
    pub end: bool,
    /// The number that tells this vertex from the others of its graph.
    pub key: u64,
}

impl<'a> Vertex<'a> {
    /// The counts of the current nodes are sound.
    pub open spec fn wf(&self) -> bool {
        &&& self.lhs_syntax matches Some(node) ==> node.wf()
        &&& self.rhs_syntax matches Some(node) ==> node.wf()
    }

    /// Have both trees been gone through?
    pub fn is_end(&self) -> (end: bool)
        ensures
            end == self.end,
    {
        self.end
    }
}

/// A neighbour buffer that holds `successors`, in order, and nothing else.
pub open spec fn holds<'a>(
    buf: Seq<Option<(Edge, &'a Vertex<'a>)>>,
    successors: Seq<(Edge, Vertex<'a>)>,
) -> bool {
    forall|i: int|
        0 <= i < buf.len() ==> #[trigger] buf[i] == if i < successors.len() {
            Some((successors[i].0, &successors[i].1))
        } else {
            None
        }
}

/// `edge` is among `successors`.
pub open spec fn offers<'a>(successors: Seq<(Edge, Vertex<'a>)>, edge: Edge) -> bool {
    exists|i: int| 0 <= i < successors.len() && (#[trigger] successors[i]).0 == edge
}

/// The vertices and edges that the search runs on. They are found one vertex at
/// a time: a graph is roughly quadratic in the size of the trees.
pub trait Graph<'a>: Sized {
    /// Where the outcome of a diff is recorded.
    type ChangeMap: View;

    /// Whether `v` is a vertex of this graph.
    spec fn has_vertex(&self, v: Vertex<'a>) -> bool;

    /// Whether the graph has a vertex to start from at these two nodes.
    spec fn has_start(
        &self,
        lhs_syntax: Option<&'a Syntax<'a>>,
        rhs_syntax: Option<&'a Syntax<'a>>,
    ) -> bool;

    /// The vertex at which a diff of these two nodes and their siblings starts.
    spec fn start_vertex(
        &self,
        lhs_syntax: Option<&'a Syntax<'a>>,
        rhs_syntax: Option<&'a Syntax<'a>>,
    ) -> Vertex<'a>;

    /// The edges that leave `v`, each with the vertex that it leads to.
    spec fn successors(&self, v: Vertex<'a>) -> Seq<(Edge, Vertex<'a>)>;

    /// What an edge costs.
    spec fn edge_cost(&self, edge: Edge) -> u64;

    /// A bound on the number of edges that can follow `v`.
    spec fn remaining(&self, v: Vertex<'a>) -> nat;

    /// What a change map holds once a route has been recorded in it.
    spec fn marked(
        &self,
        route: Seq<(Edge, Vertex<'a>)>,
        before: <Self::ChangeMap as View>::V,
    ) -> <Self::ChangeMap as View>::V;

    /// Every edge moves on towards the end of the trees, and only there no edge
    /// is left to take.
    proof fn lemma_vertex(&self, v: Vertex<'a>)
        requires
            self.has_vertex(v),
        ensures
            v.wf(),
            self.successors(v).len() <= MAX_NEIGHBOURS,
            !v.end ==> self.successors(v).len() > 0,
            forall|i: int|
                0 <= i < self.successors(v).len() ==> {
                    &&& self.has_vertex(#[trigger] self.successors(v)[i].1)
                    &&& self.remaining(self.successors(v)[i].1) < self.remaining(v)
                },
    ;

    /// Vertices with the same key are the same.
    proof fn lemma_key(&self, u: Vertex<'a>, v: Vertex<'a>)
        requires
            self.has_vertex(u),
            self.has_vertex(v),
            u.key == v.key,
        ensures
            u == v,
    ;

    /// The vertex to start from at two nodes is at those nodes.
    proof fn lemma_start(
        &self,
        lhs_syntax: Option<&'a Syntax<'a>>,
        rhs_syntax: Option<&'a Syntax<'a>>,
    )
        requires
            self.has_start(lhs_syntax, rhs_syntax),
        ensures
            self.has_vertex(self.start_vertex(lhs_syntax, rhs_syntax)),
            self.start_vertex(lhs_syntax, rhs_syntax).lhs_syntax == lhs_syntax,
            self.start_vertex(lhs_syntax, rhs_syntax).rhs_syntax == rhs_syntax,
    ;

    /// What does this edge cost?
    fn cost(&self, edge: Edge) -> (cost: u64)
        ensures
            cost == self.edge_cost(edge),
    ;

    /// The vertex to start from at two nodes.
    fn start(
        &self,
        lhs_syntax: Option<&'a Syntax<'a>>,
        rhs_syntax: Option<&'a Syntax<'a>>,
    ) -> (start: Vertex<'a>)
        requires
            self.has_start(lhs_syntax, rhs_syntax),
        ensures
            start == self.start_vertex(lhs_syntax, rhs_syntax),
    ;

    /// Writes the edges that leave `v` to `buf`, with the vertices that they lead
    /// to, which it stores in `vertex_arena`.
    fn neighbours<'b>(
        &self,
        v: &Vertex<'a>,
        buf: &mut [Option<(Edge, &'b Vertex<'a>)>; 12],
        vertex_arena: &'b Bump,
    )
        requires
            self.has_vertex(*v),
        ensures
            holds(final(buf)@, self.successors(*v)),
    ;

    /// Records a route in `change_map`.
    fn populate_change_map(
        &self,
        route: &[(Edge, Vertex<'a>)],
        change_map: &mut Self::ChangeMap,
    )
        requires
            forall|i: int|
                0 <= i < route@.len() ==> {
                    &&& self.has_vertex(#[trigger] route@[i].1)
                    &&& offers(self.successors(route@[i].1), route@[i].0)
                },
        ensures
            final(change_map)@ == self.marked(route@, old(change_map)@),
    ;
}

} // verus!
