//! What becomes of each syntax node.

use rustc_hash::FxHashMap;
use vstd::prelude::*;

use crate::graph::{Edge, Vertex};
use crate::predecessors::{lookup, record};
use crate::syntax::Syntax;

verus! {

/// What becomes of a syntax node.
#[derive(Clone, Copy, Debug, PartialEq, Eq, Structural)]
pub enum ChangeKind {
    /// The node is the same as the one with this number on the other side.
    Unchanged(u32),
    /// The node is a comment that stands for the one with this number.
    ReplacedComment(u32),
    /// The node has no counterpart.
    Novel,
}

/// What becomes of the syntax nodes of both sides, by their numbers.
pub struct ChangeMap {
    changes: FxHashMap<u64, ChangeKind>,
}

impl View for ChangeMap {
    type V = Map<u64, ChangeKind>;

    closed spec fn view(&self) -> Map<u64, ChangeKind> {
        self.changes@
    }
}

/// The changes after `node`, if there is one, has been marked.
pub open spec fn mark_node(
    changes: Map<u64, ChangeKind>,
    node: Option<&Syntax>,
    kind: ChangeKind,
) -> Map<u64, ChangeKind> {
    match node {
        Some(node) => changes.insert(node.place().id as u64, kind),
        None => changes,
    }
}

/// The changes after both nodes have been marked as counterparts, if both are there.
pub open spec fn mark_pair(
    changes: Map<u64, ChangeKind>,
    v: Vertex,
    lhs_kind: spec_fn(u32) -> ChangeKind,
) -> Map<u64, ChangeKind> {
    match (v.lhs_syntax, v.rhs_syntax) {
        (Some(lhs), Some(rhs)) => mark_node(
            mark_node(changes, Some(lhs), lhs_kind(rhs.place().id)),
            Some(rhs),
            lhs_kind(lhs.place().id),
        ),
        _ => changes,
    }
}

/// The changes after one step of a route has been recorded.
pub open spec fn mark_step(
    changes: Map<u64, ChangeKind>,
    edge: Edge,
    v: Vertex,
) -> Map<u64, ChangeKind> {
    match edge {
        Edge::UnchangedNode { .. } | Edge::EnterUnchangedDelimiter { .. } => mark_pair(
            changes,
            v,
            |id: u32| ChangeKind::Unchanged(id),
        ),
        Edge::ReplacedComment { .. } => mark_pair(
            changes,
            v,
            |id: u32| ChangeKind::ReplacedComment(id),
        ),
        Edge::NovelAtomLHS { .. } | Edge::EnterNovelDelimiterLHS { .. } => mark_node(
            changes,
            v.lhs_syntax,
            ChangeKind::Novel,
        ),
        Edge::NovelAtomRHS { .. } | Edge::EnterNovelDelimiterRHS { .. } => mark_node(
            changes,
            v.rhs_syntax,
            ChangeKind::Novel,
        ),
        // The list was marked when it was entered.
        Edge::ExitDelimiterLHS | Edge::ExitDelimiterRHS | Edge::ExitDelimiterBoth => changes,
    }
}

/// The changes after a route has been recorded, step by step.
pub open spec fn mark_route(
    changes: Map<u64, ChangeKind>,
    route: Seq<(Edge, Vertex)>,
) -> Map<u64, ChangeKind>
    decreases route.len(),
{
    if route.len() == 0 {
        changes
    } else {
        mark_step(mark_route(changes, route.drop_last()), route.last().0, route.last().1)
    }
}

/// `node` is there and has the number `id`.
pub open spec fn has_id(node: Option<&Syntax>, id: u64) -> bool {
    node matches Some(node) && node.place().id == id
}

/// A step along `edge` at `v` matches the node with the number `id` with another, or
/// finds that it has no counterpart.
pub open spec fn concerns(edge: Edge, v: Vertex, id: u64) -> bool {
    ||| {
        &&& edge is UnchangedNode || edge is EnterUnchangedDelimiter || edge is ReplacedComment
        &&& v.lhs_syntax is Some && v.rhs_syntax is Some
        &&& has_id(v.lhs_syntax, id) || has_id(v.rhs_syntax, id)
    }
    ||| {
        &&& edge is NovelAtomLHS || edge is EnterNovelDelimiterLHS
        &&& has_id(v.lhs_syntax, id)
    }
    ||| {
        &&& edge is NovelAtomRHS || edge is EnterNovelDelimiterRHS
        &&& has_id(v.rhs_syntax, id)
    }
}

/// The steps from `i` on do not concern the node with the number `id`.
pub open spec fn settled(route: Seq<(Edge, Vertex)>, i: int, id: u64) -> bool {
    forall|j: int|
        i <= j < route.len() ==> !concerns((#[trigger] route[j]).0, route[j].1, id)
}

/// Steps that do not concern a node leave what was recorded of it.
proof fn lemma_settled(
    changes: Map<u64, ChangeKind>,
    route: Seq<(Edge, Vertex)>,
    i: int,
    id: u64,
)
    requires
        0 <= i <= route.len(),
        settled(route, i, id),
    ensures
        mark_route(changes, route).contains_key(id) == mark_route(
            changes,
            route.take(i),
        ).contains_key(id),
        mark_route(changes, route).contains_key(id) ==> mark_route(changes, route)[id]
            == mark_route(changes, route.take(i))[id],
    decreases route.len(),
{
    if i == route.len() {
        assert(route.take(i) =~= route);
    } else {
        let shorter = route.drop_last();
        assert forall|j: int| i <= j < shorter.len() implies !concerns(
            (#[trigger] shorter[j]).0,
            shorter[j].1,
            id,
        ) by {
            assert(shorter[j] == route[j]);
        }
        lemma_settled(changes, shorter, i, id);
        assert(shorter.take(i) =~= route.take(i));
        assert(!concerns(route[route.len() - 1].0, route[route.len() - 1].1, id));
    }
}

/// What is recorded of a node that no later step concerns is what its step says.
proof fn lemma_last_word(
    changes: Map<u64, ChangeKind>,
    route: Seq<(Edge, Vertex)>,
    i: int,
    id: u64,
)
    requires
        0 <= i < route.len(),
        settled(route, i + 1, id),
    ensures
        ({
            let said = mark_step(mark_route(changes, route.take(i)), route[i].0, route[i].1);
            &&& mark_route(changes, route).contains_key(id) == said.contains_key(id)
            &&& said.contains_key(id) ==> mark_route(changes, route)[id] == said[id]
        }),
{
    lemma_settled(changes, route, i + 1, id);
    assert(route.take(i + 1).drop_last() =~= route.take(i));
    assert(route.take(i + 1).last() == route[i]);
}

/// After a route has been recorded, two nodes or two lists that one of its steps
/// finds to be the same are each recorded as unchanged, with the number of the other,
/// unless a later step concerns them again. It does not matter which step that is.
pub proof fn law_matched_nodes_are_unchanged<'a>(
    before: Map<u64, ChangeKind>,
    route: Seq<(Edge, Vertex<'a>)>,
    i: int,
    lhs: &'a Syntax<'a>,
    rhs: &'a Syntax<'a>,
)
    requires
        0 <= i < route.len(),
        route[i].0 is UnchangedNode || route[i].0 is EnterUnchangedDelimiter,
        route[i].1.lhs_syntax == Some(lhs),
        route[i].1.rhs_syntax == Some(rhs),
    ensures
        lhs.place().id != rhs.place().id && settled(route, i + 1, lhs.place().id as u64) ==> {
            &&& mark_route(before, route).contains_key(lhs.place().id as u64)
            &&& mark_route(before, route)[lhs.place().id as u64] == ChangeKind::Unchanged(
                rhs.place().id,
            )
        },
        settled(route, i + 1, rhs.place().id as u64) ==> {
            &&& mark_route(before, route).contains_key(rhs.place().id as u64)
            &&& mark_route(before, route)[rhs.place().id as u64] == ChangeKind::Unchanged(
                lhs.place().id,
            )
        },
{
    if settled(route, i + 1, lhs.place().id as u64) {
        lemma_last_word(before, route, i, lhs.place().id as u64);
    }
    if settled(route, i + 1, rhs.place().id as u64) {
        lemma_last_word(before, route, i, rhs.place().id as u64);
    }
}

/// After a route has been recorded, two comments that one of its steps finds to stand
/// for each other are recorded so, each with the number of the other, unless a later
/// step concerns them again.
pub proof fn law_replaced_comments<'a>(
    before: Map<u64, ChangeKind>,
    route: Seq<(Edge, Vertex<'a>)>,
    i: int,
    lhs: &'a Syntax<'a>,
    rhs: &'a Syntax<'a>,
)
    requires
        0 <= i < route.len(),
        route[i].0 is ReplacedComment,
        route[i].1.lhs_syntax == Some(lhs),
        route[i].1.rhs_syntax == Some(rhs),
    ensures
        lhs.place().id != rhs.place().id && settled(route, i + 1, lhs.place().id as u64) ==> {
            &&& mark_route(before, route).contains_key(lhs.place().id as u64)
            &&& mark_route(before, route)[lhs.place().id as u64] == ChangeKind::ReplacedComment(
                rhs.place().id,
            )
        },
        settled(route, i + 1, rhs.place().id as u64) ==> {
            &&& mark_route(before, route).contains_key(rhs.place().id as u64)
            &&& mark_route(before, route)[rhs.place().id as u64] == ChangeKind::ReplacedComment(
                lhs.place().id,
            )
        },
{
    if settled(route, i + 1, lhs.place().id as u64) {
        lemma_last_word(before, route, i, lhs.place().id as u64);
    }
    if settled(route, i + 1, rhs.place().id as u64) {
        lemma_last_word(before, route, i, rhs.place().id as u64);
    }
}

/// After a route has been recorded, a node that one of its steps passes as novel, on
/// either side, is recorded as novel, unless a later step concerns it again.
pub proof fn law_novel_nodes<'a>(
    before: Map<u64, ChangeKind>,
    route: Seq<(Edge, Vertex<'a>)>,
    i: int,
    node: &'a Syntax<'a>,
)
    requires
        0 <= i < route.len(),
        ((route[i].0 is NovelAtomLHS || route[i].0 is EnterNovelDelimiterLHS)
            && route[i].1.lhs_syntax == Some(node)) || ((route[i].0 is NovelAtomRHS
            || route[i].0 is EnterNovelDelimiterRHS) && route[i].1.rhs_syntax == Some(node)),
        settled(route, i + 1, node.place().id as u64),
    ensures
        mark_route(before, route).contains_key(node.place().id as u64),
        mark_route(before, route)[node.place().id as u64] == ChangeKind::Novel,
{
    lemma_last_word(before, route, i, node.place().id as u64);
}

/// What no step of a route concerns stays as it was.
pub proof fn law_other_nodes_stay<'a>(
    before: Map<u64, ChangeKind>,
    route: Seq<(Edge, Vertex<'a>)>,
    id: u64,
)
    requires
        settled(route, 0, id),
    ensures
        mark_route(before, route).contains_key(id) == before.contains_key(id),
        before.contains_key(id) ==> mark_route(before, route)[id] == before[id],
{
    lemma_settled(before, route, 0, id);
    assert(route.take(0) =~= Seq::empty());
}

/// What is recorded of a node that some step concerns comes from the last such step:
/// it is unchanged, or a replaced comment, only if that step matches it up in that way
/// with the node whose number is recorded, and novel only if that step passes it as
/// novel on its own side.
pub proof fn law_marks_come_from_steps<'a>(
    before: Map<u64, ChangeKind>,
    route: Seq<(Edge, Vertex<'a>)>,
    i: int,
    id: u64,
)
    requires
        0 <= i < route.len(),
        concerns(route[i].0, route[i].1, id),
        settled(route, i + 1, id),
    ensures
        mark_route(before, route).contains_key(id),
        mark_route(before, route)[id] matches ChangeKind::Unchanged(other) ==> {
            &&& route[i].0 is UnchangedNode || route[i].0 is EnterUnchangedDelimiter
            &&& (has_id(route[i].1.lhs_syntax, id) && has_id(route[i].1.rhs_syntax, other as u64))
                || (has_id(route[i].1.rhs_syntax, id) && has_id(
                route[i].1.lhs_syntax,
                other as u64,
            ))
        },
        mark_route(before, route)[id] matches ChangeKind::ReplacedComment(other) ==> {
            &&& route[i].0 is ReplacedComment
            &&& (has_id(route[i].1.lhs_syntax, id) && has_id(route[i].1.rhs_syntax, other as u64))
                || (has_id(route[i].1.rhs_syntax, id) && has_id(
                route[i].1.lhs_syntax,
                other as u64,
            ))
        },
        mark_route(before, route)[id] is Novel ==> {
            ||| (route[i].0 is NovelAtomLHS || route[i].0 is EnterNovelDelimiterLHS) && has_id(
                route[i].1.lhs_syntax,
                id,
            )
            ||| (route[i].0 is NovelAtomRHS || route[i].0 is EnterNovelDelimiterRHS) && has_id(
                route[i].1.rhs_syntax,
                id,
            )
        },
{
    lemma_last_word(before, route, i, id);
}

/// A route can be recorded in parts: it makes no difference where it is cut.
pub proof fn law_routes_are_recorded_in_parts<'a>(
    before: Map<u64, ChangeKind>,
    first: Seq<(Edge, Vertex<'a>)>,
    second: Seq<(Edge, Vertex<'a>)>,
)
    ensures
        mark_route(before, first + second) == mark_route(mark_route(before, first), second),
    decreases second.len(),
{
    if second.len() == 0 {
        assert(first + second =~= first);
    } else {
        law_routes_are_recorded_in_parts(before, first, second.drop_last());
        assert((first + second).drop_last() =~= first + second.drop_last());
    }
}

impl Default for ChangeMap {
    fn default() -> (map: Self)
        ensures
            map@ == Map::<u64, ChangeKind>::empty(),
    {
        ChangeMap { changes: FxHashMap::default() }
    }
}

impl ChangeMap {
    /// Says what becomes of `node`.
    pub fn insert(&mut self, node: &Syntax, kind: ChangeKind)
        ensures
            final(self)@ == mark_node(old(self)@, Some(node), kind),
            final(self)@ == old(self)@.insert(node.place().id as u64, kind),
    {
        record(&mut self.changes, node.id() as u64, kind);
    }

    /// What becomes of `node`?
    pub fn get(&self, node: &Syntax) -> (kind: Option<ChangeKind>)
        ensures
            kind == if self@.contains_key(node.place().id as u64) {
                Some(self@[node.place().id as u64])
            } else {
                None
            },
    {
        match lookup(&self.changes, node.id() as u64) {
            Some(kind) => Some(*kind),
            None => None,
        }
    }

    /// Records one step of a route.
    pub fn insert_step(&mut self, edge: Edge, v: &Vertex)
        ensures
            final(self)@ == mark_step(old(self)@, edge, *v),
            edge is UnchangedNode || edge is EnterUnchangedDelimiter ==> match (
                v.lhs_syntax,
                v.rhs_syntax,
            ) {
                (Some(lhs), Some(rhs)) => final(self)@ == old(self)@.insert(
                    lhs.place().id as u64,
                    ChangeKind::Unchanged(rhs.place().id),
                ).insert(rhs.place().id as u64, ChangeKind::Unchanged(lhs.place().id)),
                _ => final(self)@ == old(self)@,
            },
            edge is ReplacedComment ==> match (v.lhs_syntax, v.rhs_syntax) {
                (Some(lhs), Some(rhs)) => final(self)@ == old(self)@.insert(
                    lhs.place().id as u64,
                    ChangeKind::ReplacedComment(rhs.place().id),
                ).insert(rhs.place().id as u64, ChangeKind::ReplacedComment(lhs.place().id)),
                _ => final(self)@ == old(self)@,
            },
            edge is NovelAtomLHS || edge is EnterNovelDelimiterLHS ==> match v.lhs_syntax {
                Some(lhs) => final(self)@ == old(self)@.insert(
                    lhs.place().id as u64,
                    ChangeKind::Novel,
                ),
                None => final(self)@ == old(self)@,
            },
            edge is NovelAtomRHS || edge is EnterNovelDelimiterRHS ==> match v.rhs_syntax {
                Some(rhs) => final(self)@ == old(self)@.insert(
                    rhs.place().id as u64,
                    ChangeKind::Novel,
                ),
                None => final(self)@ == old(self)@,
            },
            edge is ExitDelimiterLHS || edge is ExitDelimiterRHS || edge is ExitDelimiterBoth
                ==> final(self)@ == old(self)@,
    {
        match edge {
            Edge::UnchangedNode { .. } | Edge::EnterUnchangedDelimiter { .. } => {
                if let (Some(lhs), Some(rhs)) = (v.lhs_syntax, v.rhs_syntax) {
                    self.insert(lhs, ChangeKind::Unchanged(rhs.id()));
                    self.insert(rhs, ChangeKind::Unchanged(lhs.id()));
                }
            },
            Edge::ReplacedComment { .. } => {
                if let (Some(lhs), Some(rhs)) = (v.lhs_syntax, v.rhs_syntax) {
                    self.insert(lhs, ChangeKind::ReplacedComment(rhs.id()));
                    self.insert(rhs, ChangeKind::ReplacedComment(lhs.id()));
                }
            },
            Edge::NovelAtomLHS { .. } | Edge::EnterNovelDelimiterLHS { .. } => {
                if let Some(lhs) = v.lhs_syntax {
                    self.insert(lhs, ChangeKind::Novel);
                }
            },
            Edge::NovelAtomRHS { .. } | Edge::EnterNovelDelimiterRHS { .. } => {
                if let Some(rhs) = v.rhs_syntax {
                    self.insert(rhs, ChangeKind::Novel);
                }
            },
            Edge::ExitDelimiterLHS | Edge::ExitDelimiterRHS | Edge::ExitDelimiterBoth => {},
        }
    }

    /// Records a route.
    pub fn insert_route(&mut self, route: &[(Edge, Vertex)])
        ensures
            final(self)@ == mark_route(old(self)@, route@),
    {
        let mut i: usize = 0;
        while i < route.len()
            invariant
                i <= route@.len(),
                self@ == mark_route(old(self)@, route@.take(i as int)),
            decreases route@.len() - i,
        {
            assert(route@.take(i + 1).drop_last() =~= route@.take(i as int));
            self.insert_step(route[i].0, &route[i].1);
            i = i + 1;
        }
        assert(route@.take(i as int) =~= route@);
    }
}

} // verus!
