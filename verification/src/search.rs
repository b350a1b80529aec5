//! What holds of every search that keeps a list of vertices to expand and
//! improves distances as it goes, whatever order it expands them in.

use vstd::prelude::*;

use crate::estimate::{estimate, estimate_fits, lemma_estimate_nonnegative};
use crate::graph::{Edge, Graph, Vertex};
use crate::paths::{
    affordable, is_route, lemma_end_in_reach, lemma_shortest_edge, lemma_trail_cost_split,
    lemma_trail_push, lemma_trail_vertex, linked, route_cost, stops_at_end, trail, trail_cost,
    trail_end, trail_to_end, vertex_at, well_estimated,
};
use crate::predecessors::{traced, PredecessorInfo};

verus! {

/// A vertex to expand, with the distance that it is to be expanded at.
pub type Entry<'a> = (u64, &'a Vertex<'a>);

/// The predecessors of the vertices that have been reached, by key.
pub type Reached<'a> = Map<u64, PredecessorInfo<'a, 'a>>;

/// `distance` beats what is known of the vertex with the key `key`.
pub open spec fn improves(reached: Reached, key: u64, distance: int) -> bool {
    !reached.contains_key(key) || distance < reached[key].0
}

/// A search that starts at `start`, whose distance it takes to be `base`.
pub ghost struct Origin<'a> {
    pub start: Vertex<'a>,
    pub base: u64,
}

impl<'a> Origin<'a> {
    /// Whether `v` has been reached.
    pub open spec fn knows(self, reached: Reached<'a>, v: Vertex<'a>) -> bool {
        v == self.start || reached.contains_key(v.key)
    }

    /// The best distance found for `v` so far.
    pub open spec fn best(self, reached: Reached<'a>, v: Vertex<'a>) -> int {
        if v == self.start {
            self.base as int
        } else {
            reached[v.key].0 as int
        }
    }

    /// `distance` is what some trail to `v` costs.
    pub open spec fn attained<G: Graph<'a>>(self, g: &G, v: Vertex<'a>, distance: int) -> bool {
        exists|steps: Seq<(Edge, Vertex<'a>)>|
            {
                &&& #[trigger] trail(g, self.start, steps)
                &&& trail_end(self.start, steps) == v
                &&& self.base + trail_cost(g, steps) == distance
            }
    }

    /// The recorded predecessor of `v` explains its distance.
    pub open spec fn explained<G: Graph<'a>>(
        self,
        g: &G,
        reached: Reached<'a>,
        v: Vertex<'a>,
    ) -> bool {
        let before = *reached[v.key].1;
        &&& g.has_vertex(before)
        &&& !before.end
        &&& self.knows(reached, before)
        &&& self.attained(g, v, reached[v.key].0 as int)
        &&& exists|i: int|
            {
                &&& 0 <= i < g.successors(before).len()
                &&& (#[trigger] g.successors(before)[i]).1 == v
                &&& self.best(reached, before) + g.edge_cost(g.successors(before)[i].0)
                    <= reached[v.key].0
            }
    }

    /// The first `n` edges of `u`, taken at `distance`, lead nowhere at less than
    /// the best distance known.
    pub open spec fn spent<G: Graph<'a>>(
        self,
        g: &G,
        reached: Reached<'a>,
        u: Vertex<'a>,
        distance: int,
        n: int,
    ) -> bool {
        forall|i: int|
            0 <= i < n ==> {
                &&& self.knows(reached, (#[trigger] g.successors(u)[i]).1)
                &&& self.best(reached, g.successors(u)[i].1) <= distance + g.edge_cost(
                    g.successors(u)[i].0,
                )
            }
    }

    /// `v` has been expanded at its best distance.
    pub open spec fn closed<G: Graph<'a>>(self, g: &G, reached: Reached<'a>, v: Vertex<'a>) -> bool {
        &&& !v.end
        &&& self.spent(
            g,
            reached,
            v,
            self.best(reached, v),
            g.successors(v).len() as int,
        )
    }

    /// Some entry is `v` at its best distance.
    pub open spec fn is_best(self, reached: Reached<'a>, v: Vertex<'a>, entry: Entry<'a>) -> bool {
        *entry.1 == v && entry.0 == self.best(reached, v)
    }

    /// What has been recorded of the vertices reached is explained.
    pub open spec fn recorded<G: Graph<'a>>(self, g: &G, reached: Reached<'a>) -> bool {
        &&& reached.dom().finite()
        &&& !reached.contains_key(self.start.key)
        &&& forall|key: u64| #[trigger]
            reached.contains_key(key) ==> exists|v: Vertex<'a>| #[trigger]
                g.has_vertex(v) && v.key == key
        &&& forall|v: Vertex<'a>|
            g.has_vertex(v) && reached.contains_key(v.key) ==> #[trigger] self.explained(
                g,
                reached,
                v,
            )
    }

    /// `v` is to be expanded at its best distance.
    pub open spec fn awaited(self, reached: Reached<'a>, open: Set<Entry<'a>>, v: Vertex<'a>) -> bool {
        exists|entry: Entry<'a>| #[trigger] open.contains(entry) && self.is_best(reached, v, entry)
    }

    /// `v`, if it was reached, has been expanded, or is to be expanded, or is
    /// being expanded.
    pub open spec fn accounted<G: Graph<'a>>(
        self,
        g: &G,
        reached: Reached<'a>,
        open: Set<Entry<'a>>,
        pending: Option<Entry<'a>>,
        v: Vertex<'a>,
    ) -> bool {
        self.knows(reached, v) ==> {
            ||| self.awaited(reached, open, v)
            ||| self.closed(g, reached, v)
            ||| pending is Some && self.is_best(reached, v, pending->0)
        }
    }

    /// The state of a search: what is recorded is explained, the entries to
    /// expand are attained, and every vertex is accounted for, where `pending` is
    /// the entry that is being expanded.
    pub open spec fn sound<G: Graph<'a>>(
        self,
        g: &G,
        reached: Reached<'a>,
        open: Set<Entry<'a>>,
        pending: Option<Entry<'a>>,
    ) -> bool {
        &&& self.recorded(g, reached)
        &&& forall|entry: Entry<'a>|
            open.contains(entry) ==> #[trigger] self.may_expand(g, reached, entry)
        &&& forall|v: Vertex<'a>|
            g.has_vertex(v) ==> #[trigger] self.accounted(g, reached, open, pending, v)
    }

    /// `entry` is a vertex of the graph at a distance at which it can be reached.
    pub open spec fn may_expand<G: Graph<'a>>(
        self,
        g: &G,
        reached: Reached<'a>,
        entry: Entry<'a>,
    ) -> bool {
        &&& g.has_vertex(*entry.1)
        &&& self.knows(reached, *entry.1)
        &&& self.attained(g, *entry.1, entry.0 as int)
        &&& self.best(reached, *entry.1) <= entry.0
    }

    /// The search can be carried out on `g`.
    pub open spec fn fits<G: Graph<'a>>(self, g: &G) -> bool {
        &&& g.has_vertex(self.start)
        &&& affordable(g, self.start, self.base as int)
    }

    /// A search begins with nothing but its start.
    pub proof fn lemma_begin<G: Graph<'a>>(self, g: &G)
        requires
            self.fits(g),
        ensures
            self.sound(g, Map::empty(), set![(self.base, &self.start)], None),
    {
        let steps = Seq::<(Edge, Vertex<'a>)>::empty();
        assert(trail(g, self.start, steps));
        assert(trail_end(self.start, steps) == self.start);
        let open: Set<Entry<'a>> = set![(self.base, &self.start)];
        let reached: Reached<'a> = Map::empty();
        let entry: Entry<'a> = (self.base, &self.start);
        assert(self.attained(g, self.start, self.base as int));
        assert(open.contains(entry) && self.is_best(reached, self.start, entry));
        assert(self.awaited(reached, open, self.start));
    }

    /// The distance of a vertex that can be reached, with the estimate of what is
    /// left, fits in a `u64`.
    pub proof fn lemma_attained_fits<G: Graph<'a>>(self, g: &G, v: Vertex<'a>, distance: u64)
        requires
            self.fits(g),
            g.has_vertex(v),
            self.attained(g, v, distance as int),
        ensures
            estimate_fits(g, v),
            0 <= estimate(g, v),
            distance + estimate(g, v) <= u64::MAX,
    {
        let steps = choose|steps: Seq<(Edge, Vertex<'a>)>|
            {
                &&& #[trigger] trail(g, self.start, steps)
                &&& trail_end(self.start, steps) == v
                &&& self.base + trail_cost(g, steps) == distance
            };
        assert(trail(g, self.start, steps));
        lemma_estimate_nonnegative(g, v);
    }

    /// What a vertex was reached at, with what an edge of it and the estimate
    /// after that add, fits in a `u64`; the edge leads to another vertex than the
    /// start.
    pub proof fn lemma_edge_fits<G: Graph<'a>>(self, g: &G, u: Vertex<'a>, distance: u64, i: int)
        requires
            self.fits(g),
            g.has_vertex(u),
            self.attained(g, u, distance as int),
            0 <= i < g.successors(u).len(),
        ensures
            g.has_vertex(g.successors(u)[i].1),
            g.successors(u)[i].1 != self.start,
            g.successors(u)[i].1 != u,
            estimate_fits(g, g.successors(u)[i].1),
            0 <= estimate(g, g.successors(u)[i].1),
            distance + g.edge_cost(g.successors(u)[i].0) + estimate(g, g.successors(u)[i].1)
                <= u64::MAX,
            distance + g.edge_cost(g.successors(u)[i].0) <= u64::MAX,
            self.attained(
                g,
                g.successors(u)[i].1,
                distance + g.edge_cost(g.successors(u)[i].0),
            ),
    {
        let step = g.successors(u)[i];
        let steps = choose|steps: Seq<(Edge, Vertex<'a>)>|
            {
                &&& #[trigger] trail(g, self.start, steps)
                &&& trail_end(self.start, steps) == u
                &&& self.base + trail_cost(g, steps) == distance
            };
        g.lemma_vertex(u);
        assert(g.has_vertex(g.successors(u)[i].1));
        g.lemma_vertex(step.1);
        assert(g.successors(u).contains(step));
        lemma_trail_push(g, self.start, steps, step);
        lemma_trail_vertex(g, self.start, steps, steps.len() as int);
        lemma_estimate_nonnegative(g, step.1);
        assert(trail(g, self.start, steps.push(step)));
    }

    /// `after` differs from `reached` in that `next` was found at `distance`.
    spec fn improved<G: Graph<'a>>(
        self,
        g: &G,
        reached: Reached<'a>,
        after: Reached<'a>,
        next: Vertex<'a>,
        distance: u64,
    ) -> bool {
        &&& g.has_vertex(next)
        &&& next != self.start
        &&& improves(reached, next.key, distance as int)
        &&& after.contains_key(next.key)
        &&& after[next.key].0 == distance
        &&& after == reached.insert(next.key, after[next.key])
    }

    /// An improvement concerns one vertex alone.
    proof fn lemma_improved<G: Graph<'a>>(
        self,
        g: &G,
        reached: Reached<'a>,
        after: Reached<'a>,
        next: Vertex<'a>,
        distance: u64,
        v: Vertex<'a>,
    )
        requires
            self.improved(g, reached, after, next, distance),
            g.has_vertex(v),
        ensures
            v != next ==> v.key != next.key && self.knows(after, v) == self.knows(reached, v)
                && self.best(after, v) == self.best(reached, v),
            self.knows(after, next),
            self.best(after, next) == distance,
            self.knows(reached, next) ==> distance < self.best(reached, next),
            self.knows(reached, v) ==> self.knows(after, v) && self.best(after, v) <= self.best(
                reached,
                v,
            ),
    {
        if v.key == next.key {
            g.lemma_key(v, next);
        }
    }

    /// An improvement leaves the other predecessors explained.
    proof fn lemma_improved_explained<G: Graph<'a>>(
        self,
        g: &G,
        reached: Reached<'a>,
        after: Reached<'a>,
        next: Vertex<'a>,
        distance: u64,
        v: Vertex<'a>,
    )
        requires
            self.improved(g, reached, after, next, distance),
            g.has_vertex(v),
            v != next,
            self.explained(g, reached, v),
        ensures
            self.explained(g, after, v),
    {
        let before = *reached[v.key].1;
        self.lemma_improved(g, reached, after, next, distance, v);
        self.lemma_improved(g, reached, after, next, distance, before);
        let j = choose|j: int|
            {
                &&& 0 <= j < g.successors(before).len()
                &&& (#[trigger] g.successors(before)[j]).1 == v
                &&& self.best(reached, before) + g.edge_cost(g.successors(before)[j].0)
                    <= reached[v.key].0
            };
        assert(g.successors(before)[j].1 == v);
    }

    /// An improvement leaves edges spent.
    proof fn lemma_improved_spent<G: Graph<'a>>(
        self,
        g: &G,
        reached: Reached<'a>,
        after: Reached<'a>,
        next: Vertex<'a>,
        distance: u64,
        u: Vertex<'a>,
        at: int,
        n: int,
    )
        requires
            self.improved(g, reached, after, next, distance),
            g.has_vertex(u),
            n <= g.successors(u).len(),
            self.spent(g, reached, u, at, n),
        ensures
            self.spent(g, after, u, at, n),
    {
        g.lemma_vertex(u);
        assert forall|i: int| 0 <= i < n implies {
            &&& self.knows(after, (#[trigger] g.successors(u)[i]).1)
            &&& self.best(after, g.successors(u)[i].1) <= at + g.edge_cost(g.successors(u)[i].0)
        } by {
            self.lemma_improved(g, reached, after, next, distance, g.successors(u)[i].1);
        }
    }

    /// An improvement that is put on the list keeps every vertex accounted for.
    proof fn lemma_improved_accounted<G: Graph<'a>>(
        self,
        g: &G,
        reached: Reached<'a>,
        after: Reached<'a>,
        next: Vertex<'a>,
        distance: u64,
        open: Set<Entry<'a>>,
        entry: Entry<'a>,
        v: Vertex<'a>,
    )
        requires
            self.improved(g, reached, after, next, distance),
            g.has_vertex(v),
            self.accounted(g, reached, open, Some(entry), v),
        ensures
            self.accounted(g, after, open.insert((distance, &next)), Some(entry), v),
    {
        let open_after = open.insert((distance, &next));
        self.lemma_improved(g, reached, after, next, distance, v);
        if v == next {
            let e: Entry<'a> = (distance, &next);
            assert(open_after.contains(e) && self.is_best(after, v, e));
            assert(self.awaited(after, open_after, v));
        } else if self.knows(after, v) {
            if self.awaited(reached, open, v) {
                let e = choose|e: Entry<'a>| #[trigger]
                    open.contains(e) && self.is_best(reached, v, e);
                assert(open_after.contains(e) && self.is_best(after, v, e));
                assert(self.awaited(after, open_after, v));
            } else if self.closed(g, reached, v) {
                self.lemma_improved_spent(
                    g,
                    reached,
                    after,
                    next,
                    distance,
                    v,
                    self.best(reached, v),
                    g.successors(v).len() as int,
                );
            }
        }
    }

    /// Looking at one more edge of the vertex that is being expanded.
    pub proof fn lemma_relax<G: Graph<'a>>(
        self,
        g: &G,
        reached: Reached<'a>,
        open: Set<Entry<'a>>,
        entry: Entry<'a>,
        i: int,
    )
        requires
            self.fits(g),
            self.sound(g, reached, open, Some(entry)),
            self.may_expand(g, reached, entry),
            !entry.1.end,
            self.spent(g, reached, *entry.1, entry.0 as int, i),
            0 <= i < g.successors(*entry.1).len(),
        ensures
            ({
                let next = g.successors(*entry.1)[i].1;
                let distance = (entry.0 + g.edge_cost(g.successors(*entry.1)[i].0)) as u64;
                let after = reached.insert(next.key, (distance, entry.1));
                if improves(reached, next.key, distance as int) {
                    &&& self.sound(g, after, open.insert((distance, &next)), Some(entry))
                    &&& self.may_expand(g, after, entry)
                    &&& self.spent(g, after, *entry.1, entry.0 as int, i + 1)
                } else {
                    self.spent(g, reached, *entry.1, entry.0 as int, i + 1)
                }
            }),
    {
        let u = *entry.1;
        let (edge, next) = g.successors(u)[i];
        self.lemma_edge_fits(g, u, entry.0, i);
        let distance = (entry.0 + g.edge_cost(edge)) as u64;
        if improves(reached, next.key, distance as int) {
            let after = reached.insert(next.key, (distance, entry.1));
            let open_after = open.insert((distance, &next));
            assert(self.improved(g, reached, after, next, distance));
            self.lemma_improved(g, reached, after, next, distance, u);
            self.lemma_improved(g, reached, after, next, distance, self.start);
            self.lemma_improved_spent(g, reached, after, next, distance, u, entry.0 as int, i);
            assert(self.spent(g, after, u, entry.0 as int, i + 1));
            assert(g.successors(u)[i].1 == next);
            assert(self.explained(g, after, next));
            assert forall|v: Vertex<'a>|
                g.has_vertex(v) && after.contains_key(v.key) implies #[trigger] self.explained(
                g,
                after,
                v,
            ) by {
                self.lemma_improved(g, reached, after, next, distance, v);
                if v != next {
                    assert(self.explained(g, reached, v));
                    self.lemma_improved_explained(g, reached, after, next, distance, v);
                }
            }
            assert(self.recorded(g, after)) by {
                assert forall|key: u64| #[trigger] after.contains_key(key) implies exists|
                    v: Vertex<'a>,
                | #[trigger] g.has_vertex(v) && v.key == key by {
                    if key == next.key {
                        assert(g.has_vertex(next));
                    } else {
                        assert(reached.contains_key(key));
                    }
                }
            }
            assert forall|e: Entry<'a>|
                open_after.contains(e) implies #[trigger] self.may_expand(g, after, e) by {
                if e != (distance, &next) {
                    assert(self.may_expand(g, reached, e));
                    self.lemma_improved(g, reached, after, next, distance, *e.1);
                }
            }
            assert forall|v: Vertex<'a>|
                g.has_vertex(v) implies #[trigger] self.accounted(
                g,
                after,
                open_after,
                Some(entry),
                v,
            ) by {
                assert(self.accounted(g, reached, open, Some(entry), v));
                self.lemma_improved_accounted(
                    g,
                    reached,
                    after,
                    next,
                    distance,
                    open,
                    entry,
                    v,
                );
            }
        }
    }

    /// The vertex that was being expanded has been expanded.
    pub proof fn lemma_expanded<G: Graph<'a>>(
        self,
        g: &G,
        reached: Reached<'a>,
        open: Set<Entry<'a>>,
        entry: Entry<'a>,
    )
        requires
            self.sound(g, reached, open, Some(entry)),
            !entry.1.end,
            self.spent(
                g,
                reached,
                *entry.1,
                entry.0 as int,
                g.successors(*entry.1).len() as int,
            ),
        ensures
            self.sound(g, reached, open, None),
    {
        assert forall|v: Vertex<'a>| g.has_vertex(v) implies #[trigger] self.accounted(
            g,
            reached,
            open,
            None,
            v,
        ) by {
            assert(self.accounted(g, reached, open, Some(entry), v));
        }
    }

    /// Taking an entry off the list makes it the one that is being expanded.
    pub proof fn lemma_pop<G: Graph<'a>>(
        self,
        g: &G,
        reached: Reached<'a>,
        open: Set<Entry<'a>>,
        open_after: Set<Entry<'a>>,
        entry: Entry<'a>,
    )
        requires
            self.sound(g, reached, open, None),
            open.contains(entry),
            forall|e: Entry<'a>| #[trigger] open_after.contains(e) ==> open.contains(e),
            forall|e: Entry<'a>| #[trigger]
                open.contains(e) ==> e == entry || open_after.contains(e),
        ensures
            self.sound(g, reached, open_after, Some(entry)),
            self.may_expand(g, reached, entry),
    {
        assert(self.may_expand(g, reached, entry));
        assert forall|v: Vertex<'a>| g.has_vertex(v) implies #[trigger] self.accounted(
            g,
            reached,
            open_after,
            Some(entry),
            v,
        ) by {
            assert(self.accounted(g, reached, open, None, v));
            if self.awaited(reached, open, v) {
                let e = choose|e: Entry<'a>| #[trigger]
                    open.contains(e) && self.is_best(reached, v, e);
                assert(e == entry || open_after.contains(e));
            }
        }
    }

    /// As long as no end vertex has been expanded, some vertex of every trail to
    /// an end is still to be expanded, at a distance that the trail explains.
    pub proof fn lemma_frontier<G: Graph<'a>>(
        self,
        g: &G,
        reached: Reached<'a>,
        open: Set<Entry<'a>>,
        steps: Seq<(Edge, Vertex<'a>)>,
        i: int,
    ) -> (found: (int, Entry<'a>))
        requires
            self.fits(g),
            self.sound(g, reached, open, None),
            trail_to_end(g, self.start, steps),
            0 <= i <= steps.len(),
            self.knows(reached, vertex_at(self.start, steps, i)),
            self.best(reached, vertex_at(self.start, steps, i)) <= self.base + trail_cost(
                g,
                steps.take(i),
            ),
        ensures
            i <= found.0 <= steps.len(),
            open.contains(found.1),
            *found.1.1 == vertex_at(self.start, steps, found.0),
            found.1.0 <= self.base + trail_cost(g, steps.take(found.0)),
        decreases steps.len() - i,
    {
        let v = vertex_at(self.start, steps, i);
        lemma_trail_vertex(g, self.start, steps, i);
        assert(self.accounted(g, reached, open, None, v));
        if self.closed(g, reached, v) {
            let step = steps[i];
            assert(g.successors(v).contains(step));
            let j = choose|j: int| 0 <= j < g.successors(v).len() && g.successors(v)[j] == step;
            assert(self.knows(reached, g.successors(v)[j].1));
            assert(steps.take(i + 1).drop_last() =~= steps.take(i));
            self.lemma_frontier(g, reached, open, steps, i + 1)
        } else {
            let e = choose|e: Entry<'a>| #[trigger]
                open.contains(e) && self.is_best(reached, v, e);
            (i, e)
        }
    }

    /// There is always something left to expand.
    pub proof fn lemma_not_exhausted<G: Graph<'a>>(
        self,
        g: &G,
        reached: Reached<'a>,
        open: Set<Entry<'a>>,
    ) -> (entry: Entry<'a>)
        requires
            self.fits(g),
            self.sound(g, reached, open, None),
        ensures
            open.contains(entry),
    {
        let steps = lemma_end_in_reach(g, self.start);
        assert(steps.take(0) =~= Seq::empty());
        self.lemma_frontier(g, reached, open, steps, 0).1
    }

    /// The start has been taken off the list.
    pub open spec fn begun(self, open: Set<Entry<'a>>) -> bool {
        forall|entry: Entry<'a>| #[trigger] open.contains(entry) ==> *entry.1 != self.start
    }

    /// Once the start has been taken off the list, every trail to an end along
    /// which the estimates do not mislead costs at least the estimated total of
    /// some entry to expand.
    pub proof fn lemma_bound<G: Graph<'a>>(
        self,
        g: &G,
        reached: Reached<'a>,
        open: Set<Entry<'a>>,
        steps: Seq<(Edge, Vertex<'a>)>,
    ) -> (entry: Entry<'a>)
        requires
            self.fits(g),
            self.sound(g, reached, open, None),
            self.begun(open),
            trail_to_end(g, self.start, steps),
            well_estimated(g, self.start, steps),
        ensures
            open.contains(entry),
            entry.0 + estimate(g, *entry.1) <= self.base + trail_cost(g, steps),
    {
        assert(steps.take(0) =~= Seq::empty());
        let (i, entry) = self.lemma_frontier(g, reached, open, steps, 0);
        lemma_trail_cost_split(g, steps, i);
        assert(estimate(g, vertex_at(self.start, steps, i)) <= trail_cost(g, steps.skip(i)));
        entry
    }

    /// The part of the predecessors that following them back from `v` needs.
    spec fn covers<G: Graph<'a>>(
        self,
        g: &G,
        reached: Reached<'a>,
        part: Reached<'a>,
        v: Vertex<'a>,
    ) -> bool {
        &&& part.dom().finite()
        &&& forall|key: u64| #[trigger]
            part.contains_key(key) ==> reached.contains_key(key) && part[key] == reached[key]
        &&& forall|w: Vertex<'a>| #[trigger]
            g.has_vertex(w) && reached.contains_key(w.key) && g.remaining(w) >= g.remaining(v)
                ==> part.contains_key(w.key)
    }

    /// Following the predecessors back from a vertex leads to the start, by a
    /// route that costs no more than the distance of the vertex.
    proof fn lemma_traced_part<G: Graph<'a>>(
        self,
        g: &G,
        reached: Reached<'a>,
        open: Set<Entry<'a>>,
        part: Reached<'a>,
        v: Vertex<'a>,
    )
        requires
            self.fits(g),
            self.sound(g, reached, open, None),
            self.covers(g, reached, part, v),
            g.has_vertex(v),
            self.knows(reached, v),
        ensures
            is_route(g, traced(part, v)),
            traced(part, v)[0] == self.start,
            traced(part, v).last() == v,
            stops_at_end(traced(part, v)),
            self.base + route_cost(g, traced(part, v)) <= self.best(reached, v),
        decreases part.dom().len(),
    {
        if v == self.start {
            assert(!part.contains_key(v.key));
        } else {
            assert(self.explained(g, reached, v));
            assert(part.contains_key(v.key));
            let before = *reached[v.key].1;
            let rest = part.remove(v.key);
            g.lemma_vertex(before);
            let i = choose|i: int|
                {
                    &&& 0 <= i < g.successors(before).len()
                    &&& (#[trigger] g.successors(before)[i]).1 == v
                    &&& self.best(reached, before) + g.edge_cost(g.successors(before)[i].0)
                        <= reached[v.key].0
                };
            assert(g.remaining(g.successors(before)[i].1) < g.remaining(before));
            assert forall|w: Vertex<'a>| #[trigger]
                g.has_vertex(w) && reached.contains_key(w.key) && g.remaining(w) >= g.remaining(
                    before,
                ) implies rest.contains_key(w.key) by {
                assert(part.contains_key(w.key));
                if w.key == v.key {
                    g.lemma_key(w, v);
                }
            }
            self.lemma_traced_part(g, reached, open, rest, before);
            let head = traced(rest, before);
            let route = traced(part, v);
            assert(route == head.push(v));
            assert(linked(g, before, v));
            lemma_shortest_edge(g, before, v);
            assert(route.drop_last() =~= head);
            assert(route[route.len() - 2] == before);
            assert forall|k: int, j: int|
                0 <= k && k + 1 == j && j < route.len() implies linked(
                g,
                #[trigger] route[k],
                #[trigger] route[j],
            ) by {
                if j < head.len() {
                    assert(linked(g, head[k], head[j]));
                }
            }
            assert forall|k: int| 0 <= k < route.len() - 1 implies !(#[trigger] route[k]).end by {
                if k < head.len() - 1 {
                    assert(route[k] == head[k]);
                }
            }
        }
    }

    /// Following the predecessors back from a vertex leads to the start, by a
    /// route that costs no more than the distance of the vertex.
    pub proof fn lemma_traced<G: Graph<'a>>(
        self,
        g: &G,
        reached: Reached<'a>,
        open: Set<Entry<'a>>,
        v: Vertex<'a>,
    )
        requires
            self.fits(g),
            self.sound(g, reached, open, None),
            g.has_vertex(v),
            self.knows(reached, v),
        ensures
            is_route(g, traced(reached, v)),
            traced(reached, v)[0] == self.start,
            traced(reached, v).last() == v,
            stops_at_end(traced(reached, v)),
            self.base + route_cost(g, traced(reached, v)) <= self.best(reached, v),
    {
        self.lemma_traced_part(g, reached, open, reached, v);
    }
}

/// How much a key can still be improved.
spec fn slack_at(reached: Reached, key: u64) -> nat {
    if reached.contains_key(key) {
        reached[key].0 as nat
    } else {
        u64::MAX as nat + 1
    }
}

/// How much the keys below `n` can still be improved.
spec fn slack_below(reached: Reached, n: nat) -> nat
    decreases n,
{
    if n == 0 {
        0
    } else {
        slack_below(reached, (n - 1) as nat) + slack_at(reached, (n - 1) as u64)
    }
}

/// How much all keys can still be improved.
pub closed spec fn slack(reached: Reached) -> nat {
    slack_below(reached, u64::MAX as nat + 1)
}

/// Improving a key uses up slack below any number that exceeds the key.
proof fn lemma_slack_below<'a>(
    reached: Reached<'a>,
    key: u64,
    info: PredecessorInfo<'a, 'a>,
    n: nat,
)
    requires
        improves(reached, key, info.0 as int),
        n <= u64::MAX + 1,
    ensures
        key >= n ==> slack_below(reached.insert(key, info), n) == slack_below(reached, n),
        key < n ==> slack_below(reached.insert(key, info), n) < slack_below(reached, n),
    decreases n,
{
    if n > 0 {
        lemma_slack_below(reached, key, info, (n - 1) as nat);
        let last = (n - 1) as u64;
        assert(last != key ==> slack_at(reached.insert(key, info), last) == slack_at(reached, last));
        assert(last == key ==> slack_at(reached.insert(key, info), last) < slack_at(reached, last));
    }
}

/// Every improvement uses up slack.
pub proof fn lemma_slack<'a>(reached: Reached<'a>, key: u64, info: PredecessorInfo<'a, 'a>)
    requires
        improves(reached, key, info.0 as int),
    ensures
        slack(reached.insert(key, info)) < slack(reached),
{
    lemma_slack_below(reached, key, info, u64::MAX as nat + 1);
}

} // verus!
