//! How far the end really is from each row of a listing, and whether the estimates
//! stay below that.

use vstd::prelude::*;

use crate::estimate::{estimate, estimated_distance_remaining};
use crate::graph::{Edge, Graph, Vertex};
use crate::laws::law_admissible_by_vertex;
use crate::listing::{lemma_estimate_within_limit, lemma_price, Listing, Row, LIMIT};
use crate::paths::{
    admissible, admissible_at, lemma_trail_cost_split, lemma_trail_join, lemma_trail_part,
    lemma_trail_push, lemma_trail_vertex, trail, trail_cost, trail_end, trail_to_end, vertex_at,
    well_estimated,
};

verus! {

/// The cheapest way from `v` to an end vertex costs `distance`.
pub open spec fn is_distance<'a, G: Graph<'a>>(g: &G, v: Vertex<'a>, distance: int) -> bool {
    &&& exists|steps: Seq<(Edge, Vertex<'a>)>| #[trigger]
        trail_to_end(g, v, steps) && trail_cost(g, steps) == distance
    &&& forall|steps: Seq<(Edge, Vertex<'a>)>| #[trigger]
        trail_to_end(g, v, steps) ==> distance <= trail_cost(g, steps)
}

/// One edge or more lead from `start` to `v`.
pub open spec fn is_ahead<'a, G: Graph<'a>>(g: &G, start: Vertex<'a>, v: Vertex<'a>) -> bool {
    exists|steps: Seq<(Edge, Vertex<'a>)>| #[trigger]
        trail(g, start, steps) && steps.len() > 0 && trail_end(start, steps) == v
}

/// A distance is what some way to an end vertex costs, and no way costs less.
pub proof fn law_distance_is_least<'a, G: Graph<'a>>(
    g: &G,
    v: Vertex<'a>,
    distance: int,
    steps: Seq<(Edge, Vertex<'a>)>,
)
    requires
        is_distance(g, v, distance),
        trail(g, v, steps),
        trail_end(v, steps).end,
    ensures
        distance <= trail_cost(g, steps),
        exists|way: Seq<(Edge, Vertex<'a>)>|
            {
                &&& #[trigger] trail(g, v, way)
                &&& trail_end(v, way).end
                &&& trail_cost(g, way) == distance
            },
{
    assert(trail_to_end(g, v, steps));
    let way = choose|way: Seq<(Edge, Vertex<'a>)>| #[trigger]
        trail_to_end(g, v, way) && trail_cost(g, way) == distance;
    assert(trail(g, v, way));
}

/// The estimate at a vertex is admissible exactly if it does not exceed the distance.
proof fn lemma_admissible_at_distance<'a, G: Graph<'a>>(g: &G, v: Vertex<'a>, distance: int)
    requires
        is_distance(g, v, distance),
    ensures
        admissible_at(g, v) <==> estimate(g, v) <= distance,
{
}

/// What it means that no way misleads.
proof fn lemma_admissible_means<'a, G: Graph<'a>>(g: &G, start: Vertex<'a>)
    ensures
        admissible(g, start) == forall|steps: Seq<(Edge, Vertex<'a>)>, i: int|
            #![trigger trail(g, start, steps), vertex_at(start, steps, i)]
            trail(g, start, steps) && trail_end(start, steps).end && 0 < i <= steps.len()
                ==> estimate(g, vertex_at(start, steps, i)) <= trail_cost(g, steps.skip(i)),
{
    if admissible(g, start) {
        assert forall|steps: Seq<(Edge, Vertex<'a>)>, i: int|
            #![trigger trail(g, start, steps), vertex_at(start, steps, i)]
            trail(g, start, steps) && trail_end(start, steps).end && 0 < i
                <= steps.len() implies estimate(g, vertex_at(start, steps, i)) <= trail_cost(
            g,
            steps.skip(i),
        ) by {
            assert(trail_to_end(g, start, steps));
            assert(well_estimated(g, start, steps));
        }
    } else {
        let steps = choose|steps: Seq<(Edge, Vertex<'a>)>| #[trigger]
            trail_to_end(g, start, steps) && !well_estimated(g, start, steps);
        let i = choose|i: int|
            0 < i <= steps.len() && estimate(g, #[trigger] vertex_at(start, steps, i))
                > trail_cost(g, steps.skip(i));
        assert(trail(g, start, steps));
        assert(vertex_at(start, steps, i) == vertex_at(start, steps, i));
    }
}

/// An estimate that is too high ahead of `start` misleads along some way.
proof fn lemma_misled<'a, G: Graph<'a>>(g: &G, start: Vertex<'a>, v: Vertex<'a>)
    requires
        is_ahead(g, start, v),
        !admissible_at(g, v),
    ensures
        !admissible(g, start),
{
    law_admissible_by_vertex(g, start);
    let steps = choose|steps: Seq<(Edge, Vertex<'a>)>| #[trigger]
        trail(g, start, steps) && steps.len() > 0 && trail_end(start, steps) == v;
    assert(trail(g, start, steps));
}

/// An end vertex is at distance zero.
proof fn lemma_distance_of_end<'a, G: Graph<'a>>(g: &G, v: Vertex<'a>)
    requires
        v.end,
    ensures
        is_distance(g, v, 0),
{
    let steps = Seq::<(Edge, Vertex<'a>)>::empty();
    assert(trail_to_end(g, v, steps) && trail_cost(g, steps) == 0);
}

/// The distance of another vertex is the least that an edge and the distance after
/// it add up to.
proof fn lemma_distance_of_next<'a, G: Graph<'a>>(
    g: &G,
    v: Vertex<'a>,
    distances: Seq<int>,
    best: int,
)
    requires
        !v.end,
        distances.len() == g.successors(v).len(),
        0 <= best < distances.len(),
        forall|i: int|
            0 <= i < distances.len() ==> is_distance(
                g,
                (#[trigger] g.successors(v)[i]).1,
                distances[i],
            ),
        forall|i: int|
            0 <= i < distances.len() ==> g.edge_cost(g.successors(v)[best].0) + distances[best]
                <= g.edge_cost((#[trigger] g.successors(v)[i]).0) + distances[i],
    ensures
        is_distance(g, v, g.edge_cost(g.successors(v)[best].0) + distances[best]),
{
    let step = g.successors(v)[best];
    let distance = g.edge_cost(step.0) + distances[best];
    assert(is_distance(g, step.1, distances[best]));
    let rest = choose|rest: Seq<(Edge, Vertex<'a>)>| #[trigger]
        trail_to_end(g, step.1, rest) && trail_cost(g, rest) == distances[best];
    let nothing = Seq::<(Edge, Vertex<'a>)>::empty();
    assert(trail(g, v, nothing) && trail_end(v, nothing) == v);
    assert(g.successors(v).contains(step));
    lemma_trail_push(g, v, nothing, step);
    lemma_trail_join(g, v, nothing.push(step), rest);
    assert(trail_to_end(g, v, nothing.push(step) + rest));
    assert forall|steps: Seq<(Edge, Vertex<'a>)>| #[trigger] trail_to_end(g, v, steps) implies distance
        <= trail_cost(g, steps) by {
        assert(steps.len() > 0);
        assert(g.successors(vertex_at(v, steps, 0)).contains(steps[0]));
        let i = choose|i: int| 0 <= i < g.successors(v).len() && g.successors(v)[i] == steps[0];
        assert(is_distance(g, g.successors(v)[i].1, distances[i]));
        lemma_trail_part(g, v, steps, 1);
        lemma_trail_cost_split(g, steps, 1);
        assert(vertex_at(v, steps, 1) == steps[0].1);
        assert(trail_to_end(g, steps[0].1, steps.skip(1)));
        assert(steps.take(1) =~= nothing.push(steps[0]));
        assert(steps.take(1).drop_last() =~= nothing);
    }
}

impl<'a> Listing<'a> {
    /// The distance of a row, from those of the rows below it.
    fn distance_of(&self, i: usize, below: &Vec<u64>) -> (distance: u64)
        requires
            self.wf(),
            i < self.rows@.len(),
            below@.len() == self.rows@.len(),
            forall|j: int|
                i < j < below@.len() ==> {
                    &&& is_distance(self, self.rows@[j].vertex, #[trigger] below@[j] as int)
                    &&& below@[j] <= (self.rows@.len() - j) * LIMIT
                },
        ensures
            is_distance(self, self.rows@[i as int].vertex, distance as int),
            distance <= (self.rows@.len() - i) * LIMIT,
    {
        let row: &Row<'a> = &self.rows[i];
        let ghost v = row.vertex;
        let ghost len = self.rows@.len() as int;
        assert(row.wf(i as int, len));
        if row.vertex.is_end() {
            proof {
                lemma_distance_of_end(self, v);
            }
            assert(0 <= (len - i) * LIMIT) by (nonlinear_arith)
                requires
                    i < len,
            ;
            return 0;
        }
        let ghost distances = Seq::new(
            row.edges@.len(),
            |k: int| below@[row.edges@[k].1 as int] as int,
        );
        let ghost mut best: int = 0;
        let mut least: u64 = u64::MAX;
        let mut k: usize = 0;
        while k < row.edges.len()
            invariant
                self.wf(),
                len == self.rows@.len(),
                i < len,
                *row == self.rows@[i as int],
                v == row.vertex,
                row.wf(i as int, len),
                below@.len() == len,
                distances == Seq::new(
                    row.edges@.len(),
                    |k: int| below@[row.edges@[k].1 as int] as int,
                ),
                forall|j: int| i < j < len ==> (#[trigger] below@[j]) <= (len - j) * LIMIT,
                k <= row.edges@.len(),
                k == 0 ==> least == u64::MAX,
                k > 0 ==> {
                    &&& 0 <= best < k
                    &&& least == self.edge_cost(self.successors(v)[best].0) + distances[best]
                    &&& least <= (len - i) * LIMIT
                },
                forall|j: int|
                    0 <= j < k ==> least <= self.edge_cost((#[trigger] self.successors(v)[j]).0)
                        + distances[j],
            decreases row.edges@.len() - k,
        {
            let (edge, target) = row.edges[k];
            assert(i < row.edges@[k as int].1 < len);
            proof {
                lemma_price(self.prices@, self.other_price, edge);
                assert(below@[target as int] <= (len - target) * LIMIT);
                assert((len - target) * LIMIT + LIMIT <= (len - i) * LIMIT && (len - i) * LIMIT
                    <= LIMIT * LIMIT) by (nonlinear_arith)
                    requires
                        i < target < len <= LIMIT,
                ;
            }
            let distance: u64 = self.cost(edge) + below[target];
            assert(self.successors(v)[k as int].0 == edge);
            assert(distances[k as int] == below@[target as int]);
            if distance <= least {
                least = distance;
                proof {
                    best = k as int;
                }
            }
            k = k + 1;
        }
        proof {
            assert forall|j: int| 0 <= j < distances.len() implies is_distance(
                self,
                (#[trigger] self.successors(v)[j]).1,
                distances[j],
            ) by {
                let target = row.edges@[j].1 as int;
                assert(i < row.edges@[j].1 < len);
                assert(is_distance(self, self.rows@[target].vertex, below@[target] as int));
            }
            lemma_distance_of_next(self, v, distances, best);
        }
        least
    }

    /// What the cheapest way to an end vertex costs, for each row.
    pub fn distances(&self) -> (distances: Vec<u64>)
        requires
            self.wf(),
        ensures
            distances@.len() == self.rows@.len(),
            forall|i: int|
                0 <= i < distances@.len() ==> is_distance(
                    self,
                    self.rows@[i].vertex,
                    #[trigger] distances@[i] as int,
                ),
            forall|i: int, steps: Seq<(Edge, Vertex<'a>)>|
                #![trigger distances@[i], trail(self, self.rows@[i].vertex, steps)]
                0 <= i < distances@.len() && trail(self, self.rows@[i].vertex, steps) && trail_end(
                    self.rows@[i].vertex,
                    steps,
                ).end ==> distances@[i] <= trail_cost(self, steps),
    {
        let len: usize = self.rows.len();
        let mut distances: Vec<u64> = vec![0; len];
        let mut i: usize = len;
        while i > 0
            invariant
                self.wf(),
                len == self.rows@.len(),
                i <= len,
                distances@.len() == len,
                forall|j: int|
                    i <= j < len ==> {
                        &&& is_distance(self, self.rows@[j].vertex, #[trigger] distances@[j] as int)
                        &&& distances@[j] <= (len - j) * LIMIT
                    },
            decreases i,
        {
            i = i - 1;
            let distance: u64 = self.distance_of(i, &distances);
            distances[i] = distance;
        }
        proof {
            assert forall|i: int, steps: Seq<(Edge, Vertex<'a>)>|
                #![trigger distances@[i], trail(self, self.rows@[i].vertex, steps)]
                0 <= i < distances@.len() && trail(self, self.rows@[i].vertex, steps) && trail_end(
                    self.rows@[i].vertex,
                    steps,
                ).end implies distances@[i] <= trail_cost(self, steps) by {
                assert(is_distance(self, self.rows@[i].vertex, distances@[i] as int));
                assert(trail_to_end(self, self.rows@[i].vertex, steps));
            }
        }
        distances
    }

    /// Which rows one edge or more lead to from `start`?
    pub fn rows_ahead(&self, start: &Vertex<'a>) -> (ahead: Vec<bool>)
        requires
            self.has_vertex(*start),
        ensures
            ahead@.len() == self.rows@.len(),
            forall|i: int|
                0 <= i < ahead@.len() ==> #[trigger] ahead@[i] == is_ahead(
                    self,
                    *start,
                    self.rows@[i].vertex,
                ),
            forall|i: int|
                0 <= i < ahead@.len() ==> #[trigger] ahead@[i] == exists|
                    steps: Seq<(Edge, Vertex<'a>)>,
                | #[trigger]
                    trail(self, *start, steps) && steps.len() > 0 && trail_end(*start, steps)
                        == self.rows@[i].vertex,
    {
        let len: usize = self.rows.len();
        let first: usize = start.key as usize;
        let mut ahead: Vec<bool> = vec![false; len];
        let mut i: usize = first;
        while i < len
            invariant
                self.has_vertex(*start),
                len == self.rows@.len(),
                first == start.key,
                first <= i <= len,
                self.marks(*start, ahead@, i as int),
            decreases len - i,
        {
            if i == first || ahead[i] {
                self.mark_targets(start, i, &mut ahead);
            }
            i = i + 1;
        }
        proof {
            assert forall|i: int| 0 <= i < ahead@.len() implies #[trigger] ahead@[i] == is_ahead(
                self,
                *start,
                self.rows@[i].vertex,
            ) by {
                if is_ahead(self, *start, self.rows@[i].vertex) {
                    let steps = choose|steps: Seq<(Edge, Vertex<'a>)>| #[trigger]
                        trail(self, *start, steps) && steps.len() > 0 && trail_end(*start, steps)
                            == self.rows@[i].vertex;
                    assert(self.rows@[i].wf(i, len as int));
                    self.lemma_marked(*start, ahead@, steps, steps.len() as int);
                }
            }
        }
        ahead
    }

    /// The targets of the rows before `n` that lie ahead of `start`, and of `start`
    /// itself, are marked, and only what lies ahead is.
    spec fn marks(&self, start: Vertex<'a>, ahead: Seq<bool>, n: int) -> bool {
        &&& ahead.len() == self.rows@.len()
        &&& forall|i: int|
            0 <= i < ahead.len() && #[trigger] ahead[i] ==> is_ahead(
                self,
                start,
                self.rows@[i].vertex,
            )
        &&& forall|i: int, k: int|
            0 <= i < n && (i == start.key || ahead[i]) && 0 <= k < self.rows@[i].edges@.len()
                ==> ahead[(#[trigger] self.rows@[i].edges@[k]).1 as int]
    }

    /// Marks the rows that the edges of a row lead to.
    fn mark_targets(&self, start: &Vertex<'a>, i: usize, ahead: &mut Vec<bool>)
        requires
            self.has_vertex(*start),
            i < self.rows@.len(),
            self.marks(*start, old(ahead)@, i as int),
            i == start.key || old(ahead)@[i as int],
        ensures
            self.marks(*start, final(ahead)@, i + 1),
    {
        let row: &Row<'a> = &self.rows[i];
        let ghost len = self.rows@.len() as int;
        assert(row.wf(i as int, len));
        let mut k: usize = 0;
        while k < row.edges.len()
            invariant
                self.has_vertex(*start),
                i < len,
                len == self.rows@.len(),
                *row == self.rows@[i as int],
                row.wf(i as int, len),
                k <= row.edges@.len(),
                self.marks(*start, ahead@, i as int),
                i == start.key || ahead@[i as int],
                forall|j: int| 0 <= j < k ==> ahead@[(#[trigger] row.edges@[j]).1 as int],
            decreases row.edges@.len() - k,
        {
            let target: usize = row.edges[k].1;
            assert(i < row.edges@[k as int].1 < len);
            let ghost before = ahead@;
            proof {
                self.lemma_target_ahead(*start, i as int, k as int);
            }
            ahead[target] = true;
            assert forall|j: int, l: int|
                0 <= j < i && (j == start.key || ahead@[j]) && 0 <= l
                    < self.rows@[j].edges@.len() implies ahead@[(
            #[trigger] self.rows@[j].edges@[l]).1 as int] by {
                assert(before[self.rows@[j].edges@[l].1 as int]);
                assert(self.rows@[j].wf(j, len));
            }
            k = k + 1;
        }
    }

    /// What an edge of the start, or of a row that lies ahead of it, leads to lies
    /// ahead.
    proof fn lemma_target_ahead(&self, start: Vertex<'a>, i: int, k: int)
        requires
            self.has_vertex(start),
            0 <= i < self.rows@.len(),
            i == start.key || is_ahead(self, start, self.rows@[i].vertex),
            0 <= k < self.rows@[i].edges@.len(),
        ensures
            is_ahead(self, start, self.rows@[self.rows@[i].edges@[k].1 as int].vertex),
    {
        let v = self.rows@[i].vertex;
        assert(self.rows@[i].wf(i, self.rows@.len() as int));
        let nothing = Seq::<(Edge, Vertex<'a>)>::empty();
        assert(trail(self, start, nothing) && trail_end(start, nothing) == start);
        let steps = if i == start.key {
            nothing
        } else {
            choose|steps: Seq<(Edge, Vertex<'a>)>| #[trigger]
                trail(self, start, steps) && steps.len() > 0 && trail_end(start, steps) == v
        };
        let step = self.successors(v)[k];
        assert(self.successors(v).contains(step));
        lemma_trail_push(self, start, steps, step);
        assert(trail(self, start, steps.push(step)) && steps.push(step).len() > 0);
    }

    /// Every vertex of a trail but the first is marked.
    proof fn lemma_marked(
        &self,
        start: Vertex<'a>,
        ahead: Seq<bool>,
        steps: Seq<(Edge, Vertex<'a>)>,
        n: int,
    )
        requires
            self.has_vertex(start),
            self.marks(start, ahead, self.rows@.len() as int),
            trail(self, start, steps),
            0 < n <= steps.len(),
        ensures
            ahead[vertex_at(start, steps, n).key as int],
        decreases n,
    {
        let before = vertex_at(start, steps, n - 1);
        lemma_trail_vertex(self, start, steps, n - 1);
        if n > 1 {
            self.lemma_marked(start, ahead, steps, n - 1);
        }
        assert(self.successors(before).contains(steps[n - 1]));
        let k = choose|k: int|
            0 <= k < self.successors(before).len() && self.successors(before)[k] == steps[n - 1];
        let i = before.key as int;
        let target = self.rows@[i].edges@[k].1 as int;
        assert(ahead[self.rows@[i].edges@[k].1 as int]);
        assert(self.rows@[i].wf(i, self.rows@.len() as int));
        assert(i < self.rows@[i].edges@[k].1 < self.rows@.len());
        assert(self.rows@[target].wf(target, self.rows@.len() as int));
    }

    /// Do the estimates mislead along no way from `start` to an end vertex? If so, a
    /// best-first search finds a shortest route from there.
    pub fn check_admissible(&self, start: &Vertex<'a>) -> (ok: bool)
        requires
            self.has_vertex(*start),
        ensures
            ok == admissible(self, *start),
            ok == forall|steps: Seq<(Edge, Vertex<'a>)>, i: int|
                #![trigger trail(self, *start, steps), vertex_at(*start, steps, i)]
                trail(self, *start, steps) && trail_end(*start, steps).end && 0 < i <= steps.len()
                    ==> estimate(self, vertex_at(*start, steps, i)) <= trail_cost(
                    self,
                    steps.skip(i),
                ),
    {
        let distances: Vec<u64> = self.distances();
        let ahead: Vec<bool> = self.rows_ahead(start);
        let mut i: usize = 0;
        while i < self.rows.len()
            invariant
                self.has_vertex(*start),
                i <= self.rows@.len(),
                distances@.len() == self.rows@.len(),
                ahead@.len() == self.rows@.len(),
                forall|j: int|
                    0 <= j < distances@.len() ==> is_distance(
                        self,
                        self.rows@[j].vertex,
                        #[trigger] distances@[j] as int,
                    ),
                forall|j: int|
                    0 <= j < ahead@.len() ==> #[trigger] ahead@[j] == is_ahead(
                        self,
                        *start,
                        self.rows@[j].vertex,
                    ),
                forall|j: int|
                    0 <= j < i && #[trigger] ahead@[j] ==> admissible_at(
                        self,
                        self.rows@[j].vertex,
                    ),
            decreases self.rows@.len() - i,
        {
            if ahead[i] {
                let vertex: &Vertex<'a> = &self.rows[i].vertex;
                proof {
                    assert(self.rows@[i as int].wf(i as int, self.rows@.len() as int));
                    lemma_estimate_within_limit(self, *vertex);
                    assert(is_distance(self, *vertex, distances@[i as int] as int));
                    lemma_admissible_at_distance(self, *vertex, distances@[i as int] as int);
                }
                if estimated_distance_remaining(self, vertex) > distances[i] {
                    proof {
                        lemma_misled(self, *start, *vertex);
                        lemma_admissible_means(self, *start);
                    }
                    return false;
                }
            }
            i = i + 1;
        }
        proof {
            lemma_admissible_means(self, *start);
            law_admissible_by_vertex(self, *start);
            assert forall|steps: Seq<(Edge, Vertex<'a>)>| #[trigger]
                trail(self, *start, steps) && steps.len() > 0 implies admissible_at(
                self,
                trail_end(*start, steps),
            ) by {
                lemma_trail_vertex(self, *start, steps, steps.len() as int);
                let v = trail_end(*start, steps);
                assert(is_ahead(self, *start, v));
                assert(ahead@[v.key as int]);
            }
        }
        true
    }
}

} // verus!
