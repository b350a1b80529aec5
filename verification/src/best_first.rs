//! Best-first search: the vertex to expand next is one whose estimated total is
//! least.

use bumpalo::Bump;
use rustc_hash::FxHashMap;
use vstd::prelude::*;
use vstd::set_lib::{lemma_int_range, lemma_len_subset, lemma_set_subset_finite, set_int_range};

use crate::arena::store;
use crate::estimate::{estimate, estimated_distance_remaining, lemma_estimate_nonnegative};
use crate::graph::{Edge, Graph, Vertex, MAX_NEIGHBOURS};
use crate::heap::{
    lemma_popped, lemma_popped_contains, lemma_pushed, lemma_pushed_contains, lemma_pushed_first,
    lemma_top_least, ordered, popped, pushed, MinHeap, OrdByFirst,
};
use crate::paths::{
    admissible, affordable, is_shortest, is_unbeaten, lemma_trail_push, lemma_trail_vertex,
    route_cost, route_to_end, stops_at_end, trail, trail_cost, trail_end, trail_to_end, vertex_at,
    well_estimated,
};
use crate::predecessors::{
    count, lookup, record, reservable, trace_back, traced, with_room, PredecessorInfo,
};
use crate::search::{improves, lemma_slack, slack, Entry, Origin, Reached};

verus! {

/// The search reached more vertices than it was allowed to.
#[derive(Debug)]
pub struct ExceededGraphLimit {}

/// An entry, ordered by its estimated total.
pub open spec fn priced<'a, G: Graph<'a>>(g: &G, entry: Entry<'a>) -> OrdByFirst<Entry<'a>> {
    OrdByFirst((entry.0 + estimate(g, *entry.1)) as u64, entry)
}

/// The state of a best-first search.
pub ghost struct BestFirst<'a> {
    /// The predecessors of the vertices that have been reached.
    pub reached: Reached<'a>,
    /// What is to be expanded, as a heap.
    pub heap: Seq<OrdByFirst<Entry<'a>>>,
}

impl<'a> BestFirst<'a> {
    /// The search begins with the start alone, at distance zero.
    pub open spec fn initial<G: Graph<'a>>(g: &G, start: Vertex<'a>) -> Self {
        BestFirst { reached: Map::empty(), heap: seq![priced(g, (0, &start))] }
    }

    /// The state after the first `n` edges of the vertex of `entry` have been
    /// looked at: each vertex that one of them reaches at a better distance is
    /// recorded, and added to the heap.
    pub open spec fn considered<G: Graph<'a>>(self, g: &G, entry: Entry<'a>, n: nat) -> Self
        decreases n,
    {
        if n == 0 {
            self
        } else {
            let before = self.considered(g, entry, (n - 1) as nat);
            let (edge, next) = g.successors(*entry.1)[n - 1];
            let distance = (entry.0 + g.edge_cost(edge)) as u64;
            if improves(before.reached, next.key, distance as int) {
                BestFirst {
                    reached: before.reached.insert(next.key, (distance, entry.1)),
                    heap: pushed(before.heap, priced(g, (distance, &next))),
                }
            } else {
                before
            }
        }
    }

    /// The entry on top of the heap is an end vertex.
    pub open spec fn found(self) -> bool {
        self.heap.len() > 0 && self.heap[0].1.1.end
    }

    /// One step of the search, until it has found an end vertex: take the entry on
    /// top out of the heap, and expand its vertex.
    pub open spec fn step<G: Graph<'a>>(self, g: &G) -> Self {
        if self.heap.len() == 0 || self.found() {
            self
        } else {
            let entry = self.heap[0].1;
            BestFirst { heap: popped(self.heap), ..self }.considered(
                g,
                entry,
                g.successors(*entry.1).len(),
            )
        }
    }

    /// The state after `n` steps from `start`.
    pub open spec fn after<G: Graph<'a>>(g: &G, start: Vertex<'a>, n: nat) -> Self
        decreases n,
    {
        if n == 0 {
            BestFirst::initial(g, start)
        } else {
            BestFirst::after(g, start, (n - 1) as nat).step(g)
        }
    }

    /// The state in which a search from `start` has found an end vertex.
    pub open spec fn last<G: Graph<'a>>(g: &G, start: Vertex<'a>) -> Self {
        BestFirst::after(g, start, choose|n: nat| (#[trigger] BestFirst::after(g, start, n)).found())
    }

    /// All entries that are still to be expanded.
    pub open spec fn open<G: Graph<'a>>(self, g: &G) -> Set<Entry<'a>> {
        Set::new(|entry: Entry<'a>| self.heap.contains(priced(g, entry)))
    }

    /// The heap is in order, and every entry is ordered by its estimated total.
    spec fn fairly_priced<G: Graph<'a>>(self, g: &G) -> bool {
        &&& ordered(self.heap)
        &&& forall|item: OrdByFirst<Entry<'a>>| #[trigger]
            self.heap.contains(item) ==> item == priced(g, item.1)
    }

    /// The start is taken out of the heap in the first step, and does not come back.
    spec fn underway<G: Graph<'a>>(self, g: &G, origin: Origin<'a>) -> bool {
        self == BestFirst::initial(g, origin.start) || origin.begun(self.open(g))
    }

    /// What every state of the search satisfies.
    spec fn inv<G: Graph<'a>>(self, g: &G, origin: Origin<'a>) -> bool {
        &&& origin.sound(g, self.reached, self.open(g), None)
        &&& self.fairly_priced(g)
        &&& !origin.start.end ==> self.underway(g, origin)
    }
}

/// The route that a best-first search from `start` finds, unless a limit stops it.
pub open spec fn best_first_route<'a, G: Graph<'a>>(g: &G, start: Vertex<'a>) -> Seq<Vertex<'a>> {
    let state = BestFirst::last(g, start);
    traced(state.reached, *state.heap[0].1.1)
}

/// How many vertices a best-first search from `start` reaches until it finds an end
/// vertex.
pub open spec fn best_first_reach<'a, G: Graph<'a>>(g: &G, start: Vertex<'a>) -> nat {
    BestFirst::last(g, start).reached.len()
}

/// What comes of a best-first search from `start` that may reach no more than
/// `graph_limit` vertices.
pub open spec fn best_first_outcome<'a, G: Graph<'a>>(
    g: &G,
    start: Vertex<'a>,
    graph_limit: usize,
) -> Option<Seq<Vertex<'a>>> {
    if best_first_reach(g, start) <= graph_limit {
        Some(best_first_route(g, start))
    } else {
        None
    }
}

/// Adding an entry to the heap adds it to the open ones.
proof fn lemma_insert<'a, G: Graph<'a>>(g: &G, state: BestFirst<'a>, entry: Entry<'a>)
    requires
        state.fairly_priced(g),
    ensures
        ({
            let after = BestFirst { heap: pushed(state.heap, priced(g, entry)), ..state };
            &&& after.open(g) =~= state.open(g).insert(entry)
            &&& after.fairly_priced(g)
        }),
{
    let after = BestFirst { heap: pushed(state.heap, priced(g, entry)), ..state };
    lemma_pushed(state.heap, priced(g, entry));
    lemma_pushed_contains(state.heap, priced(g, entry));
    assert forall|e: Entry<'a>| #[trigger] after.open(g).contains(e) <==> state.open(g).insert(
        entry,
    ).contains(e) by {
        assert(priced(g, e) == priced(g, entry) ==> e == entry);
    }
    assert forall|item: OrdByFirst<Entry<'a>>| #[trigger] after.heap.contains(item) implies item
        == priced(g, item.1) by {
        assert(item == priced(g, entry) || state.heap.contains(item));
    }
}

/// Looking at the edges of a vertex keeps the state sound, and either changes
/// nothing or uses up slack. What has been reached stays reached.
proof fn lemma_considered<'a, G: Graph<'a>>(
    g: &G,
    origin: Origin<'a>,
    state: BestFirst<'a>,
    entry: Entry<'a>,
    n: nat,
)
    requires
        origin.fits(g),
        origin.sound(g, state.reached, state.open(g), Some(entry)),
        origin.may_expand(g, state.reached, entry),
        !entry.1.end,
        state.fairly_priced(g),
        n <= g.successors(*entry.1).len(),
    ensures
        ({
            let after = state.considered(g, entry, n);
            &&& origin.sound(g, after.reached, after.open(g), Some(entry))
            &&& origin.may_expand(g, after.reached, entry)
            &&& origin.spent(g, after.reached, *entry.1, entry.0 as int, n as int)
            &&& after.fairly_priced(g)
            &&& origin.begun(state.open(g)) ==> origin.begun(after.open(g))
            &&& after == state || slack(after.reached) < slack(state.reached)
            &&& state.reached.len() <= after.reached.len()
        }),
    decreases n,
{
    if n > 0 {
        lemma_considered(g, origin, state, entry, (n - 1) as nat);
        let before = state.considered(g, entry, (n - 1) as nat);
        let (edge, next) = g.successors(*entry.1)[n - 1];
        let distance = (entry.0 + g.edge_cost(edge)) as u64;
        origin.lemma_edge_fits(g, *entry.1, entry.0, n - 1);
        origin.lemma_relax(g, before.reached, before.open(g), entry, n - 1);
        if improves(before.reached, next.key, distance as int) {
            let info: PredecessorInfo<'a, 'a> = (distance, entry.1);
            let recorded = BestFirst { reached: before.reached.insert(next.key, info), ..before };
            lemma_slack(before.reached, next.key, info);
            assert(recorded.open(g) =~= before.open(g));
            lemma_insert(g, recorded, (distance, &next));
        }
    }
}

/// Taking the entry on top out of the heap.
proof fn lemma_rest<'a, G: Graph<'a>>(g: &G, origin: Origin<'a>, state: BestFirst<'a>)
    requires
        state.inv(g, origin),
        state.heap.len() > 0,
    ensures
        ({
            let rest = BestFirst { heap: popped(state.heap), ..state };
            let entry = state.heap[0].1;
            &&& origin.sound(g, rest.reached, rest.open(g), Some(entry))
            &&& origin.may_expand(g, rest.reached, entry)
            &&& rest.fairly_priced(g)
            &&& !origin.start.end ==> origin.begun(rest.open(g))
            &&& rest.heap.len() + 1 == state.heap.len()
        }),
{
    let rest = BestFirst { heap: popped(state.heap), ..state };
    let item = state.heap[0];
    lemma_popped(state.heap);
    lemma_popped_contains(state.heap);
    assert(state.heap.contains(item));
    assert(item == priced(g, item.1));
    assert forall|e: Entry<'a>| #[trigger] state.open(g).contains(e) implies e == item.1
        || rest.open(g).contains(e) by {
        if e != item.1 {
            assert(priced(g, e) != item);
        }
    }
    assert forall|e: Entry<'a>| #[trigger] rest.open(g).contains(e) implies state.open(g).contains(
        e,
    ) by {}
    assert forall|other: OrdByFirst<Entry<'a>>| #[trigger] rest.heap.contains(other) implies other
        == priced(g, other.1) by {
        assert(state.heap.contains(other));
    }
    origin.lemma_pop(g, state.reached, state.open(g), rest.open(g), item.1);
    if !origin.start.end {
        if state == BestFirst::initial(g, origin.start) {
            assert(rest.heap.len() == 0);
        }
        assert forall|e: Entry<'a>| #[trigger] rest.open(g).contains(e) implies *e.1
            != origin.start by {
            assert(state.open(g).contains(e));
        }
    }
}

/// Every step keeps the invariant, and brings the search closer to finding an end
/// vertex. What has been reached stays reached.
proof fn lemma_step<'a, G: Graph<'a>>(g: &G, origin: Origin<'a>, state: BestFirst<'a>)
    requires
        origin.fits(g),
        state.inv(g, origin),
    ensures
        state.step(g).inv(g, origin),
        state.heap.len() > 0,
        state.reached.len() <= state.step(g).reached.len(),
        !state.found() ==> slack(state.step(g).reached) < slack(state.reached) || {
            &&& state.step(g).reached == state.reached
            &&& state.step(g).heap.len() < state.heap.len()
        },
{
    let open = origin.lemma_not_exhausted(g, state.reached, state.open(g));
    assert(state.heap.contains(priced(g, open)));
    if !state.found() {
        let rest = BestFirst { heap: popped(state.heap), ..state };
        let entry = state.heap[0].1;
        let n = g.successors(*entry.1).len();
        lemma_rest(g, origin, state);
        lemma_considered(g, origin, rest, entry, n);
        let after = rest.considered(g, entry, n);
        origin.lemma_expanded(g, after.reached, after.open(g), entry);
    }
}

/// The search begins with the invariant.
proof fn lemma_initial<'a, G: Graph<'a>>(g: &G, origin: Origin<'a>)
    requires
        origin.fits(g),
        origin.base == 0,
    ensures
        BestFirst::initial(g, origin.start).inv(g, origin),
        pushed(seq![], priced(g, (0, &origin.start))) == BestFirst::initial(g, origin.start).heap,
{
    let state = BestFirst::initial(g, origin.start);
    let entry: Entry<'a> = (0, &origin.start);
    origin.lemma_begin(g);
    let nothing: BestFirst<'a> = BestFirst { reached: Map::empty(), heap: Seq::empty() };
    lemma_pushed_first(priced(g, entry));
    lemma_insert(g, nothing, entry);
    assert(nothing.open(g) =~= Set::empty());
    assert(state.open(g) =~= set![entry]);
}

/// Every state of a search satisfies the invariant.
proof fn lemma_after<'a, G: Graph<'a>>(g: &G, origin: Origin<'a>, n: nat)
    requires
        origin.fits(g),
        origin.base == 0,
    ensures
        BestFirst::after(g, origin.start, n).inv(g, origin),
    decreases n,
{
    if n == 0 {
        lemma_initial(g, origin);
    } else {
        lemma_after(g, origin, (n - 1) as nat);
        lemma_step(g, origin, BestFirst::after(g, origin.start, (n - 1) as nat));
    }
}

/// From any of its states a search goes on to find an end vertex.
proof fn lemma_finds<'a, G: Graph<'a>>(g: &G, origin: Origin<'a>, n: nat) -> (m: nat)
    requires
        origin.fits(g),
        origin.base == 0,
    ensures
        BestFirst::after(g, origin.start, m).found(),
    decreases
        slack(BestFirst::after(g, origin.start, n).reached),
        BestFirst::after(g, origin.start, n).heap.len(),
{
    let state = BestFirst::after(g, origin.start, n);
    if state.found() {
        n
    } else {
        lemma_after(g, origin, n);
        lemma_step(g, origin, state);
        assert(BestFirst::after(g, origin.start, n + 1) == state.step(g));
        lemma_finds(g, origin, n + 1)
    }
}

/// Once an end vertex has been found, nothing changes any more.
proof fn lemma_found_stays<'a, G: Graph<'a>>(g: &G, start: Vertex<'a>, n: nat, m: nat)
    requires
        BestFirst::after(g, start, n).found(),
        n <= m,
    ensures
        BestFirst::after(g, start, m) == BestFirst::after(g, start, n),
    decreases m,
{
    if n < m {
        lemma_found_stays(g, start, n, (m - 1) as nat);
    }
}

/// Whichever step is taken for the last, the state is the same.
pub proof fn lemma_last<'a, G: Graph<'a>>(g: &G, start: Vertex<'a>, n: nat)
    requires
        BestFirst::after(g, start, n).found(),
    ensures
        BestFirst::last(g, start) == BestFirst::after(g, start, n),
{
    let m = choose|m: nat| (#[trigger] BestFirst::after(g, start, m)).found();
    if n <= m {
        lemma_found_stays(g, start, n, m);
    } else {
        lemma_found_stays(g, start, m, n);
    }
}

/// A search reaches no fewer vertices later than earlier.
proof fn lemma_reach_grows<'a, G: Graph<'a>>(g: &G, origin: Origin<'a>, n: nat, m: nat)
    requires
        origin.fits(g),
        origin.base == 0,
        n <= m,
    ensures
        BestFirst::after(g, origin.start, n).reached.len() <= BestFirst::after(
            g,
            origin.start,
            m,
        ).reached.len(),
    decreases m,
{
    if n < m {
        lemma_reach_grows(g, origin, n, (m - 1) as nat);
        lemma_after(g, origin, (m - 1) as nat);
        lemma_step(g, origin, BestFirst::after(g, origin.start, (m - 1) as nat));
    }
}

/// No state of a search has reached more vertices than the last.
proof fn lemma_reach<'a, G: Graph<'a>>(g: &G, origin: Origin<'a>, n: nat)
    requires
        origin.fits(g),
        origin.base == 0,
    ensures
        BestFirst::after(g, origin.start, n).reached.len() <= best_first_reach(g, origin.start),
{
    let m = lemma_finds(g, origin, 0);
    lemma_last(g, origin.start, m);
    if n <= m {
        lemma_reach_grows(g, origin, n, m);
    } else {
        lemma_found_stays(g, origin.start, m, n);
    }
}

/// The route to an end vertex on top of the heap is cheaper than any other, unless
/// the estimates mislead.
proof fn lemma_found<'a, G: Graph<'a>>(g: &G, origin: Origin<'a>, state: BestFirst<'a>)
    requires
        origin.fits(g),
        state.inv(g, origin),
        state.found(),
    ensures
        route_to_end(g, origin.start, traced(state.reached, *state.heap[0].1.1)),
        stops_at_end(traced(state.reached, *state.heap[0].1.1)),
        is_unbeaten(g, origin.start, traced(state.reached, *state.heap[0].1.1)),
{
    let item = state.heap[0];
    let entry = item.1;
    assert(state.heap.contains(item));
    assert(item == priced(g, entry));
    assert(state.open(g).contains(entry));
    assert(origin.may_expand(g, state.reached, entry));
    origin.lemma_traced(g, state.reached, state.open(g), *entry.1);
    origin.lemma_attained_fits(g, *entry.1, entry.0);
    let route = traced(state.reached, *entry.1);
    assert forall|steps: Seq<(Edge, Vertex<'a>)>| #[trigger]
        trail_to_end(g, origin.start, steps) && well_estimated(
            g,
            origin.start,
            steps,
        ) implies route_cost(g, route) <= trail_cost(g, steps) by {
        if origin.start.end {
            assert(route.len() == 1);
        } else {
            let other = origin.lemma_bound(g, state.reached, state.open(g), steps);
            assert(origin.may_expand(g, state.reached, other));
            origin.lemma_attained_fits(g, *other.1, other.0);
            let i = choose|i: int| 0 <= i < state.heap.len() && state.heap[i] == priced(g, other);
            lemma_top_least(state.heap, i);
        }
    }
}

/// The keys of the vertices that can be reached from `start` by one edge or more.
pub open spec fn keys_in_reach<'a, G: Graph<'a>>(g: &G, start: Vertex<'a>) -> Set<u64> {
    Set::new(
        |key: u64|
            exists|steps: Seq<(Edge, Vertex<'a>)>|
                {
                    &&& #[trigger] trail(g, start, steps)
                    &&& steps.len() > 0
                    &&& trail_end(start, steps).key == key
                },
    )
}

/// There are only so many keys.
proof fn lemma_keys_finite(keys: Set<u64>)
    ensures
        keys.finite(),
{
    let all = set_int_range(0, u64::MAX + 1).map(|i: int| i as u64);
    lemma_int_range(0, u64::MAX + 1);
    set_int_range(0, u64::MAX + 1).lemma_map_finite(|i: int| i as u64);
    assert forall|key: u64| keys.contains(key) implies all.contains(key) by {
        assert(set_int_range(0, u64::MAX + 1).contains(key as int));
    }
    lemma_set_subset_finite(all, keys);
}

/// What has been recorded can be reached.
proof fn lemma_reached<'a, G: Graph<'a>>(g: &G, origin: Origin<'a>, state: BestFirst<'a>)
    requires
        origin.fits(g),
        state.inv(g, origin),
    ensures
        state.reached.len() <= keys_in_reach(g, origin.start).len(),
{
    let keys = keys_in_reach(g, origin.start);
    lemma_keys_finite(keys);
    assert forall|key: u64| state.reached.dom().contains(key) implies keys.contains(key) by {
        assert(state.reached.contains_key(key));
        let v = choose|v: Vertex<'a>| #[trigger] g.has_vertex(v) && v.key == key;
        assert(origin.explained(g, state.reached, v));
        let distance = state.reached[key].0 as int;
        let steps = choose|steps: Seq<(Edge, Vertex<'a>)>|
            {
                &&& #[trigger] trail(g, origin.start, steps)
                &&& trail_end(origin.start, steps) == v
                &&& origin.base + trail_cost(g, steps) == distance
            };
        assert(trail(g, origin.start, steps));
        assert(steps.len() > 0);
    }
    lemma_len_subset(state.reached.dom(), keys);
}

/// Following predecessors back takes no more steps than there are predecessors.
proof fn lemma_traced_len<'a>(reached: Reached<'a>, v: Vertex<'a>)
    requires
        reached.dom().finite(),
    ensures
        traced(reached, v).len() <= reached.len() + 1,
    decreases reached.dom().len(),
{
    if reached.contains_key(v.key) {
        lemma_traced_len(reached.remove(v.key), *reached[v.key].1);
    }
}

/// A best-first search always comes to an end vertex, the first on its route. No way
/// to an end along which the estimates do not mislead is cheaper; if they never do,
/// the route is a shortest one.
pub proof fn law_best_first_search_finds<'a, G: Graph<'a>>(g: &G, start: Vertex<'a>)
    requires
        g.has_vertex(start),
        affordable(g, start, 0),
    ensures
        exists|n: nat| (#[trigger] BestFirst::after(g, start, n)).found(),
        route_to_end(g, start, best_first_route(g, start)),
        stops_at_end(best_first_route(g, start)),
        best_first_route(g, start).len() <= best_first_reach(g, start) + 1,
        is_unbeaten(g, start, best_first_route(g, start)),
        admissible(g, start) ==> is_shortest(g, start, best_first_route(g, start)),
{
    let origin = Origin { start, base: 0 };
    let m = lemma_finds(g, origin, 0);
    let state = BestFirst::after(g, start, m);
    lemma_last(g, start, m);
    lemma_after(g, origin, m);
    lemma_found(g, origin, state);
    lemma_traced_len(state.reached, *state.heap[0].1.1);
}

/// A search reaches no more vertices than can be reached. A limit of that many never
/// stops it.
pub proof fn law_limit_suffices<'a, G: Graph<'a>>(g: &G, start: Vertex<'a>, graph_limit: usize)
    requires
        g.has_vertex(start),
        affordable(g, start, 0),
    ensures
        best_first_reach(g, start) <= keys_in_reach(g, start).len(),
        keys_in_reach(g, start).len() <= graph_limit ==> best_first_outcome(g, start, graph_limit)
            is Some,
{
    let origin = Origin { start, base: 0 };
    let m = lemma_finds(g, origin, 0);
    lemma_last(g, start, m);
    lemma_after(g, origin, m);
    lemma_reached(g, origin, BestFirst::after(g, start, m));
}

/// The keys of the vertices that a trail from `start` leads to, along which the
/// estimated total at every vertex before the last is less than `bound`.
pub open spec fn keys_below<'a, G: Graph<'a>>(g: &G, start: Vertex<'a>, bound: int) -> Set<u64> {
    Set::new(
        |key: u64|
            exists|steps: Seq<(Edge, Vertex<'a>)>|
                {
                    &&& #[trigger] trail(g, start, steps)
                    &&& steps.len() > 0
                    &&& trail_end(start, steps).key == key
                    &&& forall|i: int|
                        0 <= i < steps.len() ==> trail_cost(g, steps.take(i)) + estimate(
                            g,
                            #[trigger] vertex_at(start, steps, i),
                        ) < bound
                },
    )
}

/// No vertex of `steps` before the last is an end vertex, nor has it a greater
/// estimated total than every vertex of `way`.
pub open spec fn no_dearer<'a, G: Graph<'a>>(
    g: &G,
    start: Vertex<'a>,
    steps: Seq<(Edge, Vertex<'a>)>,
    way: Seq<(Edge, Vertex<'a>)>,
) -> bool {
    forall|i: int|
        0 <= i < steps.len() ==> {
            &&& !(#[trigger] vertex_at(start, steps, i)).end
            &&& exists|j: int|
                0 <= j <= way.len() && trail_cost(g, steps.take(i)) + estimate(
                    g,
                    vertex_at(start, steps, i),
                ) <= trail_cost(g, way.take(j)) + estimate(g, #[trigger] vertex_at(start, way, j))
        }
}

/// The keys of the vertices that a trail from `start` leads to, none of whose vertices
/// before the last is an end vertex, or dearer than all of `way`.
pub open spec fn keys_no_dearer<'a, G: Graph<'a>>(
    g: &G,
    start: Vertex<'a>,
    way: Seq<(Edge, Vertex<'a>)>,
) -> Set<u64> {
    Set::new(
        |key: u64|
            exists|steps: Seq<(Edge, Vertex<'a>)>|
                {
                    &&& #[trigger] trail(g, start, steps)
                    &&& steps.len() > 0
                    &&& trail_end(start, steps).key == key
                    &&& no_dearer(g, start, steps, way)
                },
    )
}

/// A trail that stays below the top of the heap has been followed.
proof fn lemma_followed<'a, G: Graph<'a>>(
    g: &G,
    origin: Origin<'a>,
    state: BestFirst<'a>,
    steps: Seq<(Edge, Vertex<'a>)>,
    i: int,
)
    requires
        origin.fits(g),
        origin.base == 0,
        state.inv(g, origin),
        state.heap.len() > 0,
        trail(g, origin.start, steps),
        0 <= i <= steps.len(),
        forall|k: int|
            0 <= k < i ==> trail_cost(g, steps.take(k)) + estimate(
                g,
                #[trigger] vertex_at(origin.start, steps, k),
            ) < state.heap[0].0,
    ensures
        origin.knows(state.reached, vertex_at(origin.start, steps, i)),
        origin.best(state.reached, vertex_at(origin.start, steps, i)) <= trail_cost(
            g,
            steps.take(i),
        ),
    decreases i,
{
    if i == 0 {
        assert(steps.take(0) =~= Seq::empty());
    } else {
        lemma_followed(g, origin, state, steps, i - 1);
        let v = vertex_at(origin.start, steps, i - 1);
        lemma_trail_vertex(g, origin.start, steps, i - 1);
        assert(origin.accounted(g, state.reached, state.open(g), None, v));
        if origin.awaited(state.reached, state.open(g), v) {
            let e = choose|e: Entry<'a>| #[trigger]
                state.open(g).contains(e) && origin.is_best(state.reached, v, e);
            assert(origin.may_expand(g, state.reached, e));
            origin.lemma_attained_fits(g, *e.1, e.0);
            assert(state.heap.contains(priced(g, e)));
            let k = choose|k: int| 0 <= k < state.heap.len() && state.heap[k] == priced(g, e);
            lemma_top_least(state.heap, k);
            assert(false);
        }
        assert(origin.closed(g, state.reached, v));
        assert(g.successors(v).contains(steps[i - 1]));
        let j = choose|j: int|
            0 <= j < g.successors(v).len() && g.successors(v)[j] == steps[i - 1];
        assert(origin.knows(state.reached, g.successors(v)[j].1));
        assert(steps.take(i).drop_last() =~= steps.take(i - 1));
    }
}

/// Whatever is below the top of the heap has been recorded.
proof fn lemma_recorded_below<'a, G: Graph<'a>>(
    g: &G,
    origin: Origin<'a>,
    state: BestFirst<'a>,
    bound: int,
)
    requires
        origin.fits(g),
        origin.base == 0,
        state.inv(g, origin),
        state.heap.len() > 0,
        bound <= state.heap[0].0,
    ensures
        keys_below(g, origin.start, bound).len() <= state.reached.len(),
{
    let keys = keys_below(g, origin.start, bound);
    lemma_keys_finite(keys);
    assert forall|key: u64| keys.contains(key) implies state.reached.dom().contains(key) by {
        let steps = choose|steps: Seq<(Edge, Vertex<'a>)>|
            {
                &&& #[trigger] trail(g, origin.start, steps)
                &&& steps.len() > 0
                &&& trail_end(origin.start, steps).key == key
                &&& forall|i: int|
                    0 <= i < steps.len() ==> trail_cost(g, steps.take(i)) + estimate(
                        g,
                        #[trigger] vertex_at(origin.start, steps, i),
                    ) < bound
            };
        lemma_followed(g, origin, state, steps, steps.len() as int);
        lemma_trail_vertex(g, origin.start, steps, steps.len() as int);
    }
    lemma_len_subset(keys, state.reached.dom());
}

/// `entry` is where a trail leads that is no dearer than `way`.
spec fn led_to<'a, G: Graph<'a>>(
    g: &G,
    start: Vertex<'a>,
    way: Seq<(Edge, Vertex<'a>)>,
    entry: Entry<'a>,
) -> bool {
    exists|steps: Seq<(Edge, Vertex<'a>)>|
        {
            &&& #[trigger] trail(g, start, steps)
            &&& trail_end(start, steps) == *entry.1
            &&& trail_cost(g, steps) == entry.0
            &&& no_dearer(g, start, steps, way)
        }
}

/// All that is in the heap, and all that has been recorded, is where trails lead that
/// are no dearer than `way`.
spec fn all_led_to<'a, G: Graph<'a>>(
    g: &G,
    start: Vertex<'a>,
    way: Seq<(Edge, Vertex<'a>)>,
    state: BestFirst<'a>,
) -> bool {
    &&& forall|item: OrdByFirst<Entry<'a>>| #[trigger]
        state.heap.contains(item) ==> led_to(g, start, way, item.1)
    &&& forall|key: u64| #[trigger]
        state.reached.contains_key(key) ==> keys_no_dearer(g, start, way).contains(key)
}

/// An edge of an entry that is no dearer than `way` leads to one that is reached by
/// such a trail.
proof fn lemma_led_on<'a, G: Graph<'a>>(
    g: &G,
    origin: Origin<'a>,
    way: Seq<(Edge, Vertex<'a>)>,
    entry: Entry<'a>,
    i: int,
    j: int,
)
    requires
        origin.fits(g),
        origin.base == 0,
        g.has_vertex(*entry.1),
        led_to(g, origin.start, way, entry),
        !entry.1.end,
        0 <= i < g.successors(*entry.1).len(),
        0 <= j <= way.len(),
        entry.0 + estimate(g, *entry.1) <= trail_cost(g, way.take(j)) + estimate(
            g,
            vertex_at(origin.start, way, j),
        ),
    ensures
        ({
            let (edge, next) = g.successors(*entry.1)[i];
            &&& led_to(
                g,
                origin.start,
                way,
                ((entry.0 + g.edge_cost(edge)) as u64, &next),
            )
            &&& keys_no_dearer(g, origin.start, way).contains(next.key)
        }),
{
    let step = g.successors(*entry.1)[i];
    let steps = choose|steps: Seq<(Edge, Vertex<'a>)>|
        {
            &&& #[trigger] trail(g, origin.start, steps)
            &&& trail_end(origin.start, steps) == *entry.1
            &&& trail_cost(g, steps) == entry.0
            &&& no_dearer(g, origin.start, steps, way)
        };
    let longer = steps.push(step);
    assert(g.successors(*entry.1).contains(step));
    lemma_trail_push(g, origin.start, steps, step);
    assert(origin.attained(g, *entry.1, entry.0 as int));
    origin.lemma_edge_fits(g, *entry.1, entry.0, i);
    assert forall|k: int| 0 <= k < longer.len() implies {
        &&& !(#[trigger] vertex_at(origin.start, longer, k)).end
        &&& exists|j: int|
            0 <= j <= way.len() && trail_cost(g, longer.take(k)) + estimate(
                g,
                vertex_at(origin.start, longer, k),
            ) <= trail_cost(g, way.take(j)) + estimate(
                g,
                #[trigger] vertex_at(origin.start, way, j),
            )
    } by {
        assert(longer.take(k) =~= steps.take(k));
        assert(vertex_at(origin.start, longer, k) == vertex_at(origin.start, steps, k));
        if k == steps.len() {
            assert(steps.take(k) =~= steps);
            assert(vertex_at(origin.start, way, j) == vertex_at(origin.start, way, j));
        }
    }
    assert(no_dearer(g, origin.start, longer, way));
    assert(trail(g, origin.start, longer));
}

/// Looking at the edges of such an entry leads to nothing else.
proof fn lemma_considered_led<'a, G: Graph<'a>>(
    g: &G,
    origin: Origin<'a>,
    way: Seq<(Edge, Vertex<'a>)>,
    state: BestFirst<'a>,
    entry: Entry<'a>,
    j: int,
    n: nat,
)
    requires
        origin.fits(g),
        origin.base == 0,
        origin.sound(g, state.reached, state.open(g), Some(entry)),
        origin.may_expand(g, state.reached, entry),
        state.fairly_priced(g),
        all_led_to(g, origin.start, way, state),
        led_to(g, origin.start, way, entry),
        !entry.1.end,
        n <= g.successors(*entry.1).len(),
        0 <= j <= way.len(),
        entry.0 + estimate(g, *entry.1) <= trail_cost(g, way.take(j)) + estimate(
            g,
            vertex_at(origin.start, way, j),
        ),
    ensures
        all_led_to(g, origin.start, way, state.considered(g, entry, n)),
    decreases n,
{
    if n > 0 {
        lemma_considered_led(g, origin, way, state, entry, j, (n - 1) as nat);
        lemma_considered(g, origin, state, entry, (n - 1) as nat);
        let before = state.considered(g, entry, (n - 1) as nat);
        let after = state.considered(g, entry, n);
        let (edge, next) = g.successors(*entry.1)[n - 1];
        let distance = (entry.0 + g.edge_cost(edge)) as u64;
        lemma_led_on(g, origin, way, entry, n - 1, j);
        if improves(before.reached, next.key, distance as int) {
            let item = priced(g, (distance, &next));
            lemma_pushed_contains(before.heap, item);
            assert forall|x: OrdByFirst<Entry<'a>>| #[trigger]
                after.heap.contains(x) implies led_to(g, origin.start, way, x.1) by {
                assert(x == item || before.heap.contains(x));
            }
            assert forall|key: u64| #[trigger] after.reached.contains_key(key) implies
                keys_no_dearer(g, origin.start, way).contains(key) by {
                assert(key == next.key || before.reached.contains_key(key));
            }
        }
    }
}

/// A search never looks beyond what is no dearer than a way to an end.
proof fn lemma_all_led<'a, G: Graph<'a>>(
    g: &G,
    origin: Origin<'a>,
    way: Seq<(Edge, Vertex<'a>)>,
    n: nat,
)
    requires
        origin.fits(g),
        origin.base == 0,
        trail_to_end(g, origin.start, way),
    ensures
        all_led_to(g, origin.start, way, BestFirst::after(g, origin.start, n)),
    decreases n,
{
    if n == 0 {
        let nothing = Seq::<(Edge, Vertex<'a>)>::empty();
        let state = BestFirst::initial(g, origin.start);
        assert(trail(g, origin.start, nothing) && trail_end(origin.start, nothing) == origin.start);
        assert(no_dearer(g, origin.start, nothing, way));
        assert(led_to(g, origin.start, way, (0, &origin.start)));
        assert forall|x: OrdByFirst<Entry<'a>>| #[trigger] state.heap.contains(x) implies led_to(
            g,
            origin.start,
            way,
            x.1,
        ) by {
            assert(x == priced(g, (0, &origin.start)));
        }
    } else {
        let state = BestFirst::after(g, origin.start, (n - 1) as nat);
        lemma_all_led(g, origin, way, (n - 1) as nat);
        lemma_after(g, origin, (n - 1) as nat);
        lemma_step(g, origin, state);
        if !state.found() {
            let rest = BestFirst { heap: popped(state.heap), ..state };
            let entry = state.heap[0].1;
            lemma_rest(g, origin, state);
            lemma_popped_contains(state.heap);
            assert(state.heap.contains(state.heap[0]));
            assert(state.heap[0] == priced(g, entry));
            origin.lemma_attained_fits(g, *entry.1, entry.0);
            assert(way.take(0) =~= Seq::empty());
            let (j, other) = origin.lemma_frontier(g, state.reached, state.open(g), way, 0);
            assert(origin.may_expand(g, state.reached, other));
            origin.lemma_attained_fits(g, *other.1, other.0);
            assert(state.heap.contains(priced(g, other)));
            let k = choose|k: int| 0 <= k < state.heap.len() && state.heap[k] == priced(g, other);
            lemma_top_least(state.heap, k);
            assert(all_led_to(g, origin.start, way, rest)) by {
                assert forall|x: OrdByFirst<Entry<'a>>| #[trigger]
                    rest.heap.contains(x) implies led_to(g, origin.start, way, x.1) by {
                    assert(state.heap.contains(x));
                }
            }
            lemma_considered_led(
                g,
                origin,
                way,
                rest,
                entry,
                j,
                g.successors(*entry.1).len(),
            );
        }
    }
}

/// What is recorded changes for the better: a predecessor gives way only to one that
/// the first `n` edges of `entry` reach at a strictly lesser distance.
proof fn lemma_better<'a, G: Graph<'a>>(
    g: &G,
    state: BestFirst<'a>,
    entry: Entry<'a>,
    n: nat,
    key: u64,
)
    requires
        n <= g.successors(*entry.1).len(),
        forall|i: int|
            0 <= i < g.successors(*entry.1).len() ==> entry.0 + g.edge_cost(
                (#[trigger] g.successors(*entry.1)[i]).0,
            ) <= u64::MAX,
    ensures
        ({
            let after = state.considered(g, entry, n).reached;
            let edges = g.successors(*entry.1);
            &&& state.reached.contains_key(key) ==> after.contains_key(key)
            &&& after.contains_key(key) ==> {
                ||| state.reached.contains_key(key) && after[key] == state.reached[key]
                ||| {
                    &&& state.reached.contains_key(key) ==> after[key].0 < state.reached[key].0
                    &&& exists|i: int|
                        {
                            &&& 0 <= i < n
                            &&& (#[trigger] edges[i]).1.key == key
                            &&& after[key].0 == entry.0 + g.edge_cost(edges[i].0)
                            &&& *after[key].1 == *entry.1
                            &&& forall|j: int|
                                0 <= j < i && (#[trigger] edges[j]).1.key == key ==> after[key].0
                                    < entry.0 + g.edge_cost(edges[j].0)
                        }
                }
            }
            &&& forall|i: int|
                0 <= i < n && (#[trigger] edges[i]).1.key == key ==> after.contains_key(key)
                    && after[key].0 <= entry.0 + g.edge_cost(edges[i].0)
        }),
    decreases n,
{
    if n > 0 {
        lemma_better(g, state, entry, (n - 1) as nat, key);
        let edges = g.successors(*entry.1);
        let before = state.considered(g, entry, (n - 1) as nat);
        let after = state.considered(g, entry, n);
        let (edge, next) = edges[n - 1];
        let distance = (entry.0 + g.edge_cost(edge)) as u64;
        if improves(before.reached, next.key, distance as int) {
            assert(after.reached == before.reached.insert(next.key, (distance, entry.1)));
            if next.key == key {
                assert(edges[n - 1].1.key == key);
            }
        } else {
            assert(after == before);
        }
    }
}

/// Expanding a vertex changes what is recorded of another only for the better. A
/// predecessor gives way to the vertex only if that is strictly nearer, by the first of
/// its cheapest edges; on equal terms the one that was there stays. Afterwards no edge
/// of the vertex is shorter than what is recorded.
pub proof fn law_best_first_predecessors_improve<'a, G: Graph<'a>>(g: &G, state: BestFirst<'a>, key: u64)
    requires
        state.heap.len() > 0,
        !state.heap[0].1.1.end,
        forall|i: int|
            0 <= i < g.successors(*state.heap[0].1.1).len() ==> state.heap[0].1.0 + g.edge_cost(
                (#[trigger] g.successors(*state.heap[0].1.1)[i]).0,
            ) <= u64::MAX,
    ensures
        ({
            let entry = state.heap[0].1;
            let after = state.step(g).reached;
            let edges = g.successors(*entry.1);
            &&& state.reached.contains_key(key) ==> after.contains_key(key)
            &&& after.contains_key(key) ==> {
                ||| state.reached.contains_key(key) && after[key] == state.reached[key]
                ||| {
                    &&& state.reached.contains_key(key) ==> after[key].0 < state.reached[key].0
                    &&& exists|i: int|
                        {
                            &&& 0 <= i < edges.len()
                            &&& (#[trigger] edges[i]).1.key == key
                            &&& after[key].0 == entry.0 + g.edge_cost(edges[i].0)
                            &&& *after[key].1 == *entry.1
                            &&& forall|j: int|
                                0 <= j < i && (#[trigger] edges[j]).1.key == key ==> after[key].0
                                    < entry.0 + g.edge_cost(edges[j].0)
                        }
                }
            }
            &&& forall|i: int|
                0 <= i < edges.len() && (#[trigger] edges[i]).1.key == key ==> after.contains_key(
                    key,
                ) && after[key].0 <= entry.0 + g.edge_cost(edges[i].0)
        }),
{
    let rest = BestFirst { heap: popped(state.heap), ..state };
    assert(!state.found());
    lemma_better(g, rest, state.heap[0].1, g.successors(*state.heap[0].1.1).len(), key);
}

/// The limit decides. Where a search succeeds, all that lies below the estimated total
/// of its route is within the limit. Where it is stopped, more than the limit lies
/// within reach without going beyond what is no dearer than any one way to an end.
pub proof fn law_limit_decides<'a, G: Graph<'a>>(g: &G, start: Vertex<'a>, graph_limit: usize)
    requires
        g.has_vertex(start),
        affordable(g, start, 0),
    ensures
        best_first_outcome(g, start, graph_limit) matches Some(route) ==> keys_below(
            g,
            start,
            route_cost(g, route) + estimate(g, route.last()),
        ).len() <= graph_limit,
        best_first_outcome(g, start, graph_limit) is None ==> forall|
            way: Seq<(Edge, Vertex<'a>)>,
        | #[trigger]
            trail_to_end(g, start, way) ==> keys_no_dearer(g, start, way).len() > graph_limit,
{
    let origin = Origin { start, base: 0 };
    let m = lemma_finds(g, origin, 0);
    let state = BestFirst::after(g, start, m);
    lemma_last(g, start, m);
    lemma_after(g, origin, m);
    let item = state.heap[0];
    let entry = item.1;
    assert(state.heap.contains(item));
    assert(state.open(g).contains(entry));
    assert(origin.may_expand(g, state.reached, entry));
    origin.lemma_traced(g, state.reached, state.open(g), *entry.1);
    origin.lemma_attained_fits(g, *entry.1, entry.0);
    let route = best_first_route(g, start);
    lemma_recorded_below(g, origin, state, route_cost(g, route) + estimate(g, route.last()));
    assert forall|way: Seq<(Edge, Vertex<'a>)>| #[trigger]
        trail_to_end(g, start, way) implies state.reached.len() <= keys_no_dearer(
        g,
        start,
        way,
    ).len() by {
        lemma_all_led(g, origin, way, m);
        lemma_keys_finite(keys_no_dearer(g, start, way));
        assert forall|key: u64| state.reached.dom().contains(key) implies keys_no_dearer(
            g,
            start,
            way,
        ).contains(key) by {
            assert(state.reached.contains_key(key));
        }
        lemma_len_subset(state.reached.dom(), keys_no_dearer(g, start, way));
    }
}

/// A larger limit never turns success into failure, nor does it change the route.
pub proof fn law_larger_limit<'a, G: Graph<'a>>(
    g: &G,
    start: Vertex<'a>,
    graph_limit: usize,
    larger_limit: usize,
)
    requires
        graph_limit <= larger_limit,
        best_first_outcome(g, start, graph_limit) is Some,
    ensures
        best_first_outcome(g, start, larger_limit) == best_first_outcome(g, start, graph_limit),
{
}

/// Return the shortest route from `start` to the end vertex, unless the estimates
/// mislead along it.
pub fn shortest_vertex_path<'a, G: Graph<'a>>(
    g: &G,
    start: Vertex<'a>,
    size_hint: usize,
    graph_limit: usize,
) -> (result: Result<Vec<Vertex<'a>>, ExceededGraphLimit>)
    requires
        g.has_vertex(start),
        affordable(g, start, 0),
        reservable(size_hint),
    ensures
        match result {
            Ok(route) => {
                &&& best_first_outcome(g, start, graph_limit) == Some(route@)
                &&& route_to_end(g, start, route@)
                &&& route@.len() <= graph_limit + 1
                &&& is_unbeaten(g, start, route@)
                &&& admissible(g, start) ==> is_shortest(g, start, route@)
                &&& keys_below(
                    g,
                    start,
                    route_cost(g, route@) + estimate(g, route@.last()),
                ).len() <= graph_limit
            },
            Err(_) => {
                &&& best_first_outcome(g, start, graph_limit) is None
                &&& keys_in_reach(g, start).len() > graph_limit
                &&& forall|way: Seq<(Edge, Vertex<'a>)>| #[trigger]
                    trail_to_end(g, start, way) ==> keys_no_dearer(g, start, way).len()
                        > graph_limit
            },
        },
{
    let ghost origin = Origin { start, base: 0 };
    proof {
        let steps = Seq::<(Edge, Vertex<'a>)>::empty();
        assert(trail(g, start, steps) && trail_end(start, steps) == start);
        lemma_estimate_nonnegative(g, start);
        lemma_initial(g, origin);
        law_best_first_search_finds(g, start);
        law_limit_suffices(g, start, graph_limit);
    }
    // We want to visit nodes with the shortest distance first.
    let mut heap: MinHeap<(u64, &Vertex<'a>)> = MinHeap::new();

    let vertex_arena = Bump::new();
    let o: OrdByFirst<(u64, &Vertex<'a>)> = OrdByFirst(
        0 + estimated_distance_remaining(g, &start),
        (0, store(&vertex_arena, start)),
    );
    heap.push(o);

    let mut predecessors: FxHashMap<u64, PredecessorInfo<'a, '_>> = with_room(size_hint);

    let mut neighbour_buf: [Option<(Edge, &Vertex<'a>)>; 12] = [
        None,
        None,
        None,
        None,
        None,
        None,
        None,
        None,
        None,
        None,
        None,
        None,
    ];

    let ghost mut n: nat = 0;
    loop
        invariant
            origin == (Origin { start, base: 0 }),
            origin.fits(g),
            heap.wf(),
            BestFirst::after(g, start, n) == (BestFirst { reached: predecessors@, heap: heap@ }),
            BestFirst::after(g, start, n).inv(g, origin),
            predecessors@.len() <= graph_limit,
            route_to_end(g, start, best_first_route(g, start)),
            best_first_route(g, start).len() <= best_first_reach(g, start) + 1,
            is_unbeaten(g, start, best_first_route(g, start)),
            best_first_reach(g, start) <= keys_in_reach(g, start).len(),
        decreases slack(predecessors@), heap@.len(),
    {
        let ghost state = BestFirst::after(g, start, n);
        proof {
            lemma_step(g, origin, state);
        }
        match heap.pop() {
            Some(item) => {
                let (distance, current) = item.1;
                let ghost entry: Entry<'a> = (distance, current);
                if current.is_end() {
                    proof {
                        lemma_last(g, start, n);
                        law_limit_decides(g, start, graph_limit);
                    }
                    return Ok(trace_back(predecessors, current));
                }
                let ghost rest = BestFirst { heap: popped(state.heap), ..state };
                proof {
                    lemma_rest(g, origin, state);
                    g.lemma_vertex(*current);
                }

                g.neighbours(current, &mut neighbour_buf, &vertex_arena);
                let ghost successors = g.successors(*current);
                let ghost seen: nat = 0;
                let mut i: usize = 0;
                while i < MAX_NEIGHBOURS
                    invariant
                        i <= MAX_NEIGHBOURS,
                        origin.fits(g),
                        heap.wf(),
                        rest.fairly_priced(g),
                        origin.sound(g, rest.reached, rest.open(g), Some(entry)),
                        origin.may_expand(g, rest.reached, entry),
                        !current.end,
                        entry == (distance, current),
                        successors == g.successors(*current),
                        successors.len() <= MAX_NEIGHBOURS,
                        seen == if i < successors.len() {
                            i as nat
                        } else {
                            successors.len()
                        },
                        forall|j: int|
                            i <= j < MAX_NEIGHBOURS ==> #[trigger] neighbour_buf@[j] == if j
                                < successors.len() {
                                Some((successors[j].0, &successors[j].1))
                            } else {
                                None
                            },
                        rest.considered(g, entry, seen) == (BestFirst {
                            reached: predecessors@,
                            heap: heap@,
                        }),
                    decreases MAX_NEIGHBOURS - i,
                {
                    if let Some((edge, next)) = neighbour_buf[i].take() {
                        proof {
                            lemma_considered(g, origin, rest, entry, seen);
                            origin.lemma_edge_fits(g, *current, distance, i as int);
                            seen = seen + 1;
                        }
                        let distance_to_next: u64 = distance + g.cost(edge);
                        let found_shorter_route: bool = match lookup(&predecessors, next.key) {
                            Some((prev_shortest, _)) => distance_to_next < *prev_shortest,
                            None => true,
                        };

                        if found_shorter_route {
                            record(&mut predecessors, next.key, (distance_to_next, current));

                            let o: OrdByFirst<(u64, &Vertex<'a>)> = OrdByFirst(
                                distance_to_next + estimated_distance_remaining(g, next),
                                (distance_to_next, next),
                            );
                            heap.push(o);
                        }
                    }
                    i = i + 1;
                }
                proof {
                    n = n + 1;
                    assert(BestFirst::after(g, start, n) == state.step(g));
                }
                if count(&predecessors) > graph_limit {
                    proof {
                        lemma_reach(g, origin, n);
                        law_limit_decides(g, start, graph_limit);
                    }
                    return Err(ExceededGraphLimit {  });
                }
            },
            None => vstd::pervasive::unreached(),
        }
    }
}

} // verus!
