//! Fringe search: the vertices to expand are kept in two lists, those whose
//! estimated total is within a threshold, and those for later. The estimates say
//! what to look at first. They are not relied on to tell when to stop.

use std::collections::VecDeque;

use bumpalo::Bump;
use rustc_hash::FxHashMap;
use vstd::prelude::*;

use crate::estimate::{
    estimate, estimate_fits, estimated_distance_remaining, lemma_estimate_nonnegative,
};
use crate::graph::{Edge, Graph, Vertex, MAX_NEIGHBOURS};
use crate::paths::{
    affordable, is_shortest, lemma_trail_cost_split, route_cost, route_to_end, stops_at_end, trail,
    trail_cost, trail_end, trail_to_end,
};
use crate::predecessors::{
    lookup, record, reservable, trace_back, traced, with_room, PredecessorInfo,
};
use crate::search::{improves, lemma_slack, slack, Entry, Origin, Reached};

verus! {

/// What the way through an entry is estimated to cost in all.
pub open spec fn estimated_total<'a, G: Graph<'a>>(g: &G, entry: Entry<'a>) -> int {
    entry.0 + estimate(g, *entry.1)
}

/// No entry is at a lesser distance than `distance`.
pub open spec fn none_nearer<'a>(entries: Seq<Entry<'a>>, distance: u64) -> bool {
    forall|i: int| 0 <= i < entries.len() ==> distance <= (#[trigger] entries[i]).0
}

/// The state of a fringe search.
pub ghost struct Fringe<'a> {
    /// The predecessors of the vertices that have been reached.
    pub reached: Reached<'a>,
    /// What is to be expanded in this round, in order.
    pub now: Seq<Entry<'a>>,
    /// What is put off to a later round, in order.
    pub later: Seq<Entry<'a>>,
    /// The estimated total that is acceptable in this round.
    pub threshold: u64,
    /// The least estimated total that exceeded the threshold in this round.
    pub threshold_next: u64,
}

impl<'a> Fringe<'a> {
    /// The first round holds the start alone, at its own estimate.
    pub open spec fn initial<G: Graph<'a>>(g: &G, start: Vertex<'a>) -> Self {
        let threshold = estimate(g, start) as u64;
        Fringe {
            reached: Map::empty(),
            now: seq![(threshold, &start)],
            later: seq![],
            threshold,
            threshold_next: u64::MAX,
        }
    }

    /// Adds an entry to this round if the threshold admits it, else to a later one.
    pub open spec fn add_entry<G: Graph<'a>>(self, g: &G, entry: Entry<'a>) -> Self {
        if estimated_total(g, entry) <= self.threshold {
            Fringe { now: self.now.push(entry), ..self }
        } else {
            Fringe {
                later: self.later.push(entry),
                threshold_next: if estimated_total(g, entry) < self.threshold_next {
                    estimated_total(g, entry) as u64
                } else {
                    self.threshold_next
                },
                ..self
            }
        }
    }

    /// The state after the first `n` edges of the vertex of `entry` have been
    /// looked at: each vertex that one of them reaches at a better distance is
    /// recorded, and added to the lists.
    pub open spec fn considered<G: Graph<'a>>(self, g: &G, entry: Entry<'a>, n: nat) -> Self
        decreases n,
    {
        if n == 0 {
            self
        } else {
            let before = self.considered(g, entry, (n - 1) as nat);
            let (edge, next) = g.successors(*entry.1)[n - 1];
            let distance = (entry.0 + g.edge_cost(edge)) as u64;
            if improves(before.reached, next.key, distance as int) {
                Fringe {
                    reached: before.reached.insert(next.key, (distance, entry.1)),
                    ..before
                }.add_entry(g, (distance, &next))
            } else {
                before
            }
        }
    }

    /// The first entry of the round is an end vertex, and nothing nearer is left to
    /// expand.
    pub open spec fn found(self) -> bool {
        &&& self.now.len() > 0
        &&& self.now[0].1.end
        &&& none_nearer(self.now, self.now[0].0)
        &&& none_nearer(self.later, self.now[0].0)
    }

    /// One step of the search, until it has found an end vertex: expand the first
    /// entry of the round, or put it off if it is an end vertex and something nearer
    /// is left to expand; or go on to the next round.
    pub open spec fn step<G: Graph<'a>>(self, g: &G) -> Self {
        if self.found() {
            self
        } else if self.now.len() > 0 {
            let rest = Fringe { now: self.now.drop_first(), ..self };
            if self.now[0].1.end {
                Fringe { later: rest.later.push(self.now[0]), ..rest }
            } else {
                rest.considered(g, self.now[0], g.successors(*self.now[0].1).len())
            }
        } else {
            Fringe {
                now: self.later,
                later: seq![],
                threshold: self.threshold_next,
                threshold_next: u64::MAX,
                ..self
            }
        }
    }

    /// The state after `n` steps from `start`.
    pub open spec fn after<G: Graph<'a>>(g: &G, start: Vertex<'a>, n: nat) -> Self
        decreases n,
    {
        if n == 0 {
            Fringe::initial(g, start)
        } else {
            Fringe::after(g, start, (n - 1) as nat).step(g)
        }
    }

    /// All entries that are still to be expanded.
    pub open spec fn open(self) -> Set<Entry<'a>> {
        Set::new(|entry: Entry<'a>| self.now.contains(entry) || self.later.contains(entry))
    }

    /// What every state of the search satisfies.
    spec fn inv<G: Graph<'a>>(self, g: &G, origin: Origin<'a>) -> bool {
        origin.sound(g, self.reached, self.open(), None)
    }
}

/// The origin of a fringe search: it counts distances from the estimate on.
pub open spec fn fringe_origin<'a, G: Graph<'a>>(g: &G, start: Vertex<'a>) -> Origin<'a> {
    Origin { start, base: estimate(g, start) as u64 }
}

/// The route that a fringe search from `start` finds.
pub open spec fn fringe_route<'a, G: Graph<'a>>(g: &G, start: Vertex<'a>) -> Seq<Vertex<'a>> {
    let n = choose|n: nat| (#[trigger] Fringe::after(g, start, n)).found();
    let state = Fringe::after(g, start, n);
    traced(state.reached, *state.now[0].1)
}

/// A pushed entry joins those that were there.
proof fn lemma_push_contains<A>(s: Seq<A>, a: A)
    ensures
        forall|x: A| #[trigger] s.push(a).contains(x) <==> s.contains(x) || x == a,
{
    assert forall|x: A| #[trigger] s.push(a).contains(x) <==> s.contains(x) || x == a by {
        if s.contains(x) {
            let i = choose|i: int| 0 <= i < s.len() && s[i] == x;
            assert(s.push(a)[i] == x);
        }
        assert(s.push(a)[s.len() as int] == a);
    }
}

/// Adding an entry adds it to the open ones.
proof fn lemma_add_entry<'a, G: Graph<'a>>(g: &G, state: Fringe<'a>, entry: Entry<'a>)
    ensures
        state.add_entry(g, entry).open() =~= state.open().insert(entry),
{
    lemma_push_contains(state.now, entry);
    lemma_push_contains(state.later, entry);
}

/// Looking at the edges of a vertex keeps the state sound, and either changes
/// nothing or uses up slack.
proof fn lemma_considered<'a, G: Graph<'a>>(
    g: &G,
    origin: Origin<'a>,
    state: Fringe<'a>,
    entry: Entry<'a>,
    n: nat,
)
    requires
        origin.fits(g),
        origin.sound(g, state.reached, state.open(), Some(entry)),
        origin.may_expand(g, state.reached, entry),
        !entry.1.end,
        n <= g.successors(*entry.1).len(),
    ensures
        ({
            let after = state.considered(g, entry, n);
            &&& origin.sound(g, after.reached, after.open(), Some(entry))
            &&& origin.may_expand(g, after.reached, entry)
            &&& origin.spent(g, after.reached, *entry.1, entry.0 as int, n as int)
            &&& after == state || slack(after.reached) < slack(state.reached)
        }),
    decreases n,
{
    if n > 0 {
        lemma_considered(g, origin, state, entry, (n - 1) as nat);
        let before = state.considered(g, entry, (n - 1) as nat);
        let (edge, next) = g.successors(*entry.1)[n - 1];
        let distance = (entry.0 + g.edge_cost(edge)) as u64;
        origin.lemma_edge_fits(g, *entry.1, entry.0, n - 1);
        origin.lemma_relax(g, before.reached, before.open(), entry, n - 1);
        if improves(before.reached, next.key, distance as int) {
            let info: PredecessorInfo<'a, 'a> = (distance, entry.1);
            let recorded = Fringe { reached: before.reached.insert(next.key, info), ..before };
            lemma_slack(before.reached, next.key, info);
            assert(recorded.open() =~= before.open());
            lemma_add_entry(g, recorded, (distance, &next));
        }
    }
}

/// Taking the first entry off the round.
proof fn lemma_rest<'a, G: Graph<'a>>(g: &G, origin: Origin<'a>, state: Fringe<'a>)
    requires
        state.inv(g, origin),
        state.now.len() > 0,
    ensures
        ({
            let rest = Fringe { now: state.now.drop_first(), ..state };
            &&& origin.sound(g, rest.reached, rest.open(), Some(state.now[0]))
            &&& origin.may_expand(g, rest.reached, state.now[0])
            &&& rest.open().insert(state.now[0]) =~= state.open()
        }),
{
    let rest = Fringe { now: state.now.drop_first(), ..state };
    let entry = state.now[0];
    assert(state.now =~= seq![entry] + rest.now);
    assert forall|e: Entry<'a>| #[trigger] state.now.contains(e) <==> e == entry
        || rest.now.contains(e) by {
        if rest.now.contains(e) {
            let i = choose|i: int| 0 <= i < rest.now.len() && rest.now[i] == e;
            assert(state.now[i + 1] == e);
        }
        if state.now.contains(e) && e != entry {
            let i = choose|i: int| 0 <= i < state.now.len() && state.now[i] == e;
            assert(rest.now[i - 1] == e);
        }
        assert(state.now[0] == entry);
    }
    origin.lemma_pop(g, state.reached, state.open(), rest.open(), entry);
}

/// Every step keeps the invariant.
proof fn lemma_step<'a, G: Graph<'a>>(g: &G, origin: Origin<'a>, state: Fringe<'a>)
    requires
        origin.fits(g),
        state.inv(g, origin),
    ensures
        state.step(g).inv(g, origin),
{
    if state.found() {
    } else if state.now.len() > 0 {
        let rest = Fringe { now: state.now.drop_first(), ..state };
        let entry = state.now[0];
        lemma_rest(g, origin, state);
        if entry.1.end {
            lemma_push_contains(rest.later, entry);
            assert(state.step(g).open() =~= state.open());
        } else {
            let n = g.successors(*entry.1).len();
            lemma_considered(g, origin, rest, entry, n);
            let after = rest.considered(g, entry, n);
            origin.lemma_expanded(g, after.reached, after.open(), entry);
        }
    } else {
        assert(state.step(g).open() =~= state.open());
    }
}

/// The search begins with the invariant.
proof fn lemma_initial<'a, G: Graph<'a>>(g: &G, origin: Origin<'a>)
    requires
        origin.fits(g),
        origin == fringe_origin(g, origin.start),
        estimate(g, origin.start) == origin.base,
    ensures
        Fringe::initial(g, origin.start).inv(g, origin),
{
    let state = Fringe::initial(g, origin.start);
    let entry: Entry<'a> = (origin.base, &origin.start);
    origin.lemma_begin(g);
    lemma_push_contains(Seq::<Entry<'a>>::empty(), entry);
    assert(Seq::<Entry<'a>>::empty().push(entry) =~= state.now);
    assert(state.open() =~= set![entry]);
}

/// Once an end vertex has been found, nothing changes any more.
proof fn lemma_found_stays<'a, G: Graph<'a>>(g: &G, start: Vertex<'a>, n: nat, m: nat)
    requires
        Fringe::after(g, start, n).found(),
        n <= m,
    ensures
        Fringe::after(g, start, m) == Fringe::after(g, start, n),
    decreases m,
{
    if n < m {
        lemma_found_stays(g, start, n, (m - 1) as nat);
    }
}

/// Whichever step is taken for the last, the route is the same.
pub proof fn lemma_fringe_route<'a, G: Graph<'a>>(g: &G, start: Vertex<'a>, n: nat)
    requires
        Fringe::after(g, start, n).found(),
    ensures
        fringe_route(g, start) == traced(
            Fringe::after(g, start, n).reached,
            *Fringe::after(g, start, n).now[0].1,
        ),
{
    let m = choose|m: nat| (#[trigger] Fringe::after(g, start, m)).found();
    if n <= m {
        lemma_found_stays(g, start, n, m);
    } else {
        lemma_found_stays(g, start, m, n);
    }
}

/// The route to the end vertex that was found is a shortest one: every other way to
/// an end still has to pass a vertex that is no nearer.
proof fn lemma_found<'a, G: Graph<'a>>(g: &G, origin: Origin<'a>, state: Fringe<'a>)
    requires
        origin.fits(g),
        state.inv(g, origin),
        state.found(),
    ensures
        route_to_end(g, origin.start, traced(state.reached, *state.now[0].1)),
        stops_at_end(traced(state.reached, *state.now[0].1)),
        is_shortest(g, origin.start, traced(state.reached, *state.now[0].1)),
{
    let entry = state.now[0];
    assert(state.open().contains(entry));
    assert(origin.may_expand(g, state.reached, entry));
    origin.lemma_traced(g, state.reached, state.open(), *entry.1);
    let route = traced(state.reached, *entry.1);
    assert forall|steps: Seq<(Edge, Vertex<'a>)>| #[trigger]
        trail_to_end(g, origin.start, steps) implies route_cost(g, route) <= trail_cost(
        g,
        steps,
    ) by {
        assert(steps.take(0) =~= Seq::empty());
        let (i, other) = origin.lemma_frontier(g, state.reached, state.open(), steps, 0);
        lemma_trail_cost_split(g, steps, i);
        assert(state.now.contains(other) || state.later.contains(other));
        assert(entry.0 <= other.0);
    }
}

/// Some entry is at no greater distance than any other.
proof fn lemma_nearest<'a>(entries: Seq<Entry<'a>>) -> (nearest: int)
    requires
        entries.len() > 0,
    ensures
        0 <= nearest < entries.len(),
        none_nearer(entries, entries[nearest].0),
    decreases entries.len(),
{
    let last = entries.len() - 1;
    if last == 0 {
        0
    } else {
        let before = lemma_nearest(entries.drop_last());
        assert forall|i: int| 0 <= i < last implies entries[before].0 <= (
        #[trigger] entries[i]).0 by {
            assert(entries.drop_last()[i] == entries[i]);
        }
        if entries[last].0 < entries[before].0 {
            last
        } else {
            before
        }
    }
}

/// Whether the nearest entry comes up in this round, or not until the next.
spec fn rounds_to_go<'a>(now: Seq<Entry<'a>>, later: Seq<Entry<'a>>) -> nat {
    if exists|i: int|
        0 <= i < now.len() && none_nearer(now, (#[trigger] now[i]).0) && none_nearer(
            later,
            now[i].0,
        ) {
        0
    } else {
        1
    }
}

/// Every step that does not find an end vertex brings the search closer to finding
/// one.
proof fn lemma_progress<'a, G: Graph<'a>>(g: &G, origin: Origin<'a>, state: Fringe<'a>)
    requires
        origin.fits(g),
        state.inv(g, origin),
        !state.found(),
    ensures
        decreases_to!(
            slack(state.reached),
            state.now.len() + state.later.len(),
            rounds_to_go(state.now, state.later),
            state.now.len() =>
            slack(state.step(g).reached),
            state.step(g).now.len() + state.step(g).later.len(),
            rounds_to_go(state.step(g).now, state.step(g).later),
            state.step(g).now.len()
        ),
{
    let after = state.step(g);
    if state.now.len() > 0 {
        let rest = Fringe { now: state.now.drop_first(), ..state };
        let entry = state.now[0];
        lemma_rest(g, origin, state);
        if !entry.1.end {
            lemma_considered(g, origin, rest, entry, g.successors(*entry.1).len());
        } else if rounds_to_go(state.now, state.later) == 0 {
            let i = choose|i: int|
                0 <= i < state.now.len() && none_nearer(state.now, (#[trigger] state.now[i]).0)
                    && none_nearer(state.later, state.now[i].0);
            assert(after.now[i - 1] == state.now[i]);
            assert(none_nearer(after.now, after.now[i - 1].0));
            assert(none_nearer(after.later, after.now[i - 1].0));
        }
    } else {
        let entry = origin.lemma_not_exhausted(g, state.reached, state.open());
        assert(state.later.contains(entry));
        let i = lemma_nearest(after.now);
        assert(none_nearer(after.later, after.now[i].0));
    }
}

/// From any of its states a search goes on to find an end vertex.
proof fn lemma_finds<'a, G: Graph<'a>>(g: &G, origin: Origin<'a>, n: nat) -> (m: nat)
    requires
        origin.fits(g),
        Fringe::after(g, origin.start, n).inv(g, origin),
    ensures
        Fringe::after(g, origin.start, m).found(),
        Fringe::after(g, origin.start, m).inv(g, origin),
    decreases
        slack(Fringe::after(g, origin.start, n).reached),
        Fringe::after(g, origin.start, n).now.len() + Fringe::after(g, origin.start, n).later.len(),
        rounds_to_go(
            Fringe::after(g, origin.start, n).now,
            Fringe::after(g, origin.start, n).later,
        ),
        Fringe::after(g, origin.start, n).now.len(),
{
    let state = Fringe::after(g, origin.start, n);
    if state.found() {
        n
    } else {
        lemma_progress(g, origin, state);
        lemma_step(g, origin, state);
        assert(Fringe::after(g, origin.start, n + 1) == state.step(g));
        lemma_finds(g, origin, n + 1)
    }
}

/// A fringe search always comes to an end vertex, the first on its route, and no way
/// to an end is cheaper.
pub proof fn law_fringe_search_finds<'a, G: Graph<'a>>(g: &G, start: Vertex<'a>)
    requires
        g.has_vertex(start),
        affordable(g, start, estimate(g, start)),
    ensures
        exists|n: nat| (#[trigger] Fringe::after(g, start, n)).found(),
        route_to_end(g, start, fringe_route(g, start)),
        stops_at_end(fringe_route(g, start)),
        is_shortest(g, start, fringe_route(g, start)),
{
    let origin = fringe_origin(g, start);
    lemma_origin(g, start);
    lemma_initial(g, origin);
    let m = lemma_finds(g, origin, 0);
    lemma_found(g, origin, Fringe::after(g, start, m));
    lemma_fringe_route(g, start, m);
}

/// What has come of looking at the first `n` edges of `entry`: `soon` and `late` say
/// which of them were added to the round and to the next, in order.
spec fn looked_at<'a, G: Graph<'a>>(
    g: &G,
    state: Fringe<'a>,
    after: Fringe<'a>,
    entry: Entry<'a>,
    n: int,
    soon: Seq<int>,
    late: Seq<int>,
) -> bool {
    let edges = g.successors(*entry.1);
    &&& after.now.len() == state.now.len() + soon.len()
    &&& after.later.len() == state.later.len() + late.len()
    &&& after.threshold == state.threshold
    &&& forall|i: int| 0 <= i < state.now.len() ==> #[trigger] after.now[i] == state.now[i]
    &&& forall|i: int| 0 <= i < state.later.len() ==> #[trigger] after.later[i] == state.later[i]
    &&& forall|i: int|
        0 <= i < soon.len() ==> {
            &&& 0 <= #[trigger] soon[i] < n
            &&& *after.now[state.now.len() + i].1 == edges[soon[i]].1
            &&& after.now[state.now.len() + i].0 == entry.0 + g.edge_cost(edges[soon[i]].0)
            &&& entry.0 + g.edge_cost(edges[soon[i]].0) + estimate(g, edges[soon[i]].1)
                <= state.threshold
        }
    &&& forall|i: int|
        0 <= i < late.len() ==> {
            &&& 0 <= #[trigger] late[i] < n
            &&& *after.later[state.later.len() + i].1 == edges[late[i]].1
            &&& after.later[state.later.len() + i].0 == entry.0 + g.edge_cost(edges[late[i]].0)
            &&& entry.0 + g.edge_cost(edges[late[i]].0) + estimate(g, edges[late[i]].1)
                > state.threshold
            &&& after.threshold_next <= entry.0 + g.edge_cost(edges[late[i]].0) + estimate(
                g,
                edges[late[i]].1,
            )
        }
    &&& after.threshold_next <= state.threshold_next
    &&& after.threshold_next == state.threshold_next || exists|i: int|
        0 <= i < late.len() && after.threshold_next == entry.0 + g.edge_cost(
            edges[#[trigger] late[i]].0,
        ) + estimate(g, edges[late[i]].1)
    &&& forall|i: int, j: int| 0 <= i < j < soon.len() ==> (#[trigger] soon[i]) < #[trigger] soon[j]
    &&& forall|i: int, j: int| 0 <= i < j < late.len() ==> (#[trigger] late[i]) < #[trigger] late[j]
}

/// Looking at edges puts them on the lists in order.
proof fn lemma_looked_at<'a, G: Graph<'a>>(
    g: &G,
    state: Fringe<'a>,
    entry: Entry<'a>,
    n: nat,
) -> (lists: (Seq<int>, Seq<int>))
    requires
        n <= g.successors(*entry.1).len(),
        forall|i: int|
            0 <= i < g.successors(*entry.1).len() ==> {
                let (edge, next) = #[trigger] g.successors(*entry.1)[i];
                &&& 0 <= estimate(g, next)
                &&& entry.0 + g.edge_cost(edge) + estimate(g, next) <= u64::MAX
            },
    ensures
        looked_at(g, state, state.considered(g, entry, n), entry, n as int, lists.0, lists.1),
    decreases n,
{
    if n == 0 {
        (Seq::empty(), Seq::empty())
    } else {
        let (soon, late) = lemma_looked_at(g, state, entry, (n - 1) as nat);
        let before = state.considered(g, entry, (n - 1) as nat);
        let after = state.considered(g, entry, n);
        let edges = g.successors(*entry.1);
        let (edge, next) = edges[n - 1];
        let distance = (entry.0 + g.edge_cost(edge)) as u64;
        if improves(before.reached, next.key, distance as int) {
            let added: Entry<'a> = (distance, &next);
            if estimated_total(g, added) <= before.threshold {
                assert(after.now == before.now.push(added));
                (soon.push(n - 1), late)
            } else {
                assert(after.later == before.later.push(added));
                let later = late.push(n - 1);
                if before.threshold_next != state.threshold_next {
                    let i = choose|i: int|
                        0 <= i < late.len() && before.threshold_next == entry.0 + g.edge_cost(
                            edges[#[trigger] late[i]].0,
                        ) + estimate(g, edges[late[i]].1);
                    assert(later[i] == late[i]);
                }
                assert(later[late.len() as int] == n - 1);
                (soon, later)
            }
        } else {
            (soon, late)
        }
    }
}

/// What is recorded changes for the better: a predecessor gives way only to one that
/// the first `n` edges of `entry` reach at a strictly lesser distance.
proof fn lemma_better<'a, G: Graph<'a>>(
    g: &G,
    state: Fringe<'a>,
    entry: Entry<'a>,
    n: nat,
    key: u64,
)
    requires
        n <= g.successors(*entry.1).len(),
        forall|i: int|
            0 <= i < g.successors(*entry.1).len() ==> entry.0 + g.edge_cost(
                (#[trigger] g.successors(*entry.1)[i]).0,
            ) <= u64::MAX,
    ensures
        ({
            let after = state.considered(g, entry, n).reached;
            let edges = g.successors(*entry.1);
            &&& state.reached.contains_key(key) ==> after.contains_key(key)
            &&& after.contains_key(key) ==> {
                ||| state.reached.contains_key(key) && after[key] == state.reached[key]
                ||| {
                    &&& state.reached.contains_key(key) ==> after[key].0 < state.reached[key].0
                    &&& exists|i: int|
                        {
                            &&& 0 <= i < n
                            &&& (#[trigger] edges[i]).1.key == key
                            &&& after[key].0 == entry.0 + g.edge_cost(edges[i].0)
                            &&& *after[key].1 == *entry.1
                            &&& forall|j: int|
                                0 <= j < i && (#[trigger] edges[j]).1.key == key ==> after[key].0
                                    < entry.0 + g.edge_cost(edges[j].0)
                        }
                }
            }
            &&& forall|i: int|
                0 <= i < n && (#[trigger] edges[i]).1.key == key ==> after.contains_key(key)
                    && after[key].0 <= entry.0 + g.edge_cost(edges[i].0)
        }),
    decreases n,
{
    if n > 0 {
        lemma_better(g, state, entry, (n - 1) as nat, key);
        let edges = g.successors(*entry.1);
        let before = state.considered(g, entry, (n - 1) as nat);
        let after = state.considered(g, entry, n);
        let (edge, next) = edges[n - 1];
        let distance = (entry.0 + g.edge_cost(edge)) as u64;
        if improves(before.reached, next.key, distance as int) {
            assert(after.reached == before.reached.insert(next.key, (distance, entry.1)));
            if next.key == key {
                assert(edges[n - 1].1.key == key);
            }
        } else {
            assert(after == before);
        }
    }
}

/// Expanding a vertex looks at all its edges in order. What was on the lists stays
/// there in front. Each edge that is followed adds the vertex that it leads to at the
/// end of the round, if its estimated total is within the threshold, and else at the
/// end of the next, whose threshold is the least of these totals.
pub proof fn law_expansion_keeps_order<'a, G: Graph<'a>>(g: &G, state: Fringe<'a>) -> (lists: (
    Seq<int>,
    Seq<int>,
))
    requires
        state.now.len() > 0,
        !state.now[0].1.end,
        forall|i: int|
            0 <= i < g.successors(*state.now[0].1).len() ==> {
                let (edge, next) = #[trigger] g.successors(*state.now[0].1)[i];
                &&& 0 <= estimate(g, next)
                &&& state.now[0].0 + g.edge_cost(edge) + estimate(g, next) <= u64::MAX
            },
    ensures
        ({
            let entry = state.now[0];
            let edges = g.successors(*entry.1);
            let after = state.step(g);
            let (soon, late) = lists;
            &&& after.now.len() == state.now.len() - 1 + soon.len()
            &&& after.later.len() == state.later.len() + late.len()
            &&& after.threshold == state.threshold
            &&& forall|i: int|
                0 <= i < state.now.len() - 1 ==> #[trigger] after.now[i] == state.now[i + 1]
            &&& forall|i: int|
                0 <= i < state.later.len() ==> #[trigger] after.later[i] == state.later[i]
            &&& forall|i: int|
                0 <= i < soon.len() ==> {
                    &&& 0 <= #[trigger] soon[i] < edges.len()
                    &&& *after.now[state.now.len() - 1 + i].1 == edges[soon[i]].1
                    &&& after.now[state.now.len() - 1 + i].0 == entry.0 + g.edge_cost(
                        edges[soon[i]].0,
                    )
                    &&& entry.0 + g.edge_cost(edges[soon[i]].0) + estimate(g, edges[soon[i]].1)
                        <= state.threshold
                }
            &&& forall|i: int|
                0 <= i < late.len() ==> {
                    &&& 0 <= #[trigger] late[i] < edges.len()
                    &&& *after.later[state.later.len() + i].1 == edges[late[i]].1
                    &&& after.later[state.later.len() + i].0 == entry.0 + g.edge_cost(
                        edges[late[i]].0,
                    )
                    &&& entry.0 + g.edge_cost(edges[late[i]].0) + estimate(g, edges[late[i]].1)
                        > state.threshold
                    &&& after.threshold_next <= entry.0 + g.edge_cost(edges[late[i]].0) + estimate(
                        g,
                        edges[late[i]].1,
                    )
                }
            &&& after.threshold_next <= state.threshold_next
            &&& after.threshold_next == state.threshold_next || exists|i: int|
                0 <= i < late.len() && after.threshold_next == entry.0 + g.edge_cost(
                    edges[#[trigger] late[i]].0,
                ) + estimate(g, edges[late[i]].1)
            &&& forall|i: int, j: int|
                0 <= i < j < soon.len() ==> (#[trigger] soon[i]) < #[trigger] soon[j]
            &&& forall|i: int, j: int|
                0 <= i < j < late.len() ==> (#[trigger] late[i]) < #[trigger] late[j]
        }),
{
    let rest = Fringe { now: state.now.drop_first(), ..state };
    assert(!state.found());
    lemma_looked_at(g, rest, state.now[0], g.successors(*state.now[0].1).len())
}

/// Expanding a vertex changes what is recorded of another only for the better. A
/// predecessor gives way to the vertex only if that is strictly nearer, by the first of
/// its cheapest edges; on equal terms the one that was there stays. Afterwards no edge
/// of the vertex is shorter than what is recorded.
pub proof fn law_predecessors_improve<'a, G: Graph<'a>>(g: &G, state: Fringe<'a>, key: u64)
    requires
        state.now.len() > 0,
        !state.now[0].1.end,
        forall|i: int|
            0 <= i < g.successors(*state.now[0].1).len() ==> state.now[0].0 + g.edge_cost(
                (#[trigger] g.successors(*state.now[0].1)[i]).0,
            ) <= u64::MAX,
    ensures
        ({
            let entry = state.now[0];
            let after = state.step(g).reached;
            let edges = g.successors(*entry.1);
            &&& state.reached.contains_key(key) ==> after.contains_key(key)
            &&& after.contains_key(key) ==> {
                ||| state.reached.contains_key(key) && after[key] == state.reached[key]
                ||| {
                    &&& state.reached.contains_key(key) ==> after[key].0 < state.reached[key].0
                    &&& exists|i: int|
                        {
                            &&& 0 <= i < edges.len()
                            &&& (#[trigger] edges[i]).1.key == key
                            &&& after[key].0 == entry.0 + g.edge_cost(edges[i].0)
                            &&& *after[key].1 == *entry.1
                            &&& forall|j: int|
                                0 <= j < i && (#[trigger] edges[j]).1.key == key ==> after[key].0
                                    < entry.0 + g.edge_cost(edges[j].0)
                        }
                }
            }
            &&& forall|i: int|
                0 <= i < edges.len() && (#[trigger] edges[i]).1.key == key ==> after.contains_key(
                    key,
                ) && after[key].0 <= entry.0 + g.edge_cost(edges[i].0)
        }),
{
    let rest = Fringe { now: state.now.drop_first(), ..state };
    assert(!state.found());
    lemma_better(g, rest, state.now[0], g.successors(*state.now[0].1).len(), key);
}

/// An end vertex waits for the next round, behind all that does, as long as something
/// nearer is left to expand. When a round is over, all that was put off makes up the
/// next, in the same order, and nothing is put off yet.
pub proof fn law_rounds<'a, G: Graph<'a>>(g: &G, state: Fringe<'a>, nearer: Entry<'a>)
    ensures
        state.now.len() == 0 ==> {
            &&& state.step(g).now == state.later
            &&& state.step(g).later.len() == 0
            &&& state.step(g).reached == state.reached
            &&& state.step(g).threshold == state.threshold_next
        },
        state.now.len() > 0 && state.now[0].1.end && (state.now.contains(nearer)
            || state.later.contains(nearer)) && nearer.0 < state.now[0].0 ==> {
            &&& state.step(g).now == state.now.drop_first()
            &&& state.step(g).later == state.later.push(state.now[0])
            &&& state.step(g).reached == state.reached
            &&& state.step(g).threshold == state.threshold
            &&& state.step(g).threshold_next == state.threshold_next
        },
{
    if state.now.contains(nearer) {
        let i = choose|i: int| 0 <= i < state.now.len() && state.now[i] == nearer;
        assert(state.now[i].0 == nearer.0);
    }
    if state.later.contains(nearer) {
        let i = choose|i: int| 0 <= i < state.later.len() && state.later[i] == nearer;
        assert(state.later[i].0 == nearer.0);
    }
}

/// The start can be estimated, and the search can be carried out from there.
proof fn lemma_origin<'a, G: Graph<'a>>(g: &G, start: Vertex<'a>)
    requires
        g.has_vertex(start),
        affordable(g, start, estimate(g, start)),
    ensures
        estimate_fits(g, start),
        estimate(g, start) == fringe_origin(g, start).base,
        fringe_origin(g, start).fits(g),
{
    let steps = Seq::<(Edge, Vertex<'a>)>::empty();
    assert(trail(g, start, steps) && trail_end(start, steps) == start);
    lemma_estimate_nonnegative(g, start);
}

/// Is no entry at a lesser distance than `distance`?
fn check_none_nearer<'a, 'b>(entries: &VecDeque<(u64, &'b Vertex<'a>)>, distance: u64) -> (ok: bool)
    ensures
        ok == none_nearer(entries@, distance),
{
    let mut i: usize = 0;
    while i < entries.len()
        invariant
            i <= entries@.len(),
            forall|j: int| 0 <= j < i ==> distance <= (#[trigger] entries@[j]).0,
        decreases entries@.len() - i,
    {
        if entries[i].0 < distance {
            assert(entries@[i as int].0 < distance);
            return false;
        }
        i = i + 1;
    }
    true
}

/// Finds a shortest route from `start` to an end vertex.
pub fn fringe_search<'a, G: Graph<'a>>(g: &G, start: Vertex<'a>, size_hint: usize) -> (route: Vec<
    Vertex<'a>,
>)
    requires
        g.has_vertex(start),
        affordable(g, start, estimate(g, start)),
        reservable(size_hint),
    ensures
        route@ == fringe_route(g, start),
        route_to_end(g, start, route@),
        is_shortest(g, start, route@),
{
    let ghost origin = fringe_origin(g, start);
    proof {
        lemma_origin(g, start);
        lemma_initial(g, origin);
    }
    let mut threshold: u64 = estimated_distance_remaining(g, &start);
    let mut threshold_next: u64 = u64::MAX;

    let vertex_arena = Bump::new();
    let mut now: VecDeque<(u64, &Vertex<'a>)> = VecDeque::new();
    let mut later: VecDeque<(u64, &Vertex<'a>)> = VecDeque::new();
    now.push_front((threshold, &start));

    let mut predecessors: FxHashMap<u64, PredecessorInfo<'a, '_>> = with_room(size_hint);

    let mut neighbour_buf: [Option<(Edge, &Vertex<'a>)>; 12] = [
        None,
        None,
        None,
        None,
        None,
        None,
        None,
        None,
        None,
        None,
        None,
        None,
    ];

    let ghost mut n: nat = 0;
    assert(now@ =~= Fringe::initial(g, start).now);
    loop
        invariant
            origin == fringe_origin(g, start),
            origin.fits(g),
            Fringe::after(g, start, n) == (Fringe {
                reached: predecessors@,
                now: now@,
                later: later@,
                threshold,
                threshold_next,
            }),
            Fringe::after(g, start, n).inv(g, origin),
        decreases
            slack(predecessors@),
            now@.len() + later@.len(),
            rounds_to_go(now@, later@),
            now@.len(),
    {
        let ghost state = Fringe::after(g, start, n);
        proof {
            lemma_step(g, origin, state);
            n = n + 1;
            if state.now.len() > 0 {
                lemma_rest(g, origin, state);
            }
            if !state.found() {
                lemma_progress(g, origin, state);
            }
        }
        match now.pop_front() {
            Some((distance, current)) => {
                let ghost rest = Fringe { now: state.now.drop_first(), ..state };
                let ghost entry: Entry<'a> = (distance, current);
                if current.is_end() {
                    proof {
                        assert(state.now =~= seq![entry] + rest.now);
                        assert(none_nearer(state.now, distance) == none_nearer(
                            rest.now,
                            distance,
                        )) by {
                            if none_nearer(state.now, distance) {
                                assert forall|i: int| 0 <= i < rest.now.len() implies distance <= (
                                #[trigger] rest.now[i]).0 by {
                                    assert(state.now[i + 1] == rest.now[i]);
                                }
                            }
                        }
                    }
                    if check_none_nearer(&now, distance) && check_none_nearer(&later, distance) {
                        proof {
                            lemma_found(g, origin, state);
                            lemma_fringe_route(g, start, (n - 1) as nat);
                        }
                        return trace_back(predecessors, current);
                    }
                    // A cheaper way to an end may still come up.
                    later.push_back((distance, current));
                } else {
                    g.neighbours(current, &mut neighbour_buf, &vertex_arena);
                    proof {
                        g.lemma_vertex(*current);
                    }
                    let ghost successors = g.successors(*current);
                    let ghost seen: nat = 0;
                    let mut i: usize = 0;
                    while i < MAX_NEIGHBOURS
                        invariant
                            i <= MAX_NEIGHBOURS,
                            origin.fits(g),
                            origin.sound(g, rest.reached, rest.open(), Some(entry)),
                            origin.may_expand(g, rest.reached, entry),
                            !current.end,
                            entry == (distance, current),
                            successors == g.successors(*current),
                            successors.len() <= MAX_NEIGHBOURS,
                            seen == if i < successors.len() {
                                i as nat
                            } else {
                                successors.len()
                            },
                            forall|j: int|
                                i <= j < MAX_NEIGHBOURS ==> #[trigger] neighbour_buf@[j] == if j
                                    < successors.len() {
                                    Some((successors[j].0, &successors[j].1))
                                } else {
                                    None
                                },
                            rest.considered(g, entry, seen) == (Fringe {
                                reached: predecessors@,
                                now: now@,
                                later: later@,
                                threshold,
                                threshold_next,
                            }),
                        decreases MAX_NEIGHBOURS - i,
                    {
                        if let Some((edge, next)) = neighbour_buf[i].take() {
                            proof {
                                lemma_considered(g, origin, rest, entry, seen);
                                origin.lemma_edge_fits(g, *current, distance, i as int);
                                seen = seen + 1;
                            }
                            let distance_to_next: u64 = distance + g.cost(edge);
                            let found_shorter_route: bool = match lookup(&predecessors, next.key) {
                                Some((prev_shortest, _)) => distance_to_next < *prev_shortest,
                                None => true,
                            };

                            if found_shorter_route {
                                record(&mut predecessors, next.key, (distance_to_next, current));

                                let h_next: u64 = distance_to_next + estimated_distance_remaining(
                                    g,
                                    next,
                                );
                                if h_next <= threshold {
                                    now.push_back((distance_to_next, next));
                                } else {
                                    later.push_back((distance_to_next, next));

                                    if h_next < threshold_next {
                                        threshold_next = h_next;
                                    }
                                }
                            }
                        }
                        i = i + 1;
                    }
                }
            },
            None => {
                now = later;
                threshold = threshold_next;
                threshold_next = u64::MAX;

                later = VecDeque::new();
            },
        }
    }
}

} // verus!
