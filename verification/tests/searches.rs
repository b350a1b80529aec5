//! Searches on small graphs that are written out by hand.

use std::cmp::Ordering;
use std::collections::HashSet;

use dijkstra::best_first::{shortest_vertex_path, ExceededGraphLimit};
use dijkstra::changes::{ChangeKind, ChangeMap};
use dijkstra::estimate::estimated_distance_remaining;
use dijkstra::fringe::fringe_search;
use dijkstra::graph::{Edge, Graph, Vertex};
use dijkstra::heap::{MinHeap, OrdByFirst};
use dijkstra::listing::{Listing, Row, LIMIT};
use dijkstra::mark::{diff_route, mark_syntax, print_length};
use dijkstra::predecessors::check_reservable;
use dijkstra::route::{edge_between, shortest_path, shortest_path_with_edges};
use dijkstra::syntax::{check_countable, node_count, tree_count, Syntax, SyntaxInfo};

/// An edge that costs `cost` in the graphs below.
fn step(cost: u32) -> Edge {
    Edge::EnterUnchangedDelimiter {
        depth_difference: cost,
    }
}

fn vertex(key: u64, end: bool) -> Vertex<'static> {
    Vertex {
        lhs_syntax: None,
        rhs_syntax: None,
        num_parents: 0,
        end,
        key,
    }
}

/// A graph of `len` vertices, the last of which is the end, with edges given by
/// their cost.
fn weighted(len: usize, edges: &[(usize, u32, usize)]) -> Listing<'static> {
    let mut rows: Vec<Row> = (0..len)
        .map(|i| Row {
            vertex: vertex(i as u64, i + 1 == len),
            edges: vec![],
        })
        .collect();
    let mut prices = vec![];
    for (from, cost, to) in edges {
        rows[*from].edges.push((step(*cost), *to));
        prices.push((step(*cost), u64::from(*cost)));
    }
    let listing = Listing {
        rows,
        prices,
        other_price: 1,
    };
    assert!(listing.check());
    listing
}

fn keys(route: &[Vertex]) -> Vec<u64> {
    route.iter().map(|v| v.key).collect()
}

fn cost_of(graph: &Listing, path: &[(Edge, Vertex)]) -> u64 {
    path.iter().map(|(edge, _)| graph.cost(*edge)).sum()
}

/// The direct way to the end comes up first, but a longer one is cheaper.
fn detour() -> Listing<'static> {
    weighted(4, &[(0, 1, 1), (0, 10, 3), (1, 1, 2), (2, 1, 3)])
}

#[test]
fn detour_is_shorter() {
    let graph = detour();
    let start = graph.rows[0].vertex;
    assert_eq!(keys(&fringe_search(&graph, start, 0)), vec![0, 1, 2, 3]);

    let path = shortest_path(&graph, start, 0, 100).unwrap();
    assert_eq!(path.len(), 3);
    assert_eq!(cost_of(&graph, &path), 3);

    let route = shortest_vertex_path(&graph, start, 0, 100).unwrap();
    assert_eq!(keys(&route), vec![0, 1, 2, 3]);
}

#[test]
fn direct_way_is_shorter() {
    let graph = weighted(4, &[(0, 1, 1), (0, 2, 3), (1, 1, 2), (2, 1, 3)]);
    let start = graph.rows[0].vertex;
    assert_eq!(keys(&fringe_search(&graph, start, 0)), vec![0, 3]);
    let route = shortest_vertex_path(&graph, start, 0, 100).unwrap();
    assert_eq!(keys(&route), vec![0, 3]);
}

#[test]
fn better_distance_replaces_predecessor() {
    // Vertex 3 is first reached from vertex 1, then at less cost from vertex 2.
    let graph = weighted(
        5,
        &[(0, 5, 1), (0, 6, 2), (1, 9, 3), (2, 1, 3), (3, 4, 4)],
    );
    let start = graph.rows[0].vertex;
    assert_eq!(keys(&fringe_search(&graph, start, 0)), vec![0, 2, 3, 4]);
    let route = shortest_vertex_path(&graph, start, 16, 100).unwrap();
    assert_eq!(keys(&route), vec![0, 2, 3, 4]);
}

#[test]
fn first_of_equal_routes_wins() {
    let graph = weighted(4, &[(0, 2, 1), (0, 2, 2), (1, 3, 3), (2, 3, 3)]);
    let start = graph.rows[0].vertex;
    assert_eq!(keys(&fringe_search(&graph, start, 0)), vec![0, 1, 3]);
}

#[test]
fn searches_agree_on_cost() {
    let graph = weighted(
        8,
        &[
            (0, 7, 1),
            (0, 3, 2),
            (1, 1, 3),
            (2, 6, 3),
            (2, 2, 4),
            (3, 5, 5),
            (4, 8, 5),
            (4, 9, 6),
            (5, 2, 7),
            (6, 1, 7),
        ],
    );
    let start = graph.rows[0].vertex;
    let fringe = shortest_path(&graph, start, 0, 100).unwrap();
    let route = shortest_vertex_path(&graph, start, 0, 100).unwrap();
    let best_first = shortest_path_with_edges(&graph, &route);
    assert_eq!(cost_of(&graph, &fringe), 15);
    assert_eq!(cost_of(&graph, &best_first), 15);
}

#[test]
fn estimates_guide_the_search() {
    // Vertex 1 has twenty lists to leave, at a cost of one each, so the way
    // through it is put off.
    let mut graph = weighted(4, &[(0, 1, 1), (0, 9, 2), (1, 20, 3), (2, 1, 3)]);
    graph.rows[1].vertex.num_parents = 20;
    assert!(graph.check());
    let start = graph.rows[0].vertex;
    assert_eq!(keys(&fringe_search(&graph, start, 0)), vec![0, 2, 3]);
    let route = shortest_vertex_path(&graph, start, 0, 100).unwrap();
    assert_eq!(keys(&route), vec![0, 2, 3]);
}

#[test]
fn start_at_the_end() {
    let graph = weighted(1, &[]);
    let start = graph.rows[0].vertex;
    assert!(shortest_path(&graph, start, 0, 0).unwrap().is_empty());
    let route = shortest_vertex_path(&graph, start, 0, 0).unwrap();
    assert_eq!(keys(&route), vec![0]);
}

#[test]
fn exceeded_graph_limit() {
    let graph = detour();
    let start = graph.rows[0].vertex;
    // Three vertices can be reached.
    assert!(shortest_vertex_path(&graph, start, 0, 3).is_ok());
    assert!(matches!(
        shortest_vertex_path(&graph, start, 0, 2),
        Err(ExceededGraphLimit {})
    ));
    assert!(matches!(
        shortest_vertex_path(&graph, start, 0, 0),
        Err(ExceededGraphLimit {})
    ));
}

#[test]
fn limit_and_hint_do_not_change_the_route() {
    // Several routes cost the same.
    let graph = weighted(
        6,
        &[
            (0, 2, 1),
            (0, 2, 2),
            (0, 2, 3),
            (1, 3, 4),
            (2, 3, 4),
            (3, 3, 5),
            (4, 0, 5),
        ],
    );
    let start = graph.rows[0].vertex;
    let route = keys(&shortest_vertex_path(&graph, start, 0, 5).unwrap());
    for (size_hint, graph_limit) in [(0, 5), (0, 6), (7, 100), (1000, usize::MAX)] {
        let other = shortest_vertex_path(&graph, start, size_hint, graph_limit).unwrap();
        assert_eq!(keys(&other), route);
    }
    for graph_limit in 0..4 {
        assert!(shortest_vertex_path(&graph, start, 0, graph_limit).is_err());
    }
}

#[test]
fn route_stops_at_the_first_end() {
    // Vertex 1 is an end vertex, from which an edge leads on.
    let mut graph = weighted(3, &[(0, 5, 1), (1, 0, 2), (0, 5, 2)]);
    graph.rows[1].vertex.end = true;
    assert!(graph.check());
    let start = graph.rows[0].vertex;
    assert_eq!(keys(&fringe_search(&graph, start, 0)), vec![0, 1]);
    let route = shortest_vertex_path(&graph, start, 0, 100).unwrap();
    assert_eq!(keys(&route), vec![0, 1]);
}

#[test]
fn distances_of_rows() {
    let graph = detour();
    assert_eq!(graph.distances(), vec![3, 2, 1, 0]);
    let (start, second) = (graph.rows[0].vertex, graph.rows[1].vertex);
    assert_eq!(graph.rows_ahead(&start), vec![false, true, true, true]);
    assert_eq!(graph.rows_ahead(&second), vec![false, false, true, true]);
}

#[test]
fn estimates_that_mislead() {
    let mut graph = weighted(4, &[(0, 1, 1), (0, 9, 2), (1, 1, 3), (2, 1, 3)]);
    let start = graph.rows[0].vertex;
    assert!(graph.check_admissible(&start));

    // An exit costs one, and one is what the rest of the way costs.
    graph.rows[1].vertex.num_parents = 1;
    assert!(graph.check_admissible(&start));
    assert_eq!(keys(&fringe_search(&graph, start, 0)), vec![0, 1, 3]);

    graph.rows[1].vertex.num_parents = 2;
    assert!(!graph.check_admissible(&start));
    // Nothing ahead of the second row is affected.
    let second = graph.rows[1].vertex;
    assert!(graph.check_admissible(&second));

    // A best-first search then misses the way through the second row.
    graph.rows[1].vertex.num_parents = 20;
    let route = shortest_vertex_path(&graph, start, 0, 100).unwrap();
    assert_eq!(keys(&route), vec![0, 2, 3]);
    assert_eq!(keys(&fringe_search(&graph, start, 0)), vec![0, 1, 3]);
}

#[test]
fn shortest_path_where_estimates_mislead() {
    // All of the cheap way is estimated to be far from the end.
    let mut graph = weighted(
        6,
        &[
            (0, 1, 1),
            (1, 1, 2),
            (2, 1, 3),
            (3, 1, 5),
            (0, 9, 4),
            (4, 1, 5),
        ],
    );
    for i in 1..4 {
        graph.rows[i].vertex.num_parents = 20;
    }
    assert!(graph.check());
    let start = graph.rows[0].vertex;
    assert!(!graph.check_admissible(&start));
    assert_eq!(keys(&fringe_search(&graph, start, 0)), vec![0, 1, 2, 3, 5]);
    let path = shortest_path(&graph, start, 0, 100).unwrap();
    assert_eq!(cost_of(&graph, &path), 4);
    assert_eq!(graph.distances()[0], 4);
}

#[test]
fn shortest_path_where_the_end_is_misjudged() {
    // Two end vertices, the nearer of which is estimated to be far from an end.
    let mut graph = weighted(4, &[(0, 1, 1), (1, 1, 2), (0, 5, 3), (2, 0, 3)]);
    graph.rows[2].vertex.end = true;
    graph.rows[2].vertex.num_parents = 50;
    assert!(graph.check());
    let start = graph.rows[0].vertex;
    assert_eq!(keys(&fringe_search(&graph, start, 0)), vec![0, 1, 2]);
}

#[test]
fn shortest_path_ignores_graph_limit() {
    let graph = detour();
    let start = graph.rows[0].vertex;
    assert_eq!(shortest_path(&graph, start, 0, 0).unwrap().len(), 3);
}

#[test]
fn one_edge_fewer_than_vertices() {
    let graph = detour();
    let route: Vec<Vertex> = graph.rows.iter().map(|row| row.vertex).collect();
    let path = shortest_path_with_edges(&graph, &route);
    let edges: Vec<Edge> = path.iter().map(|(edge, _)| *edge).collect();
    assert_eq!(edges, vec![step(1), step(1), step(1)]);
    let left: Vec<u64> = path.iter().map(|(_, v)| v.key).collect();
    assert_eq!(left, vec![0, 1, 2]);
}

#[test]
fn route_passes_each_vertex_once() {
    let graph = weighted(
        6,
        &[
            (0, 4, 1),
            (0, 4, 2),
            (1, 1, 2),
            (1, 6, 3),
            (2, 1, 3),
            (3, 1, 4),
            (4, 1, 5),
        ],
    );
    let start = graph.rows[0].vertex;
    let route = keys(&fringe_search(&graph, start, 0));
    let distinct: HashSet<u64> = route.iter().copied().collect();
    assert_eq!(distinct.len(), route.len());
}

#[test]
fn cheapest_of_parallel_edges() {
    let exit = Edge::ExitDelimiterLHS;
    let novel = Edge::NovelAtomLHS { contiguous: false };
    let replaced = Edge::ReplacedComment { levenshtein_pct: 50 };
    let mut graph = weighted(2, &[(0, 9, 1)]);
    graph.rows[0].edges.push((exit, 1));
    graph.rows[0].edges.push((novel, 1));
    graph.rows[0].edges.push((replaced, 1));
    graph.prices.push((exit, 5));
    graph.prices.push((novel, 4));
    graph.prices.push((replaced, 4));
    assert!(graph.check());
    // The last two cost the same: the first of them is taken.
    let (start, end) = (graph.rows[0].vertex, graph.rows[1].vertex);
    assert_eq!(edge_between(&graph, &start, &end), novel);
    let path = shortest_path(&graph, start, 0, 0).unwrap();
    assert_eq!(path[0].0, novel);
}

fn atom(
    id: u32,
    next_sibling: Option<&'static Syntax<'static>>,
    num_after: usize,
    num_siblings_after: usize,
) -> &'static Syntax<'static> {
    Box::leak(Box::new(Syntax::Atom {
        info: SyntaxInfo {
            id,
            next_sibling,
            num_after,
            num_siblings_after,
        },
    }))
}

fn list(
    id: u32,
    next_sibling: Option<&'static Syntax<'static>>,
    num_descendants: u32,
) -> &'static Syntax<'static> {
    Box::leak(Box::new(Syntax::List {
        info: SyntaxInfo {
            id,
            next_sibling,
            num_after: 0,
            num_siblings_after: 0,
        },
        num_descendants,
    }))
}

#[test]
fn counts_of_nodes_and_trees() {
    assert_eq!(node_count(None), 0);
    assert_eq!(tree_count(None), 0);
    let last = list(3, None, 7);
    let middle = atom(2, Some(last), 1, 1);
    let first = list(1, Some(middle), 5);
    assert_eq!(node_count(Some(first)), 15);
    assert_eq!(tree_count(Some(first)), 3);
    assert_eq!(node_count(Some(middle)), 9);
    assert_eq!(tree_count(Some(last)), 1);
}

#[test]
fn empty_list_is_a_node() {
    let empty = list(1, None, 0);
    assert_eq!(node_count(Some(empty)), 1);
    assert_eq!(tree_count(Some(empty)), 1);
}

#[test]
fn atoms_are_all_the_nodes() {
    let last = atom(3, None, 0, 0);
    let first = atom(1, Some(atom(2, Some(last), 1, 1)), 2, 2);
    assert_eq!(node_count(Some(first)), 3);
    assert_eq!(tree_count(Some(first)), 3);
}

#[test]
fn counts_that_are_too_large() {
    assert!(check_countable(None));
    let last = list(2, None, u32::MAX - 2);
    let first = atom(1, Some(last), 0, 0);
    assert!(check_countable(Some(first)));
    assert_eq!(node_count(Some(first)), u32::MAX);
    let last = list(2, None, u32::MAX - 1);
    assert!(check_countable(Some(last)));
    assert!(!check_countable(Some(atom(1, Some(last), 0, 0))));
    assert!(!check_countable(Some(list(1, None, u32::MAX))));

    assert!(check_reservable(0));
    assert!(check_reservable(usize::MAX / 128));
    assert!(!check_reservable(usize::MAX / 128 + 1));
}

fn priced(unchanged: u64, novel: u64, exit: u64) -> Listing<'static> {
    Listing {
        rows: vec![],
        prices: vec![
            (
                Edge::UnchangedNode {
                    depth_difference: 0,
                },
                unchanged,
            ),
            (Edge::NovelAtomLHS { contiguous: true }, novel),
            (Edge::ExitDelimiterBoth, exit),
        ],
        other_price: 1,
    }
}

#[test]
fn estimate_by_levels() {
    let graph = priced(1, 300, 7);
    // At this level two nodes face three, above it three face none.
    let v = Vertex {
        lhs_syntax: Some(atom(1, None, 5, 2)),
        rhs_syntax: Some(atom(2, None, 3, 3)),
        num_parents: 2,
        end: false,
        key: 0,
    };
    assert_eq!(estimated_distance_remaining(&graph, &v), 2 + 4 * 300 + 2 * 7);
    let swapped = Vertex {
        lhs_syntax: v.rhs_syntax,
        rhs_syntax: v.lhs_syntax,
        ..v
    };
    assert_eq!(estimated_distance_remaining(&graph, &swapped), 1216);
}

#[test]
fn estimate_with_one_side_exhausted() {
    let graph = priced(2, 50, 3);
    let v = Vertex {
        lhs_syntax: None,
        rhs_syntax: Some(atom(1, None, 4, 1)),
        num_parents: 1,
        end: false,
        key: 0,
    };
    assert_eq!(estimated_distance_remaining(&graph, &v), 4 * 50 + 3);
    assert_eq!(estimated_distance_remaining(&graph, &vertex(0, true)), 0);
}

#[test]
fn estimate_where_all_can_be_matched() {
    let graph = priced(2, 50, 3);
    let v = Vertex {
        lhs_syntax: Some(atom(1, None, 6, 4)),
        rhs_syntax: Some(atom(2, None, 6, 4)),
        num_parents: 0,
        end: false,
        key: 0,
    };
    assert_eq!(estimated_distance_remaining(&graph, &v), 12);
}

#[test]
fn order_by_first() {
    let one = OrdByFirst(1, "b");
    let same = OrdByFirst(1, "a");
    let two = OrdByFirst(2, "a");
    assert!(one == same);
    assert!(one != two);
    assert!(one < two);
    assert_eq!(one.partial_cmp(&same), Some(Ordering::Equal));
    assert_eq!(two.partial_cmp(&one), Some(Ordering::Greater));
    assert_eq!(one.cmp(&two), Ordering::Less);
    assert_eq!(one.cmp(&same), Ordering::Equal);
}

#[test]
fn heap_hands_out_the_least() {
    let mut heap = MinHeap::new();
    for n in [5, 3, 8, 1, 9, 2, 7, 3, 6, 4, 0] {
        heap.push(OrdByFirst(n, n * 10));
    }
    let mut popped = vec![];
    while let Some(OrdByFirst(n, value)) = heap.pop() {
        assert_eq!(value, n * 10);
        popped.push(n);
    }
    assert_eq!(popped, vec![0, 1, 2, 3, 3, 4, 5, 6, 7, 8, 9]);
    assert!(heap.pop().is_none());
}

#[test]
fn marks_of_each_edge() {
    let (lhs, rhs) = (atom(1, None, 0, 0), atom(2, None, 0, 0));
    let v = Vertex {
        lhs_syntax: Some(lhs),
        rhs_syntax: Some(rhs),
        ..vertex(0, false)
    };
    let marks = |edge: Edge| {
        let mut changes = ChangeMap::default();
        changes.insert_step(edge, &v);
        (changes.get(lhs), changes.get(rhs))
    };
    let unchanged = (
        Some(ChangeKind::Unchanged(2)),
        Some(ChangeKind::Unchanged(1)),
    );
    assert_eq!(
        marks(Edge::UnchangedNode {
            depth_difference: 3
        }),
        unchanged
    );
    assert_eq!(
        marks(Edge::EnterUnchangedDelimiter {
            depth_difference: 3
        }),
        unchanged
    );
    assert_eq!(
        marks(Edge::ReplacedComment { levenshtein_pct: 9 }),
        (
            Some(ChangeKind::ReplacedComment(2)),
            Some(ChangeKind::ReplacedComment(1))
        )
    );
    let novel = Some(ChangeKind::Novel);
    assert_eq!(marks(Edge::NovelAtomLHS { contiguous: true }), (novel, None));
    assert_eq!(marks(Edge::NovelAtomRHS { contiguous: true }), (None, novel));
    assert_eq!(
        marks(Edge::EnterNovelDelimiterLHS { contiguous: true }),
        (novel, None)
    );
    assert_eq!(
        marks(Edge::EnterNovelDelimiterRHS { contiguous: true }),
        (None, novel)
    );
    assert_eq!(marks(Edge::ExitDelimiterLHS), (None, None));
    assert_eq!(marks(Edge::ExitDelimiterRHS), (None, None));
    assert_eq!(marks(Edge::ExitDelimiterBoth), (None, None));
}

#[test]
fn mark_syntax_records_the_route() {
    // Left: a, b. Right: a. The first nodes match, the last has no counterpart.
    let last = atom(2, None, 0, 0);
    let first = atom(1, Some(last), 1, 1);
    let other = atom(3, None, 0, 0);
    let unchanged = Edge::UnchangedNode {
        depth_difference: 0,
    };
    let novel = Edge::NovelAtomLHS { contiguous: true };
    let mut graph = priced(1, 300, 1);
    graph.rows = vec![
        Row {
            vertex: Vertex {
                lhs_syntax: Some(first),
                rhs_syntax: Some(other),
                ..vertex(0, false)
            },
            edges: vec![(unchanged, 1)],
        },
        Row {
            vertex: Vertex {
                lhs_syntax: Some(last),
                ..vertex(1, false)
            },
            edges: vec![(novel, 2)],
        },
        Row {
            vertex: vertex(2, true),
            edges: vec![],
        },
    ];
    assert!(graph.check());

    let route = diff_route(&graph, Some(first), Some(other), 10).unwrap();
    let edges: Vec<Edge> = route.iter().map(|(edge, _)| *edge).collect();
    assert_eq!(edges, vec![unchanged, novel]);

    let mut changes = ChangeMap::default();
    changes.insert(last, ChangeKind::Unchanged(9));
    assert!(mark_syntax(&graph, Some(first), Some(other), &mut changes, 10).is_ok());
    assert_eq!(changes.get(first), Some(ChangeKind::Unchanged(3)));
    assert_eq!(changes.get(other), Some(ChangeKind::Unchanged(1)));
    assert_eq!(changes.get(last), Some(ChangeKind::Novel));
    assert_eq!(changes.get(atom(4, None, 0, 0)), None);
}

#[test]
fn length_of_what_is_shown() {
    assert_eq!(print_length(false), 5);
    assert_eq!(print_length(true), 50);
}

#[test]
fn listings_that_do_not_fit_together() {
    assert!(detour().check());

    let mut graph = detour();
    graph.rows[2].vertex.key = 1;
    assert!(!graph.check());

    let mut graph = detour();
    graph.rows[2].edges[0].1 = 2;
    assert!(!graph.check());

    let mut graph = detour();
    graph.rows[2].edges[0].1 = 4;
    assert!(!graph.check());

    let mut graph = detour();
    graph.rows[2].edges.clear();
    assert!(!graph.check());

    let mut graph = detour();
    graph.rows[0].edges = vec![(step(1), 3); 13];
    assert!(!graph.check());

    let mut graph = detour();
    graph.rows[0].vertex.lhs_syntax = Some(atom(1, None, 1, 2));
    assert!(!graph.check());

    let mut graph = detour();
    graph.rows[0].vertex.rhs_syntax = Some(atom(1, None, LIMIT as usize + 1, 0));
    assert!(!graph.check());

    let mut graph = detour();
    graph.rows[0].vertex.num_parents = LIMIT as usize + 1;
    assert!(!graph.check());

    let mut graph = detour();
    graph.prices[0].1 = LIMIT + 1;
    assert!(!graph.check());

    let mut graph = detour();
    graph.other_price = LIMIT + 1;
    assert!(!graph.check());
}
