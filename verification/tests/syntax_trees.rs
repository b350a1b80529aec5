//! Diffs of small syntax trees.

use std::collections::HashMap;

use dijkstra::changes::{ChangeKind, ChangeMap};
use dijkstra::graph::Edge::{
    self, EnterNovelDelimiterLHS, EnterNovelDelimiterRHS, EnterUnchangedDelimiter,
    ExitDelimiterBoth, ExitDelimiterLHS, ExitDelimiterRHS, NovelAtomLHS, NovelAtomRHS,
    ReplacedComment, UnchangedNode,
};
use dijkstra::best_first::shortest_vertex_path;
use dijkstra::estimate::estimated_distance_remaining;
use dijkstra::graph::{Graph, Vertex};
use dijkstra::listing::{Listing, Row};
use dijkstra::mark::mark_syntax;
use dijkstra::route::{shortest_path, shortest_path_with_edges};
use dijkstra::syntax::{Syntax, SyntaxInfo};
use itertools::Itertools;
use typed_arena::Arena;

const DEFAULT_GRAPH_LIMIT: usize = 3_000_000;

#[derive(Clone, Copy)]
struct SingleLineSpan {
    line: u32,
    #[allow(dead_code)]
    start_col: u32,
    #[allow(dead_code)]
    end_col: u32,
}

fn pos_helper(line: u32) -> Vec<SingleLineSpan> {
    vec![SingleLineSpan {
        line,
        start_col: 0,
        end_col: 1,
    }]
}

fn col_helper(line: u32, col: u32) -> Vec<SingleLineSpan> {
    vec![SingleLineSpan {
        line,
        start_col: col,
        end_col: col + 1,
    }]
}

#[derive(Clone, Copy, PartialEq, Eq)]
enum AtomKind {
    Normal,
    Comment,
}

/// A syntax tree, before its nodes have been linked up.
#[derive(Clone)]
enum Tree {
    Atom {
        position: Vec<SingleLineSpan>,
        content: &'static str,
        kind: AtomKind,
    },
    List {
        open_content: &'static str,
        open_position: Vec<SingleLineSpan>,
        children: Vec<Tree>,
        close_content: &'static str,
        close_position: Vec<SingleLineSpan>,
    },
}

fn new_atom(position: Vec<SingleLineSpan>, content: &'static str, kind: AtomKind) -> Tree {
    Tree::Atom {
        position,
        content,
        kind,
    }
}

fn new_list(
    open_content: &'static str,
    open_position: Vec<SingleLineSpan>,
    children: Vec<Tree>,
    close_content: &'static str,
    close_position: Vec<SingleLineSpan>,
) -> Tree {
    Tree::List {
        open_content,
        open_position,
        children,
        close_content,
        close_position,
    }
}

impl Tree {
    fn first_line(&self) -> u32 {
        match self {
            Tree::Atom { position, .. } => position[0].line,
            Tree::List { open_position, .. } => open_position[0].line,
        }
    }

    fn last_line(&self) -> u32 {
        match self {
            Tree::Atom { position, .. } => position[position.len() - 1].line,
            Tree::List { close_position, .. } => close_position[close_position.len() - 1].line,
        }
    }

    fn num_descendants(&self) -> u32 {
        match self {
            Tree::Atom { .. } => 0,
            Tree::List { children, .. } => {
                children.iter().map(|child| child.num_descendants() + 1).sum()
            }
        }
    }

    /// Whether two trees have the same content, wherever they stand.
    fn same(&self, other: &Tree) -> bool {
        match (self, other) {
            (
                Tree::Atom { content, kind, .. },
                Tree::Atom {
                    content: other_content,
                    kind: other_kind,
                    ..
                },
            ) => content == other_content && kind == other_kind,
            (
                Tree::List {
                    open_content,
                    children,
                    close_content,
                    ..
                },
                Tree::List {
                    open_content: other_open,
                    children: other_children,
                    close_content: other_close,
                    ..
                },
            ) => {
                open_content == other_open
                    && close_content == other_close
                    && children.len() == other_children.len()
                    && children
                        .iter()
                        .zip(other_children)
                        .all(|(child, other)| child.same(other))
            }
            _ => false,
        }
    }
}

/// A node that has been linked up with its neighbours.
struct Node<'a> {
    tree: Tree,
    syntax: &'a Syntax<'a>,
    next: Option<usize>,
    children: Vec<usize>,
    num_ancestors: u32,
    prev_is_contiguous: bool,
}

/// Links up the trees of one side. Returns the nodes of the outermost level.
fn init_info<'a>(
    arena: &'a Arena<Syntax<'a>>,
    trees: &[Tree],
    parent: Option<&Tree>,
    parent_num_after: usize,
    num_ancestors: u32,
    nodes: &mut Vec<Node<'a>>,
) -> Vec<usize> {
    let mut level = vec![];
    let mut next: Option<usize> = None;
    for (i, tree) in trees.iter().enumerate().rev() {
        let num_siblings_after = trees.len() - 1 - i;
        let num_after = parent_num_after + num_siblings_after;
        let children = match tree {
            Tree::Atom { .. } => vec![],
            Tree::List { children, .. } => {
                init_info(arena, children, Some(tree), num_after, num_ancestors + 1, nodes)
            }
        };
        let prev_line = if i > 0 {
            Some(trees[i - 1].last_line())
        } else {
            parent.map(Tree::first_line)
        };
        let index = nodes.len();
        let info = SyntaxInfo {
            id: index as u32,
            next_sibling: next.map(|next| nodes[next].syntax),
            num_after,
            num_siblings_after,
        };
        let syntax: &'a Syntax<'a> = arena.alloc(match tree {
            Tree::Atom { .. } => Syntax::Atom { info },
            Tree::List { .. } => Syntax::List {
                info,
                num_descendants: tree.num_descendants(),
            },
        });
        nodes.push(Node {
            tree: tree.clone(),
            syntax,
            next,
            children,
            num_ancestors,
            prev_is_contiguous: prev_line == Some(tree.first_line()),
        });
        next = Some(index);
        level.push(index);
    }
    level.reverse();
    level
}

/// The lists that have been entered: those that can be left one side at a time,
/// and those that have to be left together.
#[derive(Clone, PartialEq, Eq, Hash)]
enum EnteredDelimiter {
    PopEither(Vec<usize>, Vec<usize>),
    PopBoth(usize, usize),
}

#[derive(Clone, PartialEq, Eq, Hash)]
struct State {
    lhs: Option<usize>,
    rhs: Option<usize>,
    parents: Vec<EnteredDelimiter>,
}

impl State {
    fn is_end(&self) -> bool {
        self.lhs.is_none() && self.rhs.is_none() && self.parents.is_empty()
    }

    fn num_parents(&self) -> usize {
        self.parents
            .iter()
            .map(|entered| match entered {
                EnteredDelimiter::PopEither(lhs, rhs) => lhs.len() + rhs.len(),
                EnteredDelimiter::PopBoth(_, _) => 1,
            })
            .sum()
    }

    fn enter(&self, lhs: Option<usize>, rhs: Option<usize>) -> Vec<EnteredDelimiter> {
        let mut parents = self.parents.clone();
        if let (Some(lhs), Some(rhs)) = (lhs, rhs) {
            parents.push(EnteredDelimiter::PopBoth(lhs, rhs));
            return parents;
        }
        if !matches!(parents.last(), Some(EnteredDelimiter::PopEither(_, _))) {
            parents.push(EnteredDelimiter::PopEither(vec![], vec![]));
        }
        if let Some(EnteredDelimiter::PopEither(lhs_lists, rhs_lists)) = parents.last_mut() {
            lhs_lists.extend(lhs);
            rhs_lists.extend(rhs);
        }
        parents
    }

    fn leave_both(&self) -> Option<(usize, usize, Vec<EnteredDelimiter>)> {
        let mut parents = self.parents.clone();
        match parents.pop() {
            Some(EnteredDelimiter::PopBoth(lhs, rhs)) => Some((lhs, rhs, parents)),
            _ => None,
        }
    }

    fn leave_one(&self, on_lhs: bool) -> Option<(usize, Vec<EnteredDelimiter>)> {
        let mut parents = self.parents.clone();
        match parents.pop() {
            Some(EnteredDelimiter::PopEither(mut lhs, mut rhs)) => {
                let left = if on_lhs { lhs.pop() } else { rhs.pop() }?;
                if !lhs.is_empty() || !rhs.is_empty() {
                    parents.push(EnteredDelimiter::PopEither(lhs, rhs));
                }
                Some((left, parents))
            }
            _ => None,
        }
    }
}

fn cost(edge: Edge) -> u64 {
    match edge {
        ExitDelimiterBoth => 1,
        ExitDelimiterLHS | ExitDelimiterRHS => 2,
        UnchangedNode { depth_difference } => u64::from(depth_difference + 1).min(40),
        EnterUnchangedDelimiter { depth_difference } => 100 + u64::from(depth_difference).min(40),
        ReplacedComment { levenshtein_pct } => 500 + u64::from(100 - levenshtein_pct),
        NovelAtomLHS { contiguous }
        | NovelAtomRHS { contiguous }
        | EnterNovelDelimiterLHS { contiguous }
        | EnterNovelDelimiterRHS { contiguous } => {
            if contiguous {
                300
            } else {
                350
            }
        }
    }
}

fn neighbours(nodes: &[Node], v: &State) -> Vec<(Edge, State)> {
    let mut found = vec![];
    if v.lhs.is_none() && v.rhs.is_none() {
        if let Some((lhs, rhs, parents)) = v.leave_both() {
            found.push((
                ExitDelimiterBoth,
                State {
                    lhs: nodes[lhs].next,
                    rhs: nodes[rhs].next,
                    parents,
                },
            ));
        }
    }
    if v.rhs.is_none() {
        if let Some((rhs, parents)) = v.leave_one(false) {
            found.push((
                ExitDelimiterRHS,
                State {
                    lhs: v.lhs,
                    rhs: nodes[rhs].next,
                    parents,
                },
            ));
        }
    }
    if v.lhs.is_none() {
        if let Some((lhs, parents)) = v.leave_one(true) {
            found.push((
                ExitDelimiterLHS,
                State {
                    lhs: nodes[lhs].next,
                    rhs: v.rhs,
                    parents,
                },
            ));
        }
    }

    if let (Some(lhs), Some(rhs)) = (v.lhs, v.rhs) {
        let depth_difference = nodes[lhs].num_ancestors.abs_diff(nodes[rhs].num_ancestors);
        let over_both = State {
            lhs: nodes[lhs].next,
            rhs: nodes[rhs].next,
            parents: v.parents.clone(),
        };
        if nodes[lhs].tree.same(&nodes[rhs].tree) {
            found.push((UnchangedNode { depth_difference }, over_both.clone()));
        }
        match (&nodes[lhs].tree, &nodes[rhs].tree) {
            (
                Tree::List {
                    open_content,
                    close_content,
                    ..
                },
                Tree::List {
                    open_content: rhs_open_content,
                    close_content: rhs_close_content,
                    ..
                },
            ) if open_content == rhs_open_content && close_content == rhs_close_content => {
                found.push((
                    EnterUnchangedDelimiter { depth_difference },
                    State {
                        lhs: nodes[lhs].children.first().copied(),
                        rhs: nodes[rhs].children.first().copied(),
                        parents: v.enter(Some(lhs), Some(rhs)),
                    },
                ));
            }
            (
                Tree::Atom {
                    content,
                    kind: AtomKind::Comment,
                    ..
                },
                Tree::Atom {
                    content: rhs_content,
                    kind: AtomKind::Comment,
                    ..
                },
            ) if content != rhs_content => {
                let similarity = strsim::normalized_levenshtein(content, rhs_content);
                let levenshtein_pct = (similarity * 100.0).round() as u8;
                found.push((ReplacedComment { levenshtein_pct }, over_both));
            }
            _ => {}
        }
    }

    if let Some(rhs) = v.rhs {
        let contiguous = nodes[rhs].prev_is_contiguous;
        match nodes[rhs].tree {
            Tree::Atom { .. } => found.push((
                NovelAtomRHS { contiguous },
                State {
                    rhs: nodes[rhs].next,
                    ..v.clone()
                },
            )),
            Tree::List { .. } => found.push((
                EnterNovelDelimiterRHS { contiguous },
                State {
                    lhs: v.lhs,
                    rhs: nodes[rhs].children.first().copied(),
                    parents: v.enter(None, Some(rhs)),
                },
            )),
        }
    }
    if let Some(lhs) = v.lhs {
        let contiguous = nodes[lhs].prev_is_contiguous;
        match nodes[lhs].tree {
            Tree::Atom { .. } => found.push((
                NovelAtomLHS { contiguous },
                State {
                    lhs: nodes[lhs].next,
                    ..v.clone()
                },
            )),
            Tree::List { .. } => found.push((
                EnterNovelDelimiterLHS { contiguous },
                State {
                    lhs: nodes[lhs].children.first().copied(),
                    rhs: v.rhs,
                    parents: v.enter(Some(lhs), None),
                },
            )),
        }
    }
    found
}

/// Visits everything that can be reached from `v`, and lists it, last things first.
fn explore(
    nodes: &[Node],
    v: &State,
    seen: &mut HashMap<State, usize>,
    order: &mut Vec<(State, Vec<(Edge, State)>)>,
) {
    if seen.contains_key(v) {
        return;
    }
    seen.insert(v.clone(), 0);
    let found = neighbours(nodes, v);
    for (_, next) in &found {
        explore(nodes, next, seen, order);
    }
    order.push((v.clone(), found));
}

/// Lists the graph of the ways to match up two lists of trees.
fn graph_of<'a>(arena: &'a Arena<Syntax<'a>>, lhs: &[Tree], rhs: &[Tree]) -> Listing<'a> {
    let mut nodes = vec![];
    let lhs_level = init_info(arena, lhs, None, 0, 0, &mut nodes);
    let rhs_level = init_info(arena, rhs, None, 0, 0, &mut nodes);
    let start = State {
        lhs: lhs_level.first().copied(),
        rhs: rhs_level.first().copied(),
        parents: vec![],
    };
    let mut seen = HashMap::new();
    let mut order = vec![];
    explore(&nodes, &start, &mut seen, &mut order);
    order.reverse();
    for (i, (v, _)) in order.iter().enumerate() {
        seen.insert(v.clone(), i);
    }

    let mut prices = vec![
        (UnchangedNode { depth_difference: 0 }, 1),
        (NovelAtomLHS { contiguous: true }, 300),
        (ExitDelimiterBoth, 1),
    ];
    let mut rows = vec![];
    for (i, (v, found)) in order.iter().enumerate() {
        for (edge, _) in found {
            if !prices.iter().any(|(priced, _)| priced == edge) {
                prices.push((*edge, cost(*edge)));
            }
        }
        rows.push(Row {
            vertex: Vertex {
                lhs_syntax: v.lhs.map(|lhs| nodes[lhs].syntax),
                rhs_syntax: v.rhs.map(|rhs| nodes[rhs].syntax),
                num_parents: v.num_parents(),
                end: v.is_end(),
                key: i as u64,
            },
            edges: found.iter().map(|(edge, next)| (*edge, seen[next])).collect(),
        });
    }
    let listing = Listing {
        rows,
        prices,
        other_price: 0,
    };
    assert!(listing.check());
    listing
}

fn actions(lhs: &[Tree], rhs: &[Tree]) -> Vec<Edge> {
    let arena = Arena::new();
    let graph = graph_of(&arena, lhs, rhs);
    let start = graph.rows[0].vertex;
    let route = shortest_path(&graph, start, 0, DEFAULT_GRAPH_LIMIT).unwrap();
    route.iter().map(|(action, _)| *action).collect_vec()
}

#[test]
fn identical_atoms() {
    let lhs = new_atom(pos_helper(0), "foo", AtomKind::Normal);
    // Same content as LHS.
    let rhs = new_atom(pos_helper(0), "foo", AtomKind::Normal);

    assert_eq!(
        actions(&[lhs], &[rhs]),
        vec![UnchangedNode {
            depth_difference: 0
        }]
    );
}

#[test]
fn extra_atom_lhs() {
    let lhs = vec![new_list(
        "[",
        pos_helper(0),
        vec![new_atom(pos_helper(1), "foo", AtomKind::Normal)],
        "]",
        pos_helper(2),
    )];

    let rhs = vec![new_list("[", pos_helper(0), vec![], "]", pos_helper(2))];

    assert_eq!(
        actions(&lhs, &rhs),
        vec![
            EnterUnchangedDelimiter {
                depth_difference: 0
            },
            NovelAtomLHS { contiguous: false },
            ExitDelimiterBoth,
        ]
    );
}

#[test]
fn repeated_atoms() {
    let lhs = vec![new_list("[", pos_helper(0), vec![], "]", pos_helper(2))];

    let rhs = vec![new_list(
        "[",
        pos_helper(0),
        vec![
            new_atom(pos_helper(1), "foo", AtomKind::Normal),
            new_atom(pos_helper(2), "foo", AtomKind::Normal),
        ],
        "]",
        pos_helper(3),
    )];

    assert_eq!(
        actions(&lhs, &rhs),
        vec![
            EnterUnchangedDelimiter {
                depth_difference: 0
            },
            NovelAtomRHS { contiguous: false },
            NovelAtomRHS { contiguous: false },
            ExitDelimiterBoth,
        ]
    );
}

#[test]
fn atom_after_empty_list() {
    let lhs = vec![new_list(
        "[",
        pos_helper(0),
        vec![
            new_list("(", pos_helper(1), vec![], ")", pos_helper(2)),
            new_atom(pos_helper(3), "foo", AtomKind::Normal),
        ],
        "]",
        pos_helper(4),
    )];

    let rhs = vec![new_list(
        "{",
        pos_helper(0),
        vec![
            new_list("(", pos_helper(1), vec![], ")", pos_helper(2)),
            new_atom(pos_helper(3), "foo", AtomKind::Normal),
        ],
        "}",
        pos_helper(4),
    )];

    assert_eq!(
        actions(&lhs, &rhs),
        vec![
            EnterNovelDelimiterRHS { contiguous: false },
            EnterNovelDelimiterLHS { contiguous: false },
            UnchangedNode {
                depth_difference: 0
            },
            UnchangedNode {
                depth_difference: 0
            },
            ExitDelimiterRHS,
            ExitDelimiterLHS,
        ],
    );
}

#[test]
fn prefer_atoms_same_line() {
    let lhs = vec![
        new_atom(col_helper(1, 0), "foo", AtomKind::Normal),
        new_atom(col_helper(2, 0), "bar", AtomKind::Normal),
        new_atom(col_helper(2, 1), "foo", AtomKind::Normal),
    ];

    let rhs = vec![new_atom(col_helper(1, 0), "foo", AtomKind::Normal)];

    assert_eq!(
        actions(&lhs, &rhs),
        vec![
            UnchangedNode {
                depth_difference: 0
            },
            NovelAtomLHS { contiguous: false },
            NovelAtomLHS { contiguous: true },
        ]
    );
}

#[test]
fn prefer_children_same_line() {
    let lhs = vec![new_list(
        "[",
        col_helper(1, 0),
        vec![new_atom(col_helper(1, 2), "1", AtomKind::Normal)],
        "]",
        pos_helper(2),
    )];

    let rhs = vec![];

    assert_eq!(
        actions(&lhs, &rhs),
        vec![
            EnterNovelDelimiterLHS { contiguous: false },
            NovelAtomLHS { contiguous: true },
            ExitDelimiterLHS,
        ]
    );
}

#[test]
fn atom_after_novel_list_contiguous() {
    let lhs = vec![
        new_list(
            "[",
            col_helper(1, 0),
            vec![new_atom(col_helper(1, 2), "1", AtomKind::Normal)],
            "]",
            col_helper(2, 1),
        ),
        new_atom(col_helper(2, 2), ";", AtomKind::Normal),
    ];

    let rhs = vec![];

    assert_eq!(
        actions(&lhs, &rhs),
        vec![
            EnterNovelDelimiterLHS { contiguous: false },
            NovelAtomLHS { contiguous: true },
            ExitDelimiterLHS,
            NovelAtomLHS { contiguous: true },
        ]
    );
}

#[test]
fn replace_similar_comment() {
    let lhs = vec![new_atom(
        pos_helper(1),
        "the quick brown fox",
        AtomKind::Comment,
    )];

    let rhs = vec![new_atom(
        pos_helper(1),
        "the quick brown cat",
        AtomKind::Comment,
    )];

    assert_eq!(
        actions(&lhs, &rhs),
        vec![ReplacedComment {
            levenshtein_pct: 84
        }]
    );
}

#[test]
fn replace_very_different_comment() {
    let lhs = vec![new_atom(
        pos_helper(1),
        "the quick brown fox",
        AtomKind::Comment,
    )];

    let rhs = vec![new_atom(pos_helper(1), "foo bar", AtomKind::Comment)];

    assert_eq!(
        actions(&lhs, &rhs),
        vec![ReplacedComment {
            levenshtein_pct: 11
        }]
    );
}

#[test]
fn replace_comment_prefer_most_similar() {
    let lhs = vec![
        new_atom(pos_helper(1), "the quick brown fox", AtomKind::Comment),
        new_atom(pos_helper(2), "the quick brown thing", AtomKind::Comment),
    ];

    let rhs = vec![new_atom(
        pos_helper(1),
        "the quick brown fox.",
        AtomKind::Comment,
    )];

    assert_eq!(
        actions(&lhs, &rhs),
        vec![
            ReplacedComment {
                levenshtein_pct: 95
            },
            NovelAtomLHS { contiguous: false }
        ]
    );
}

#[test]
fn mark_syntax_equal_atoms() {
    let lhs = new_atom(pos_helper(1), "foo", AtomKind::Normal);
    let rhs = new_atom(pos_helper(1), "foo", AtomKind::Normal);
    let arena = Arena::new();
    let graph = graph_of(&arena, &[lhs], &[rhs]);
    let lhs = graph.rows[0].vertex.lhs_syntax.unwrap();
    let rhs = graph.rows[0].vertex.rhs_syntax.unwrap();

    let mut change_map = ChangeMap::default();
    mark_syntax(
        &graph,
        Some(lhs),
        Some(rhs),
        &mut change_map,
        DEFAULT_GRAPH_LIMIT,
    )
    .unwrap();

    assert_eq!(change_map.get(lhs), Some(ChangeKind::Unchanged(rhs.id())));
    assert_eq!(change_map.get(rhs), Some(ChangeKind::Unchanged(lhs.id())));
}

#[test]
fn mark_syntax_different_atoms() {
    let lhs = new_atom(pos_helper(1), "foo", AtomKind::Normal);
    let rhs = new_atom(pos_helper(1), "bar", AtomKind::Normal);
    let arena = Arena::new();
    let graph = graph_of(&arena, &[lhs], &[rhs]);
    let lhs = graph.rows[0].vertex.lhs_syntax.unwrap();
    let rhs = graph.rows[0].vertex.rhs_syntax.unwrap();

    let mut change_map = ChangeMap::default();
    mark_syntax(
        &graph,
        Some(lhs),
        Some(rhs),
        &mut change_map,
        DEFAULT_GRAPH_LIMIT,
    )
    .unwrap();
    assert_eq!(change_map.get(lhs), Some(ChangeKind::Novel));
    assert_eq!(change_map.get(rhs), Some(ChangeKind::Novel));
}

/// Nested lists, some of which have moved.
fn nested() -> (Vec<Tree>, Vec<Tree>) {
    let atom = |line: u32, content: &'static str| {
        new_atom(pos_helper(line), content, AtomKind::Normal)
    };
    let list = |line: u32, children: Vec<Tree>| {
        new_list("(", pos_helper(line), children, ")", pos_helper(line))
    };
    let lhs = vec![
        list(1, vec![atom(1, "a"), list(2, vec![atom(2, "b"), atom(3, "c")])]),
        atom(4, "d"),
        list(5, vec![]),
    ];
    let rhs = vec![
        atom(1, "a"),
        list(2, vec![list(2, vec![atom(2, "b")]), atom(3, "c"), atom(3, "e")]),
        list(4, vec![atom(4, "d")]),
    ];
    (lhs, rhs)
}

#[test]
fn estimates_never_exceed_the_distance() {
    let (lhs, rhs) = nested();
    let arena = Arena::new();
    let graph = graph_of(&arena, &lhs, &rhs);
    assert!(graph.rows.len() > 100);
    assert!(graph.check_admissible(&graph.rows[0].vertex));
    let mut jumps = 0;
    for (row, distance) in graph.rows.iter().zip(graph.distances()) {
        let estimate = estimated_distance_remaining(&graph, &row.vertex);
        assert!(estimate <= distance);
        jumps += row
            .edges
            .iter()
            .filter(|(edge, target)| {
                let next = estimated_distance_remaining(&graph, &graph.rows[*target].vertex);
                estimate > graph.cost(*edge) + next
            })
            .count();
    }
    // Some edges lower the estimate by more than they cost.
    assert!(jumps > 0);
}

#[test]
fn nested_lists_at_the_least_cost() {
    let (lhs, rhs) = nested();
    let arena = Arena::new();
    let graph = graph_of(&arena, &lhs, &rhs);
    let start = graph.rows[0].vertex;
    let cost_of = |path: Vec<(Edge, Vertex)>| -> u64 {
        path.iter().map(|(edge, _)| graph.cost(*edge)).sum()
    };
    let least = graph.distances()[0];
    let path = shortest_path(&graph, start, 0, DEFAULT_GRAPH_LIMIT).unwrap();
    assert_eq!(cost_of(path), least);
    let route = shortest_vertex_path(&graph, start, 0, DEFAULT_GRAPH_LIMIT).unwrap();
    assert_eq!(cost_of(shortest_path_with_edges(&graph, &route)), least);
}

fn atoms(contents: &[&'static str]) -> Vec<Tree> {
    (1..)
        .zip(contents)
        .map(|(line, content)| new_atom(pos_helper(line), content, AtomKind::Normal))
        .collect()
}

fn enclosed(contents: &[&'static str]) -> Tree {
    new_list("(", pos_helper(9), atoms(contents), ")", pos_helper(9))
}

#[test]
fn estimates_without_lists() {
    let arena = Arena::new();
    let lhs = atoms(&["a", "b", "c", "d", "e"]);
    let rhs = atoms(&["b", "x", "d"]);
    let graph = graph_of(&arena, &lhs, &rhs);
    let start = graph.rows[0].vertex;
    assert!(graph.check_admissible(&start));
    assert!(estimated_distance_remaining(&graph, &start) <= graph.distances()[0]);
}

#[test]
fn estimate_of_nodes_that_a_list_encloses() {
    // At the start alone, the estimate is too high. That does no harm.
    let arena = Arena::new();
    let graph = graph_of(&arena, &atoms(&["x", "a", "b"]), &[enclosed(&["x", "a", "b"])]);
    let start = graph.rows[0].vertex;
    assert_eq!(estimated_distance_remaining(&graph, &start), 600);
    assert_eq!(graph.distances()[0], 358);
    assert!(graph.check_admissible(&start));
    let path = shortest_path(&graph, start, 0, DEFAULT_GRAPH_LIMIT).unwrap();
    assert_eq!(
        path.iter().map(|(edge, _)| graph.cost(*edge)).sum::<u64>(),
        358
    );
}

#[test]
fn estimate_of_nodes_that_a_list_encloses_later() {
    let arena = Arena::new();
    let mut rhs = atoms(&["y"]);
    rhs.push(enclosed(&["x", "a", "b"]));
    let graph = graph_of(&arena, &atoms(&["y", "x", "a", "b"]), &rhs);
    let start = graph.rows[0].vertex;
    assert!(!graph.check_admissible(&start));
    assert_eq!(graph.distances()[0], 359);

    let path = shortest_path(&graph, start, 0, DEFAULT_GRAPH_LIMIT).unwrap();
    let actions = path.iter().map(|(action, _)| *action).collect_vec();
    assert_eq!(
        actions,
        vec![
            UnchangedNode {
                depth_difference: 0
            },
            EnterNovelDelimiterRHS { contiguous: false },
            UnchangedNode {
                depth_difference: 1
            },
            UnchangedNode {
                depth_difference: 1
            },
            UnchangedNode {
                depth_difference: 1
            },
            ExitDelimiterRHS,
        ]
    );
    assert_eq!(actions.iter().map(|edge| graph.cost(*edge)).sum::<u64>(), 359);

    let (lhs, rhs) = (start.lhs_syntax, start.rhs_syntax);
    let list = rhs.unwrap().next_sibling().unwrap();
    let mut change_map = ChangeMap::default();
    mark_syntax(&graph, lhs, rhs, &mut change_map, DEFAULT_GRAPH_LIMIT).unwrap();
    assert_eq!(change_map.get(list), Some(ChangeKind::Novel));
    let mut node = lhs;
    while let Some(current) = node {
        assert!(matches!(
            change_map.get(current),
            Some(ChangeKind::Unchanged(_))
        ));
        node = current.next_sibling();
    }
}
