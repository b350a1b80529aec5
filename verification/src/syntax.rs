//! Syntax nodes, as far as the search looks at them.

use vstd::prelude::*;

verus! {

/// What a node knows about its place in its tree.
pub struct SyntaxInfo<'a> {
    /// The number that tells this node from every other.
    pub id: u32,
    /// The next node with the same parent.
    pub next_sibling: Option<&'a Syntax<'a>>,
    /// How many nodes come after this one.
    pub num_after: usize,
    /// How many of the nodes after this one have the same parent.
    pub num_siblings_after: usize,
}

/// A node of a syntax tree.
pub enum Syntax<'a> {
    /// A delimited list of nodes.
    List {
        /// The list's place in its tree.
        info: SyntaxInfo<'a>,
        /// How many nodes there are inside the list, at any depth. The list itself
        /// is not among them.
        num_descendants: u32,
    },
    /// A single token.
    Atom {
        /// The atom's place in its tree.
        info: SyntaxInfo<'a>,
    },
}

impl<'a> Syntax<'a> {
    /// The node's place in its tree.
    pub open spec fn place(&self) -> SyntaxInfo<'a> {
        match self {
            Syntax::List { info, .. } => *info,
            Syntax::Atom { info } => *info,
        }
    }

    /// The siblings after a node are among the nodes after it.
    pub open spec fn wf(&self) -> bool {
        self.place().num_siblings_after <= self.place().num_after
    }

    /// How many nodes there are in the tree of this node: the node itself and all
    /// that are inside it.
    pub open spec fn size(&self) -> nat {
        match self {
            Syntax::List { num_descendants, .. } => 1 + *num_descendants as nat,
            Syntax::Atom { .. } => 1,
        }
    }

    /// The node's place in its tree.
    pub fn info(&self) -> (info: &SyntaxInfo<'a>)
        ensures
            *info == self.place(),
            match self {
                Syntax::List { info: place, .. } => *info == *place,
                Syntax::Atom { info: place } => *info == *place,
            },
    {
        match self {
            Syntax::List { info, .. } => info,
            Syntax::Atom { info } => info,
        }
    }

    /// The number that tells this node from every other.
    pub fn id(&self) -> (id: u32)
        ensures
            id == self.place().id,
    {
        self.info().id
    }

    /// The next node with the same parent.
    pub fn next_sibling(&self) -> (next: Option<&'a Syntax<'a>>)
        ensures
            next == self.place().next_sibling,
    {
        self.info().next_sibling
    }

    /// How many nodes come after this one.
    pub fn num_after(&self) -> (n: usize)
        ensures
            n == self.place().num_after,
    {
        self.info().num_after
    }

    /// How many nodes with the same parent come after this one.
    pub fn num_siblings_after(&self) -> (n: usize)
        ensures
            n == self.place().num_siblings_after,
    {
        self.info().num_siblings_after
    }
}

/// `root` and the siblings that follow it, in order.
pub open spec fn siblings<'a>(root: Option<&'a Syntax<'a>>) -> Seq<Syntax<'a>>
    decreases root,
{
    match root {
        Some(node) => seq![*node] + siblings(node.place().next_sibling),
        None => seq![],
    }
}

/// The sum of the sizes of `nodes`.
pub open spec fn total_size<'a>(nodes: Seq<Syntax<'a>>) -> nat
    decreases nodes.len(),
{
    if nodes.len() == 0 {
        0
    } else {
        nodes[0].size() + total_size(nodes.drop_first())
    }
}

/// A root splits into its first node and the siblings after that.
proof fn lemma_siblings_unfold<'a>(node: &'a Syntax<'a>)
    ensures
        siblings(Some(node)).len() == 1 + siblings(node.place().next_sibling).len(),
        total_size(siblings(Some(node))) == node.size() + total_size(
            siblings(node.place().next_sibling),
        ),
{
    assert(siblings(Some(node)).drop_first() =~= siblings(node.place().next_sibling));
}

/// A side without nodes counts for none. Otherwise its first node counts for itself
/// and, if it is a list, for each node inside it, and the siblings after it count for
/// what they would count for alone.
pub proof fn law_counts_add_up<'a>(node: &'a Syntax<'a>)
    ensures
        siblings(None::<&'a Syntax<'a>>).len() == 0,
        total_size(siblings(None::<&'a Syntax<'a>>)) == 0,
        siblings(Some(node)).len() == 1 + siblings(node.place().next_sibling).len(),
        total_size(siblings(Some(node))) == 1 + (match node {
            Syntax::List { num_descendants, .. } => *num_descendants as int,
            Syntax::Atom { .. } => 0,
        }) + total_size(siblings(node.place().next_sibling)),
{
    lemma_siblings_unfold(node);
}

/// Nodes that are linked to each other, from the first to the last, are all counted,
/// however many there are.
pub proof fn law_all_siblings_are_counted<'a>(nodes: Seq<&'a Syntax<'a>>)
    requires
        nodes.len() > 0,
        forall|i: int, j: int|
            0 <= i && i + 1 == j && j < nodes.len() ==> (#[trigger] nodes[i]).place().next_sibling
                == Some(#[trigger] nodes[j]),
        nodes.last().place().next_sibling is None,
    ensures
        siblings(Some(nodes[0])).len() == nodes.len(),
        forall|i: int|
            0 <= i < nodes.len() ==> (#[trigger] siblings(Some(nodes[0]))[i]) == *nodes[i],
        (forall|i: int| 0 <= i < nodes.len() ==> (#[trigger] nodes[i]) is Atom) ==> total_size(
            siblings(Some(nodes[0])),
        ) == nodes.len(),
    decreases nodes.len(),
{
    let all = siblings(Some(nodes[0]));
    lemma_siblings_unfold(nodes[0]);
    if nodes.len() > 1 {
        let rest = nodes.drop_first();
        assert(nodes[0].place().next_sibling == Some(nodes[1]));
        assert(rest[0] == nodes[1]);
        assert forall|i: int, j: int| 0 <= i && i + 1 == j && j < rest.len() implies (
        #[trigger] rest[i]).place().next_sibling == Some(#[trigger] rest[j]) by {
            assert(nodes[i + 1].place().next_sibling == Some(nodes[j + 1]));
        }
        law_all_siblings_are_counted(rest);
        assert(all =~= seq![*nodes[0]] + siblings(Some(rest[0])));
        assert forall|i: int| 0 <= i < nodes.len() implies (#[trigger] all[i]) == *nodes[i] by {
            if i > 0 {
                assert(siblings(Some(rest[0]))[i - 1] == *rest[i - 1]);
            }
        }
        if forall|i: int| 0 <= i < nodes.len() ==> (#[trigger] nodes[i]) is Atom {
            assert forall|i: int| 0 <= i < rest.len() implies (#[trigger] rest[i]) is Atom by {
                assert(rest[i] == nodes[i + 1]);
            }
            assert(nodes[0] is Atom);
        }
    } else {
        assert(nodes[0].place().next_sibling is None);
        assert(all =~= seq![*nodes[0]]);
        if forall|i: int| 0 <= i < nodes.len() ==> (#[trigger] nodes[i]) is Atom {
            assert(nodes[0] is Atom);
        }
    }
}

/// Every top-level node is a node, so there are never more of them. Where all of
/// them are atoms, there are no others.
pub proof fn law_trees_are_nodes<'a>(root: Option<&'a Syntax<'a>>)
    ensures
        siblings(root).len() <= total_size(siblings(root)),
        (forall|i: int| 0 <= i < siblings(root).len() ==> (#[trigger] siblings(root)[i]) is Atom)
            ==> siblings(root).len() == total_size(siblings(root)),
    decreases root,
{
    if let Some(node) = root {
        let rest = siblings(node.place().next_sibling);
        lemma_siblings_unfold(node);
        law_trees_are_nodes(node.place().next_sibling);
        if forall|i: int|
            0 <= i < siblings(root).len() ==> (#[trigger] siblings(root)[i]) is Atom {
            assert forall|i: int| 0 <= i < rest.len() implies (#[trigger] rest[i]) is Atom by {
                assert(siblings(root)[i + 1] == rest[i]);
            }
            assert(siblings(root)[0] == *node);
        }
    }
}

/// The nodes of a side, and so its top-level nodes, can be counted in a `u32`.
pub open spec fn countable<'a>(root: Option<&'a Syntax<'a>>) -> bool {
    total_size(siblings(root)) <= u32::MAX
}

/// Can the nodes of a side, and so its top-level nodes, be counted in a `u32`?
pub fn check_countable<'a>(root: Option<&'a Syntax<'a>>) -> (ok: bool)
    ensures
        ok == countable(root),
        ok == (total_size(siblings(root)) <= u32::MAX),
{
    let mut node: Option<&'a Syntax<'a>> = root;
    let mut nodes: u32 = 0;
    loop
        invariant
            nodes + total_size(siblings(node)) == total_size(siblings(root)),
        decreases node,
    {
        match node {
            Some(current_node) => {
                proof {
                    lemma_siblings_unfold(current_node);
                }
                let inside: u32 = match current_node {
                    Syntax::List { num_descendants, .. } => *num_descendants,
                    Syntax::Atom { .. } => 0,
                };
                if inside >= u32::MAX - nodes {
                    return false;
                }
                nodes = nodes + inside + 1;
                node = current_node.next_sibling();
            },
            None => {
                return true;
            },
        }
    }
}

/// What is the total number of AST nodes?
pub fn node_count<'a>(root: Option<&'a Syntax<'a>>) -> (count: u32)
    requires
        countable(root),
    ensures
        count == total_size(siblings(root)),
{
    let mut node: Option<&'a Syntax<'a>> = root;
    let mut count: u32 = 0;
    loop
        invariant
            count + total_size(siblings(node)) == total_size(siblings(root)),
            total_size(siblings(root)) <= u32::MAX,
        decreases node,
    {
        match node {
            Some(current_node) => {
                proof {
                    lemma_siblings_unfold(current_node);
                }
                let current_count: u32 = match current_node {
                    Syntax::List { num_descendants, .. } => 1 + *num_descendants,
                    Syntax::Atom { .. } => 1,
                };
                count = count + current_count;

                node = current_node.next_sibling();
            },
            None => {
                return count;
            },
        }
    }
}

/// How many top-level AST nodes do we have?
pub fn tree_count<'a>(root: Option<&'a Syntax<'a>>) -> (count: u32)
    requires
        siblings(root).len() <= u32::MAX,
    ensures
        count == siblings(root).len(),
{
    let mut node: Option<&'a Syntax<'a>> = root;
    let mut count: u32 = 0;
    loop
        invariant
            count + siblings(node).len() == siblings(root).len(),
            siblings(root).len() <= u32::MAX,
        decreases node,
    {
        match node {
            Some(current_node) => {
                proof {
                    lemma_siblings_unfold(current_node);
                }
                count = count + 1;
                node = current_node.next_sibling();
            },
            None => {
                return count;
            },
        }
    }
}

} // verus!
