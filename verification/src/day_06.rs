//! A branching tree of named nodes with fruit at some leaves.

use vstd::prelude::*;

verus! {

/// One node of the tree: the root, a named branch, or a fruit.
pub enum Node {
    Root { children: Vec<usize> },
    Branch { name: Vec<u8>, parent: usize, children: Vec<usize>, depth: usize },
    Fruit { parent: usize, depth: usize },
}

impl Node {
    /// The parent index of a node; the root has none.
    pub fn parent(&self) -> (r: Option<usize>)
        ensures
            r == self.spec_parent(),
    {
        match self {
            Node::Root { .. } => Option::None,
            Node::Branch { parent, .. } => Option::Some(*parent),
            Node::Fruit { parent, .. } => Option::Some(*parent),
        }
    }

    pub open spec fn spec_parent(&self) -> Option<usize> {
        match self {
            Node::Root { .. } => Option::None,
            Node::Branch { parent, .. } => Option::Some(*parent),
            Node::Fruit { parent, .. } => Option::Some(*parent),
        }
    }
}

/// Tree solver: the parsed nodes and the index of the root.
pub struct Day06 {
    nodes: Vec<Node>,
    root: usize,
}

impl Day06 {
    /// An empty tree.
    pub fn new() -> (r: Self)
        ensures
            r.nodes_view().len() == 0,
    {
        Day06 { nodes: Vec::new(), root: 0 }
    }

    pub closed spec fn nodes_view(&self) -> Seq<Node> {
        self.nodes@
    }

    /// Adds one parsed node and returns its index.
    pub fn push_node(&mut self, node: Node) -> (r: usize)
        ensures
            final(self).nodes_view() == old(self).nodes_view().push(node),
            r as int == old(self).nodes_view().len(),
    {
        let r = self.nodes.len();
        self.nodes.push(node);
        r
    }

    /// Walks from `idx` toward the root for at most `fuel` steps and
    /// reports whether the root was reached.
    pub fn reaches_root(&self, idx: usize, fuel: usize) -> (r: bool)
        requires
            (idx as int) < self.nodes_view().len(),
        ensures
            r == root_reached(self.nodes_view(), idx as int, fuel as nat),
    {
        let mut at = idx;
        let mut left = fuel;
        while left > 0
            invariant
                (at as int) < self.nodes_view().len(),
                root_reached(self.nodes_view(), idx as int, fuel as nat) == root_reached(
                    self.nodes_view(),
                    at as int,
                    left as nat,
                ),
            decreases left,
        {
            match self.nodes[at].parent() {
                Option::None => {
                    return true;
                },
                Option::Some(p) => {
                    if p >= self.nodes.len() {
                        return false;
                    }
                    at = p;
                },
            }
            left = left - 1;
        }
        false
    }
}

/// Whether following parent links from `idx` hits the root within `fuel`
/// steps, without ever leaving the node table.
pub open spec fn root_reached(nodes: Seq<Node>, idx: int, fuel: nat) -> bool
    decreases fuel,
{
    if fuel == 0 {
        false
    } else {
        match nodes[idx].spec_parent() {
            Option::None => true,
            Option::Some(p) => {
                if (p as int) >= nodes.len() {
                    false
                } else {
                    root_reached(nodes, p as int, (fuel - 1) as nat)
                }
            },
        }
    }
}

} // verus!
