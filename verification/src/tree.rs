//! Isolation trees: binary trees of splits, each on one feature at one value.

use vstd::prelude::*;

verus! {

/// An isolation tree, as the contracts see it: no tree at all, or a split
/// with a subtree on either side.
pub enum Tree {
    Leaf,
    Split { feature: Seq<char>, value: u64, left: Box<Tree>, right: Box<Tree> },
}

/// A node of an isolation tree: a split on one feature at one value, with
/// a subtree on either side.
#[derive(Debug, PartialEq, Eq)]
pub struct Node {
    pub feature_name: String,
    pub split_value: u64,
    pub left: NodeLink,
    pub right: NodeLink,
}

/// A tree: its root node, which owns the nodes below it.
pub type NodeBox = Box<Node>;

/// The place of a subtree, which may be absent.
pub type NodeLink = Option<Box<Node>>;

/// The trees of a forest.
pub type NodeList = Vec<Box<Node>>;

/// The tree below a link; an absent node is a leaf.
pub open spec fn tree_of(link: NodeLink) -> Tree
    decreases link,
{
    match link {
        None => Tree::Leaf,
        Some(node) => Tree::Split {
            feature: node.feature_name@,
            value: node.split_value,
            left: Box::new(tree_of(node.left)),
            right: Box::new(tree_of(node.right)),
        },
    }
}

impl View for Node {
    type V = Tree;

    open spec fn view(&self) -> Tree {
        Tree::Split {
            feature: self.feature_name@,
            value: self.split_value,
            left: Box::new(tree_of(self.left)),
            right: Box::new(tree_of(self.right)),
        }
    }
}

/// The trees of a list of nodes, in order.
pub open spec fn trees_of(nodes: Seq<Box<Node>>) -> Seq<Tree> {
    Seq::new(nodes.len(), |i: int| nodes[i]@)
}

impl Tree {
    /// The number of splits on the longest way down.
    pub open spec fn height(self) -> nat
        decreases self,
    {
        match self {
            Tree::Leaf => 0,
            Tree::Split { left, right, .. } => {
                let l = left.height();
                let r = right.height();
                1 + if l >= r { l } else { r }
            },
        }
    }

    /// Whether every way down the tree has at most `limit` splits.
    pub open spec fn within(self, limit: nat) -> bool {
        self.height() <= limit
    }
}

impl Node {
    /// A split on the feature called `feature_name` at `split_value`, with
    /// nothing on either side.
    pub fn new(feature_name: &str, split_value: u64) -> (node: Node)
        ensures
            node.feature_name@ == feature_name@,
            node.split_value == split_value,
            node.left is None,
            node.right is None,
    {
        Node { feature_name: feature_name.to_owned(), split_value, left: None, right: None }
    }

    /// The name of the feature that the node splits on.
    pub fn get_feature_name(&self) -> (name: String)
        ensures
            name@ == self.feature_name@,
    {
        self.feature_name.clone()
    }

    /// Puts `subtree` on the left, where the values below the split value
    /// go.
    pub fn set_left_subtree(&mut self, subtree: NodeLink)
        ensures
            final(self).left == subtree,
            final(self).right == old(self).right,
            final(self).feature_name == old(self).feature_name,
            final(self).split_value == old(self).split_value,
    {
        self.left = subtree;
    }

    /// A copy of the subtree on the left.
    pub fn get_left_subtree(&self) -> (subtree: NodeLink)
        ensures
            tree_of(subtree) == tree_of(self.left),
    {
        copy_link(&self.left)
    }

    /// Puts `subtree` on the right, where the values from the split value
    /// on go.
    pub fn set_right_subtree(&mut self, subtree: NodeLink)
        ensures
            final(self).right == subtree,
            final(self).left == old(self).left,
            final(self).feature_name == old(self).feature_name,
            final(self).split_value == old(self).split_value,
    {
        self.right = subtree;
    }

    /// A copy of the subtree on the right.
    pub fn get_right_subtree(&self) -> (subtree: NodeLink)
        ensures
            tree_of(subtree) == tree_of(self.right),
    {
        copy_link(&self.right)
    }

    /// Whether every way down from this node, the node counted, has at most
    /// `limit` splits.
    pub fn fits_within(&self, limit: u32) -> (yes: bool)
        ensures
            yes == self@.within(limit as nat),
        decreases *self,
    {
        limit > 0 && fits_within(&self.left, limit - 1) && fits_within(&self.right, limit - 1)
    }
}

impl Clone for Node {
    fn clone(&self) -> (copy: Node)
        ensures
            copy@ == self@,
    {
        Node {
            feature_name: self.feature_name.clone(),
            split_value: self.split_value,
            left: copy_link(&self.left),
            right: copy_link(&self.right),
        }
    }
}

/// A copy of the tree below `link`, split for split.
pub fn copy_link(link: &NodeLink) -> (copy: NodeLink)
    ensures
        tree_of(copy) == tree_of(*link),
    decreases *link,
{
    match link {
        None => None,
        Some(node) => {
            let left = copy_link(&node.left);
            let right = copy_link(&node.right);
            Some(Box::new(Node {
                feature_name: node.feature_name.clone(),
                split_value: node.split_value,
                left,
                right,
            }))
        },
    }
}

/// Whether every way down the tree below `link` has at most `limit` splits.
pub fn fits_within(link: &NodeLink, limit: u32) -> (yes: bool)
    ensures
        yes == tree_of(*link).within(limit as nat),
    decreases *link,
{
    match link {
        None => true,
        Some(node) => node.fits_within(limit),
    }
}

} // verus!
