//! Nodes of a tree or a directed acyclic graph that live in one flat array and
//! name each other by position in that array.

use crate::permutation::{is_permutation, lemma_source_of_is_source, placed};
use vstd::prelude::*;

verus! {

/// What sorting sees of a node: the positions it names as parents and as
/// children, and everything else it holds.
#[verifier::ext_equal]
pub struct NodeView<C> {
    /// Everything but the links. Sorting moves it and never changes it.
    pub content: C,
    /// Positions of the parents, in stored order.
    pub parents: Seq<usize>,
    /// Positions of the children, in stored order.
    pub children: Seq<usize>,
}

/// A node that can hand out its list of children.
///
/// The three spec functions say what a node is made of, and the accessors
/// are held to them: an accessor is a window on one part of the node, and
/// what is written through it changes that part and no other. A verified
/// implementation defines the spec functions for its layout. They have bodies
/// here, which say nothing, so that an implementation written in ordinary
/// Rust has only the accessors to provide; what sorting promises of such
/// nodes rests on its accessors being windows of this kind.
pub trait Linked: Sized {
    /// Type of what a node holds besides its links.
    type Content;

    /// Everything the node holds besides its links.
    open spec fn content(&self) -> Self::Content {
        arbitrary()
    }

    /// Positions of the node's parents: none or one in a tree, any number in
    /// a graph.
    open spec fn parents(&self) -> Seq<usize> {
        arbitrary()
    }

    /// Positions of the node's children, in order.
    open spec fn children(&self) -> Seq<usize> {
        arbitrary()
    }

    /// Mutable access to the positions of the children. Writing through the
    /// result changes the children and nothing else.
    fn get_children(&mut self) -> (list: &mut [usize])
        ensures
            list@ == old(self).children(),
            final(self).children() == final(list)@,
            final(self).parents() == old(self).parents(),
            final(self).content() == old(self).content(),
    ;
}

/// A node with at most one parent.
pub trait TreeNode: Linked {
    /// Mutable access to the position of the parent. Writing through the
    /// result changes the parent and nothing else.
    fn get_parent(&mut self) -> (parent: &mut Option<usize>)
        ensures
            old(self).parents() == option_seq(*parent),
            final(self).parents() == option_seq(*final(parent)),
            final(self).children() == old(self).children(),
            final(self).content() == old(self).content(),
    ;
}

/// A node that may be shared between several parents.
pub trait DagNode: Linked {
    /// Mutable access to the positions of the parents. Writing through the
    /// result changes the parents and nothing else.
    fn get_parents(&mut self) -> (list: &mut [usize])
        ensures
            list@ == old(self).parents(),
            final(self).parents() == final(list)@,
            final(self).children() == old(self).children(),
            final(self).content() == old(self).content(),
    ;
}

/// An optional position as a list of no or one position.
pub open spec fn option_seq(p: Option<usize>) -> Seq<usize> {
    match p {
        Some(i) => seq![i],
        None => Seq::empty(),
    }
}

/// The view of one node.
pub open spec fn view_of<N: Linked>(node: N) -> NodeView<N::Content> {
    NodeView { content: node.content(), parents: node.parents(), children: node.children() }
}

/// The views of all nodes of an array, position by position.
pub open spec fn views<N: Linked>(nodes: Seq<N>) -> Seq<NodeView<N::Content>> {
    Seq::new(nodes.len(), |i: int| view_of(nodes[i]))
}

/// Moving nodes and then viewing them is viewing them and then moving the
/// views.
pub proof fn lemma_views_of_placed<N: Linked>(nodes: Seq<N>, g: Seq<usize>)
    requires
        g.len() == nodes.len(),
        is_permutation(g),
    ensures
        views(placed(nodes, g)) == placed(views(nodes), g),
{
    assert forall|p: int| 0 <= p < nodes.len() implies views(placed(nodes, g))[p] == placed(
        views(nodes),
        g,
    )[p] by {
        lemma_source_of_is_source(g, p);
    }
    assert(views(placed(nodes, g)) =~= placed(views(nodes), g));
}

/// A ready-made tree node: a value, an optional parent and ordered children.
#[derive(Debug, PartialEq, Eq)]
pub struct TreeEntry<V> {
    /// The value carried by the node.
    pub val: V,
    /// Position of the parent, if the node has one.
    pub parent: Option<usize>,
    /// Positions of the children, in order.
    pub children: Vec<usize>,
}

impl<V> Linked for TreeEntry<V> {
    type Content = V;

    open spec fn content(&self) -> V {
        self.val
    }

    open spec fn parents(&self) -> Seq<usize> {
        option_seq(self.parent)
    }

    open spec fn children(&self) -> Seq<usize> {
        self.children@
    }

    fn get_children(&mut self) -> (list: &mut [usize]) {
        self.children.as_mut_slice()
    }
}

impl<V> TreeNode for TreeEntry<V> {
    fn get_parent(&mut self) -> (parent: &mut Option<usize>) {
        &mut self.parent
    }
}

/// A ready-made graph node: a value, any number of parents and ordered
/// children.
#[derive(Debug, PartialEq, Eq)]
pub struct DagEntry<V> {
    /// The value carried by the node.
    pub val: V,
    /// Positions of the parents.
    pub parents: Vec<usize>,
    /// Positions of the children, in order.
    pub children: Vec<usize>,
}

impl<V> Linked for DagEntry<V> {
    type Content = V;

    open spec fn content(&self) -> V {
        self.val
    }

    open spec fn parents(&self) -> Seq<usize> {
        self.parents@
    }

    open spec fn children(&self) -> Seq<usize> {
        self.children@
    }

    fn get_children(&mut self) -> (list: &mut [usize]) {
        self.children.as_mut_slice()
    }
}

impl<V> DagNode for DagEntry<V> {
    fn get_parents(&mut self) -> (list: &mut [usize]) {
        self.parents.as_mut_slice()
    }
}

} // verus!
