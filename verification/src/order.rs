//! The order that sorting establishes, and the generator that leads to it.
//!
//! A *shape* is the list of children lists of an array of nodes. It asks for
//! two things of any order of the nodes: a child comes after its parent, and a
//! child comes after the children listed before it under the same parent. The
//! generator is the permutation found by exchanging two of its entries
//! wherever one of these demands is violated, scanning nodes, children and
//! later siblings in ascending order, pass after pass, until a pass finds
//! nothing to exchange.

use crate::node::NodeView;
use crate::permutation::{identity, placed, swapped};
use vstd::prelude::*;

verus! {

/// The children lists of `nodes`, position by position.
pub open spec fn shape_of<C>(nodes: Seq<NodeView<C>>) -> Seq<Seq<usize>> {
    Seq::new(nodes.len(), |i: int| nodes[i].children)
}

/// The parents lists of `nodes`, position by position.
pub open spec fn parents_of<C>(nodes: Seq<NodeView<C>>) -> Seq<Seq<usize>> {
    Seq::new(nodes.len(), |i: int| nodes[i].parents)
}

/// What the nodes hold besides their links, position by position.
pub open spec fn contents<C>(nodes: Seq<NodeView<C>>) -> Seq<C> {
    Seq::new(nodes.len(), |i: int| nodes[i].content)
}

/// Every entry of `list` is a position below `n`.
pub open spec fn below(list: Seq<usize>, n: nat) -> bool {
    forall|j: int| 0 <= j < list.len() ==> #[trigger] list[j] < n
}

/// Every child named in `shape` is a position in it.
pub open spec fn shape_in_bounds(shape: Seq<Seq<usize>>) -> bool {
    forall|i: int| 0 <= i < shape.len() ==> below(#[trigger] shape[i], shape.len())
}

/// Every parent and every child named by a node is a position in `nodes`.
pub open spec fn well_formed<C>(nodes: Seq<NodeView<C>>) -> bool {
    forall|i: int|
        0 <= i < nodes.len() ==> below((#[trigger] nodes[i]).parents, nodes.len()) && below(
            nodes[i].children,
            nodes.len(),
        )
}

/// `order` gives the node at `i` a number below those of the children `ch`,
/// and gives each child a number below those of the children listed after it.
pub open spec fn list_obeys(order: Seq<int>, i: int, ch: Seq<usize>) -> bool {
    &&& forall|j: int| 0 <= j < ch.len() ==> order[i] < order[#[trigger] ch[j] as int]
    &&& forall|j: int, k: int|
        0 <= j < k < ch.len() ==> order[#[trigger] ch[j] as int] < order[#[trigger] ch[k] as int]
}

/// `order` gives every node of `shape` a number that is smaller than the
/// numbers of its children, and gives the children of one node numbers that
/// increase along the list.
pub open spec fn obeys(order: Seq<int>, shape: Seq<Seq<usize>>) -> bool {
    &&& order.len() == shape.len()
    &&& forall|i: int| 0 <= i < shape.len() ==> list_obeys(order, i, #[trigger] shape[i])
}

/// The demands of `shape` contradict each other nowhere: some numbering of
/// the nodes obeys them all. This is what makes a shape a tree, a forest or a
/// directed acyclic graph with ordered children.
pub open spec fn acyclic(shape: Seq<Seq<usize>>) -> bool {
    exists|order: Seq<int>| obeys(order, shape)
}

/// The entries of a generator as numbers.
pub open spec fn numbers(g: Seq<usize>) -> Seq<int> {
    Seq::new(g.len(), |x: int| g[x] as int)
}

/// The positions themselves obey `shape`: every child has a greater position
/// than its parent and than the children listed before it.
pub open spec fn ordered(shape: Seq<Seq<usize>>) -> bool {
    &&& forall|i: int, j: int|
        0 <= i < shape.len() && 0 <= j < shape[i].len() ==> i < #[trigger] shape[i][j]
    &&& forall|i: int, j: int, k: int|
        0 <= i < shape.len() && 0 <= j < k < shape[i].len() ==> #[trigger] shape[i][j]
            < #[trigger] shape[i][k]
}

/// One comparison of the solving phase: if `x` is to come before `y` and `g`
/// has them the other way round, their entries are exchanged.
pub open spec fn relaxed(g: Seq<usize>, x: int, y: int) -> Seq<usize> {
    if g[x] > g[y] {
        swapped(g, x, y)
    } else {
        g
    }
}

/// `g` after the child at `j` of `ch` was compared with the children at
/// `j + 1 .. k`.
pub open spec fn after_siblings(g: Seq<usize>, ch: Seq<usize>, j: int, k: int) -> Seq<usize>
    decreases k - j,
{
    if k <= j + 1 {
        g
    } else {
        relaxed(after_siblings(g, ch, j, k - 1), ch[j] as int, ch[k - 1] as int)
    }
}

/// `g` after the child at `j` of the node at `i` was compared with its parent
/// and then with every later child.
pub open spec fn after_child(g: Seq<usize>, i: int, ch: Seq<usize>, j: int) -> Seq<usize> {
    after_siblings(relaxed(g, i, ch[j] as int), ch, j, ch.len() as int)
}

/// `g` after the children at `0 .. j` of the node at `i` were handled.
pub open spec fn after_children(g: Seq<usize>, i: int, ch: Seq<usize>, j: int) -> Seq<usize>
    decreases j,
{
    if j <= 0 {
        g
    } else {
        after_child(after_children(g, i, ch, j - 1), i, ch, j - 1)
    }
}

/// `g` after the nodes at `0 .. i` were handled.
pub open spec fn after_nodes(g: Seq<usize>, shape: Seq<Seq<usize>>, i: int) -> Seq<usize>
    decreases i,
{
    if i <= 0 {
        g
    } else {
        after_children(
            after_nodes(g, shape, i - 1),
            i - 1,
            shape[i - 1],
            shape[i - 1].len() as int,
        )
    }
}

/// `g` after one pass over all nodes.
pub open spec fn pass(g: Seq<usize>, shape: Seq<Seq<usize>>) -> Seq<usize> {
    after_nodes(g, shape, shape.len() as int)
}

/// The generator after `rounds` passes, starting from the identity.
pub open spec fn after_passes(shape: Seq<Seq<usize>>, rounds: nat) -> Seq<usize>
    decreases rounds,
{
    if rounds == 0 {
        identity(shape.len())
    } else {
        pass(after_passes(shape, (rounds - 1) as nat), shape)
    }
}

/// After `rounds` passes the generator obeys `shape`, so no further pass
/// exchanges anything.
pub open spec fn settles_after(shape: Seq<Seq<usize>>, rounds: nat) -> bool {
    obeys(numbers(after_passes(shape, rounds)), shape)
}

/// The generator of `shape`: where each node goes. The node at `i` belongs at
/// `generator(shape)[i]`.
pub open spec fn generator(shape: Seq<Seq<usize>>) -> Seq<usize> {
    after_passes(shape, choose|rounds: nat| settles_after(shape, rounds))
}

/// `list` with every position replaced by where `g` sends it.
pub open spec fn relabeled(list: Seq<usize>, g: Seq<usize>) -> Seq<usize> {
    Seq::new(list.len(), |j: int| g[list[j] as int])
}

/// A node whose links follow `g`.
pub open spec fn relinked<C>(node: NodeView<C>, g: Seq<usize>) -> NodeView<C> {
    NodeView {
        content: node.content,
        parents: relabeled(node.parents, g),
        children: relabeled(node.children, g),
    }
}

/// All nodes with their links following `g`, each still at its old position.
pub open spec fn rewritten<C>(nodes: Seq<NodeView<C>>, g: Seq<usize>) -> Seq<NodeView<C>> {
    Seq::new(nodes.len(), |i: int| relinked(nodes[i], g))
}

/// The sorted array: every node moved to where the generator sends it, with
/// its links following.
pub open spec fn arranged<C>(nodes: Seq<NodeView<C>>) -> Seq<NodeView<C>> {
    let g = generator(shape_of(nodes));
    placed(rewritten(nodes, g), g)
}

} // verus!
