//! In-place topological sort of trees and directed acyclic graphs stored in a
//! flat array.
//!
//! The nodes live in one array and name their parents and children by
//! position. Sorting reorders the array so that every child stands after its
//! parent and after the children listed before it, and rewrites the positions
//! held by the nodes so that they name the same nodes as before.
//!
//! The work is done in three phases. The solving phase finds the generator, a
//! permutation that says where each node belongs, by exchanging entries of
//! the generator only. The rewriting phase makes every link follow the
//! generator. The retrace phase moves the nodes.

pub mod laws;
pub mod node;
pub mod order;
pub mod permutation;
pub mod progress;
pub mod retracer;
pub mod rewriter;
pub mod solver;
pub mod swap;

pub use crate::node::{DagEntry, DagNode, Linked, NodeView, TreeEntry, TreeNode};

use crate::laws::{
    lemma_arranged_is_ordered, lemma_arranged_keeps_contents, lemma_ordered_is_fixed,
};
use crate::node::{lemma_views_of_placed, views};
use crate::order::{acyclic, arranged, contents, ordered, shape_of, well_formed};
use crate::retracer::retrace;
use crate::rewriter::{rewrite, rewrite_dag};
use crate::solver::solve;
use vstd::prelude::*;

verus! {

/// Sorts a tree, or a forest, in place.
///
/// Afterwards every child stands after its parent and after the children
/// listed before it. The node that stood at `i` stands at `g[i]`, where `g` is
/// the generator of the children lists, and every parent and child position
/// `p` that a node held has become `g[p]`. Nothing else about a node changes.
///
/// The positions held by the nodes must lie in the array, and what the
/// children lists ask for must be free of contradiction: on other input the
/// solving phase would not end.
pub fn sort<N: TreeNode>(nodes: &mut [N])
    requires
        well_formed(views(old(nodes)@)),
        acyclic(shape_of(views(old(nodes)@))),
    ensures
        views(final(nodes)@) == arranged(views(old(nodes)@)),
        well_formed(views(final(nodes)@)),
        ordered(shape_of(views(final(nodes)@))),
        contents(views(final(nodes)@)).to_multiset() == contents(views(old(nodes)@)).to_multiset(),
        ordered(shape_of(views(old(nodes)@))) ==> views(final(nodes)@) == views(old(nodes)@),
{
    let ghost before = views(nodes@);
    proof {
        assert(nodes@.len() == nodes.len());
        lemma_arranged_is_ordered(before);
        lemma_arranged_keeps_contents(before);
        if ordered(shape_of(before)) {
            lemma_ordered_is_fixed(before);
        }
    }
    let mut gen = solve(nodes);
    rewrite(nodes, &gen);
    proof {
        lemma_views_of_placed(nodes@, gen@);
    }
    retrace(nodes, &mut gen);
}

/// Sorts a directed acyclic graph, stored as a tree with shared nodes, in
/// place.
///
/// Afterwards every child stands after each of its parents and after the
/// children listed before it in any children list. The node that stood at `i`
/// stands at `g[i]`, where `g` is the generator of the children lists, and
/// every parent and child position `p` that a node held has become `g[p]`,
/// entry by entry. Nothing else about a node changes.
///
/// The positions held by the nodes must lie in the array, and what the
/// children lists ask for must be free of contradiction: on other input the
/// solving phase would not end.
pub fn sort_dag<N: DagNode>(nodes: &mut [N])
    requires
        well_formed(views(old(nodes)@)),
        acyclic(shape_of(views(old(nodes)@))),
    ensures
        views(final(nodes)@) == arranged(views(old(nodes)@)),
        well_formed(views(final(nodes)@)),
        ordered(shape_of(views(final(nodes)@))),
        contents(views(final(nodes)@)).to_multiset() == contents(views(old(nodes)@)).to_multiset(),
        ordered(shape_of(views(old(nodes)@))) ==> views(final(nodes)@) == views(old(nodes)@),
{
    let ghost before = views(nodes@);
    proof {
        assert(nodes@.len() == nodes.len());
        lemma_arranged_is_ordered(before);
        lemma_arranged_keeps_contents(before);
        if ordered(shape_of(before)) {
            lemma_ordered_is_fixed(before);
        }
    }
    let mut gen = solve(nodes);
    rewrite_dag(nodes, &gen);
    proof {
        lemma_views_of_placed(nodes@, gen@);
    }
    retrace(nodes, &mut gen);
}

} // verus!
