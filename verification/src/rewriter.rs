//! The rewriting phase: makes every link follow the generator while the
//! nodes stay where they are.

use crate::node::{option_seq, views, DagNode, TreeNode};
use crate::order::{below, relabeled, rewritten, well_formed};
use vstd::prelude::*;

verus! {

/// Replaces every position in `list` by where `gen` sends it.
fn relabel(list: &mut [usize], gen: &Vec<usize>)
    requires
        below(old(list)@, gen@.len()),
    ensures
        final(list)@ == relabeled(old(list)@, gen@),
{
    let count: usize = list.len();
    let mut j: usize = 0;
    while j < count
        invariant
            count == list@.len(),
            list@.len() == old(list)@.len(),
            j <= count,
            below(old(list)@, gen@.len()),
            forall|m: int| 0 <= m < j ==> list@[m] == gen@[old(list)@[m] as int],
            forall|m: int| j <= m < count ==> list@[m] == old(list)@[m],
        decreases count - j,
    {
        list[j] = gen[list[j]];
        j += 1;
    }
    assert(list@ =~= relabeled(old(list)@, gen@));
}

/// Replaces an optional position by where `gen` sends it.
fn relabel_parent(parent: &mut Option<usize>, gen: &Vec<usize>)
    requires
        below(option_seq(*old(parent)), gen@.len()),
    ensures
        option_seq(*final(parent)) == relabeled(option_seq(*old(parent)), gen@),
{
    match *parent {
        Some(p) => {
            assert(option_seq(Some(p))[0] == p);
            *parent = Some(gen[p]);
        },
        None => {},
    }
    assert(option_seq(*parent) =~= relabeled(option_seq(*old(parent)), gen@));
}

/// The rewriting phase for trees. Every parent and every child position `p`
/// held by a node becomes `gen[p]`; no node moves and nothing else changes.
pub fn rewrite<N: TreeNode>(nodes: &mut [N], gen: &Vec<usize>)
    requires
        gen@.len() == old(nodes)@.len(),
        well_formed(views(old(nodes)@)),
    ensures
        views(final(nodes)@) == rewritten(views(old(nodes)@), gen@),
{
    let n: usize = nodes.len();
    let mut i: usize = 0;
    while i < n
        invariant
            n == nodes@.len(),
            n == old(nodes)@.len(),
            gen@.len() == n,
            i <= n,
            well_formed(views(old(nodes)@)),
            forall|m: int|
                0 <= m < i ==> (#[trigger] views(nodes@)[m]) == rewritten(
                    views(old(nodes)@),
                    gen@,
                )[m],
            forall|m: int| i <= m < n ==> (#[trigger] views(nodes@)[m]) == views(old(nodes)@)[m],
        decreases n - i,
    {
        let ghost held = views(nodes@);
        assert(held[i as int] == views(old(nodes)@)[i as int]);
        relabel_parent(nodes[i].get_parent(), gen);
        relabel(nodes[i].get_children(), gen);
        assert forall|m: int| 0 <= m < n && m != i implies (#[trigger] views(nodes@)[m])
            == held[m] by {}
        i += 1;
    }
    assert(views(nodes@) =~= rewritten(views(old(nodes)@), gen@));
}

/// The rewriting phase for graphs. Every parent and every child position `p`
/// held by a node becomes `gen[p]`, entry by entry; no node moves and nothing
/// else changes.
pub fn rewrite_dag<N: DagNode>(nodes: &mut [N], gen: &Vec<usize>)
    requires
        gen@.len() == old(nodes)@.len(),
        well_formed(views(old(nodes)@)),
    ensures
        views(final(nodes)@) == rewritten(views(old(nodes)@), gen@),
{
    let n: usize = nodes.len();
    let mut i: usize = 0;
    while i < n
        invariant
            n == nodes@.len(),
            n == old(nodes)@.len(),
            gen@.len() == n,
            i <= n,
            well_formed(views(old(nodes)@)),
            forall|m: int|
                0 <= m < i ==> (#[trigger] views(nodes@)[m]) == rewritten(
                    views(old(nodes)@),
                    gen@,
                )[m],
            forall|m: int| i <= m < n ==> (#[trigger] views(nodes@)[m]) == views(old(nodes)@)[m],
        decreases n - i,
    {
        let ghost held = views(nodes@);
        assert(held[i as int] == views(old(nodes)@)[i as int]);
        relabel(nodes[i].get_parents(), gen);
        relabel(nodes[i].get_children(), gen);
        assert forall|m: int| 0 <= m < n && m != i implies (#[trigger] views(nodes@)[m])
            == held[m] by {}
        i += 1;
    }
    assert(views(nodes@) =~= rewritten(views(old(nodes)@), gen@));
}

} // verus!
