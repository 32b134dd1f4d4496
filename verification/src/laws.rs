//! What holds of the sorted array, for every array that can be sorted.

use crate::node::NodeView;
use crate::order::{
    acyclic, after_passes, arranged, below, contents, generator, list_obeys, numbers, obeys,
    ordered, parents_of, relabeled, relinked, rewritten, settles_after, shape_in_bounds, shape_of,
    well_formed,
};
use crate::permutation::{
    identity, is_permutation, lemma_placed_by_identity, lemma_source_of_image,
    lemma_source_of_is_source, placed, source_of,
};
use crate::progress::{lemma_generator_is, lemma_generator_settles, lemma_settled_stays};
use crate::retracer::{displaced, lemma_identity_displaces_none};
use vstd::prelude::*;

verus! {

/// The children lists of well-formed nodes name positions of the array only.
pub proof fn lemma_well_formed_shape<C>(nodes: Seq<NodeView<C>>)
    requires
        well_formed(nodes),
    ensures
        shape_in_bounds(shape_of(nodes)),
        shape_of(nodes).len() == nodes.len(),
{
    let shape = shape_of(nodes);
    assert forall|i: int| 0 <= i < shape.len() implies below(#[trigger] shape[i], shape.len()) by {
        assert(below(nodes[i].children, nodes.len()));
    }
}

/// The positions as numbers: `0, 1, 2, ..` up to `n`.
pub open spec fn positions(n: nat) -> Seq<int> {
    Seq::new(n, |i: int| i)
}

/// A shape is ordered exactly if the positions themselves are a numbering
/// that obeys it.
pub proof fn lemma_ordered_is_positions_obeyed(shape: Seq<Seq<usize>>)
    requires
        shape_in_bounds(shape),
    ensures
        ordered(shape) <==> obeys(positions(shape.len()), shape),
{
    let id = positions(shape.len());
    if ordered(shape) {
        assert forall|i: int| 0 <= i < shape.len() implies list_obeys(
            id,
            i,
            #[trigger] shape[i],
        ) by {
            let ch = shape[i];
            assert(below(ch, shape.len()));
            assert forall|j: int| 0 <= j < ch.len() implies id[i] < id[#[trigger] ch[j] as int] by {
                assert(i < shape[i][j]);
            }
            assert forall|j: int, k: int| 0 <= j < k < ch.len() implies id[#[trigger] ch[j] as int]
                < id[#[trigger] ch[k] as int] by {
                assert(shape[i][j] < shape[i][k]);
            }
        }
    }
    if obeys(id, shape) {
        assert forall|i: int, j: int| 0 <= i < shape.len() && 0 <= j < shape[i].len() implies i
            < #[trigger] shape[i][j] by {
            assert(list_obeys(id, i, shape[i]));
            assert(below(shape[i], shape.len()));
            assert(id[i] < id[shape[i][j] as int]);
        }
        assert forall|i: int, j: int, k: int|
            0 <= i < shape.len() && 0 <= j < k < shape[i].len() implies #[trigger] shape[i][j]
            < #[trigger] shape[i][k] by {
            assert(list_obeys(id, i, shape[i]));
            assert(below(shape[i], shape.len()));
            assert(id[shape[i][j] as int] < id[shape[i][k] as int]);
        }
    }
}

/// The node that stood at `i` stands at `g[i]` in the sorted array, `g` being
/// the generator, and each of its links names `g[p]` where it named `p`. So a
/// link names the node that it named before: what stood at `p` stands at
/// `g[p]`.
pub proof fn lemma_arranged_at<C>(nodes: Seq<NodeView<C>>, i: int)
    requires
        nodes.len() <= usize::MAX,
        well_formed(nodes),
        acyclic(shape_of(nodes)),
        0 <= i < nodes.len(),
    ensures
        generator(shape_of(nodes))[i] < nodes.len(),
        arranged(nodes)[generator(shape_of(nodes))[i] as int] == relinked(
            nodes[i],
            generator(shape_of(nodes)),
        ),
{
    let g = generator(shape_of(nodes));
    lemma_well_formed_shape(nodes);
    lemma_generator_settles(shape_of(nodes));
    lemma_source_of_image(g, i);
}

/// Sorting establishes the order: in the sorted array every child stands
/// after its parent and after the children listed before it, and every link
/// still names a position of the array.
pub proof fn lemma_arranged_is_ordered<C>(nodes: Seq<NodeView<C>>)
    requires
        nodes.len() <= usize::MAX,
        well_formed(nodes),
        acyclic(shape_of(nodes)),
    ensures
        arranged(nodes).len() == nodes.len(),
        well_formed(arranged(nodes)),
        ordered(shape_of(arranged(nodes))),
{
    let shape = shape_of(nodes);
    let g = generator(shape);
    let n = nodes.len();
    lemma_well_formed_shape(nodes);
    lemma_generator_settles(shape);
    let sorted = arranged(nodes);
    let after = shape_of(sorted);
    assert forall|p: int| 0 <= p < n implies below((#[trigger] sorted[p]).parents, n) && below(
        sorted[p].children,
        n,
    ) by {
        lemma_source_of_is_source(g, p);
        let s = source_of(g, p);
        assert(sorted[p] == relinked(nodes[s], g));
        assert(below(nodes[s].parents, n) && below(nodes[s].children, n));
    }
    assert forall|p: int, j: int| 0 <= p < after.len() && 0 <= j < after[p].len() implies p
        < #[trigger] after[p][j] by {
        lemma_source_of_is_source(g, p);
        let s = source_of(g, p);
        assert(sorted[p] == relinked(nodes[s], g));
        assert(list_obeys(numbers(g), s, shape[s]));
        assert(below(shape[s], shape.len()));
        assert(numbers(g)[s] < numbers(g)[shape[s][j] as int]);
    }
    assert forall|p: int, j: int, k: int|
        0 <= p < after.len() && 0 <= j < k < after[p].len() implies #[trigger] after[p][j]
        < #[trigger] after[p][k] by {
        lemma_source_of_is_source(g, p);
        let s = source_of(g, p);
        assert(sorted[p] == relinked(nodes[s], g));
        assert(list_obeys(numbers(g), s, shape[s]));
        assert(below(shape[s], shape.len()));
        assert(numbers(g)[shape[s][j] as int] < numbers(g)[shape[s][k] as int]);
    }
}

/// If `g` sends the positions of `from` to different positions of `to`, and
/// `to` holds at `g[i]` what `from` holds at `i`, then both hold the same
/// items the same number of times.
proof fn lemma_moved_items<A>(from: Seq<A>, to: Seq<A>, g: Seq<usize>)
    requires
        from.len() == to.len(),
        from.len() == g.len(),
        forall|i: int| 0 <= i < g.len() ==> #[trigger] g[i] < g.len(),
        forall|i: int, j: int| 0 <= i < j < g.len() ==> #[trigger] g[i] != #[trigger] g[j],
        forall|i: int| 0 <= i < g.len() ==> to[#[trigger] g[i] as int] == from[i],
    ensures
        from.to_multiset() == to.to_multiset(),
    decreases from.len(),
{
    if from.len() == 0 {
        assert(from =~= to);
    } else {
        let last = from.len() - 1;
        let q = g[last] as int;
        let shorter = from.drop_last();
        let without = to.remove(q);
        let h = Seq::new(
            last as nat,
            |i: int|
                if g[i] < q {
                    g[i]
                } else {
                    (g[i] - 1) as usize
                },
        );
        assert forall|i: int| 0 <= i < h.len() implies without[#[trigger] h[i] as int]
            == shorter[i] by {
            assert(g[i] != g[last]);
            assert(to[g[i] as int] == from[i]);
        }
        assert forall|i: int, j: int| 0 <= i < j < h.len() implies #[trigger] h[i]
            != #[trigger] h[j] by {
            assert(g[i] != g[j]);
            assert(g[i] != g[last]);
            assert(g[j] != g[last]);
        }
        assert forall|i: int| 0 <= i < h.len() implies #[trigger] h[i] < h.len() by {
            assert(g[i] != g[last]);
            assert(g[i] < g.len());
        }
        lemma_moved_items(shorter, without, h);
        assert(from =~= shorter.push(from[last]));
        assert(to =~= without.insert(q, to[q]));
        vstd::seq_lib::to_multiset_build(shorter, from[last]);
        vstd::seq_lib::to_multiset_insert(without, q, to[q]);
    }
}

/// Moving items by a permutation neither adds nor drops nor doubles one.
pub proof fn lemma_placed_keeps_items<A>(items: Seq<A>, g: Seq<usize>)
    requires
        g.len() == items.len(),
        is_permutation(g),
    ensures
        placed(items, g).to_multiset() == items.to_multiset(),
{
    let to = placed(items, g);
    assert forall|i: int| 0 <= i < g.len() implies to[#[trigger] g[i] as int] == items[i] by {
        lemma_source_of_image(g, i);
    }
    lemma_moved_items(items, to, g);
}

/// Sorting is a rearrangement: what the nodes hold besides their links is the
/// same before and after, each content as often as before.
pub proof fn lemma_arranged_keeps_contents<C>(nodes: Seq<NodeView<C>>)
    requires
        nodes.len() <= usize::MAX,
        well_formed(nodes),
        acyclic(shape_of(nodes)),
    ensures
        contents(arranged(nodes)).to_multiset() == contents(nodes).to_multiset(),
{
    let g = generator(shape_of(nodes));
    lemma_well_formed_shape(nodes);
    lemma_generator_settles(shape_of(nodes));
    assert forall|p: int| 0 <= p < nodes.len() implies contents(arranged(nodes))[p] == placed(
        contents(nodes),
        g,
    )[p] by {
        lemma_source_of_is_source(g, p);
    }
    assert(contents(arranged(nodes)) =~= placed(contents(nodes), g));
    lemma_placed_keeps_items(contents(nodes), g);
}

/// The sorted array holds exactly the nodes of the array with their links
/// rewritten, each as often as before.
pub proof fn lemma_arranged_keeps_nodes<C>(nodes: Seq<NodeView<C>>)
    requires
        nodes.len() <= usize::MAX,
        well_formed(nodes),
        acyclic(shape_of(nodes)),
    ensures
        arranged(nodes).to_multiset() == rewritten(nodes, generator(shape_of(nodes))).to_multiset(),
{
    let g = generator(shape_of(nodes));
    lemma_well_formed_shape(nodes);
    lemma_generator_settles(shape_of(nodes));
    lemma_placed_keeps_items(rewritten(nodes, g), g);
}

/// An ordered shape is acyclic: the positions themselves are a numbering
/// that obeys it.
pub proof fn lemma_ordered_is_acyclic(shape: Seq<Seq<usize>>)
    requires
        shape_in_bounds(shape),
        ordered(shape),
    ensures
        acyclic(shape),
{
    lemma_ordered_is_positions_obeyed(shape);
}

/// On an ordered shape nothing is exchanged: the generator is the identity
/// from the start and stays it through every pass, so it names no node that
/// would have to move.
pub proof fn lemma_ordered_needs_no_exchange(shape: Seq<Seq<usize>>, rounds: nat)
    requires
        shape.len() <= usize::MAX,
        shape_in_bounds(shape),
        ordered(shape),
    ensures
        after_passes(shape, rounds) == identity(shape.len()),
        generator(shape) == identity(shape.len()),
        displaced(generator(shape), shape.len() as int) == 0,
{
    lemma_identity_displaces_none(shape.len(), shape.len() as int);
    lemma_ordered_is_positions_obeyed(shape);
    assert(numbers(identity(shape.len())) =~= positions(shape.len()));
    assert(settles_after(shape, 0));
    lemma_settled_stays(shape, 0, rounds);
    lemma_generator_is(shape, 0);
}

/// Rewriting links by the identity changes no link that names a position of
/// the array.
proof fn lemma_rewritten_by_identity<C>(nodes: Seq<NodeView<C>>)
    requires
        nodes.len() <= usize::MAX,
        well_formed(nodes),
    ensures
        rewritten(nodes, identity(nodes.len())) == nodes,
{
    let id = identity(nodes.len());
    assert forall|i: int| 0 <= i < nodes.len() implies relinked(nodes[i], id) == nodes[i] by {
        assert(below(nodes[i].parents, nodes.len()));
        assert(below(nodes[i].children, nodes.len()));
        assert(relabeled(nodes[i].parents, id) =~= nodes[i].parents);
        assert(relabeled(nodes[i].children, id) =~= nodes[i].children);
    }
    assert(rewritten(nodes, id) =~= nodes);
}

/// Sorting what is ordered changes nothing.
pub proof fn lemma_ordered_is_fixed<C>(nodes: Seq<NodeView<C>>)
    requires
        nodes.len() <= usize::MAX,
        well_formed(nodes),
        ordered(shape_of(nodes)),
    ensures
        arranged(nodes) == nodes,
{
    lemma_well_formed_shape(nodes);
    lemma_ordered_needs_no_exchange(shape_of(nodes), 0);
    lemma_rewritten_by_identity(nodes);
    lemma_placed_by_identity(nodes);
}

/// Sorting twice gives what sorting once gives.
pub proof fn lemma_sorting_twice<C>(nodes: Seq<NodeView<C>>)
    requires
        nodes.len() <= usize::MAX,
        well_formed(nodes),
        acyclic(shape_of(nodes)),
    ensures
        arranged(arranged(nodes)) == arranged(nodes),
{
    lemma_arranged_is_ordered(nodes);
    lemma_ordered_is_fixed(arranged(nodes));
}

/// `nodes` with one more node at the end: a leaf with the given content,
/// entered as the last child of the node at `parent`.
pub open spec fn with_leaf<C>(nodes: Seq<NodeView<C>>, parent: int, content: C) -> Seq<
    NodeView<C>,
> {
    nodes.update(
        parent,
        NodeView {
            content: nodes[parent].content,
            parents: nodes[parent].parents,
            children: nodes[parent].children.push(nodes.len() as usize),
        },
    ).push(NodeView { content, parents: seq![parent as usize], children: Seq::empty() })
}

/// An ordered array stays ordered when a leaf is added at its end, whichever
/// node becomes the parent of the leaf.
pub proof fn lemma_leaf_keeps_order<C>(nodes: Seq<NodeView<C>>, parent: int, content: C)
    requires
        nodes.len() < usize::MAX,
        well_formed(nodes),
        ordered(shape_of(nodes)),
        0 <= parent < nodes.len(),
    ensures
        well_formed(with_leaf(nodes, parent, content)),
        ordered(shape_of(with_leaf(nodes, parent, content))),
        arranged(with_leaf(nodes, parent, content)) == with_leaf(nodes, parent, content),
{
    let n = nodes.len() as int;
    let grown = with_leaf(nodes, parent, content);
    let shape = shape_of(nodes);
    let after = shape_of(grown);
    assert forall|i: int| 0 <= i < grown.len() implies below(
        (#[trigger] grown[i]).parents,
        grown.len(),
    ) && below(grown[i].children, grown.len()) by {
        if i < n {
            assert(below(nodes[i].parents, nodes.len()));
            assert(below(nodes[i].children, nodes.len()));
        }
    }
    assert forall|i: int, j: int| 0 <= i < after.len() && 0 <= j < after[i].len() implies i
        < #[trigger] after[i][j] by {
        if i < n && j < shape[i].len() {
            assert(i < shape[i][j]);
            assert(after[i][j] == shape[i][j]);
        }
    }
    assert forall|i: int, j: int, k: int|
        0 <= i < after.len() && 0 <= j < k < after[i].len() implies #[trigger] after[i][j]
        < #[trigger] after[i][k] by {
        assert(i < n);
        assert(below(nodes[i].children, nodes.len()));
        assert(after[i][j] == shape[i][j]);
        if k < shape[i].len() {
            assert(shape[i][j] < shape[i][k]);
            assert(after[i][k] == shape[i][k]);
        }
    }
    lemma_ordered_is_fixed(grown);
}

/// Where the nodes go depends on the children lists alone: arrays with the
/// same children lists have the same generator, their contents are moved in
/// the same way, and their sorted arrays have the same children lists again,
/// and the same parents lists if they had the same before.
pub proof fn lemma_same_shape_same_places<C, D>(a: Seq<NodeView<C>>, b: Seq<NodeView<D>>)
    requires
        a.len() <= usize::MAX,
        well_formed(a),
        acyclic(shape_of(a)),
        shape_of(a) == shape_of(b),
    ensures
        generator(shape_of(a)) == generator(shape_of(b)),
        contents(arranged(a)) == placed(contents(a), generator(shape_of(a))),
        contents(arranged(b)) == placed(contents(b), generator(shape_of(a))),
        shape_of(arranged(a)) == shape_of(arranged(b)),
        parents_of(a) == parents_of(b) ==> parents_of(arranged(a)) == parents_of(arranged(b)),
{
    let g = generator(shape_of(a));
    lemma_well_formed_shape(a);
    lemma_generator_settles(shape_of(a));
    assert(b.len() == shape_of(b).len());
    assert forall|p: int| 0 <= p < a.len() implies shape_of(arranged(a))[p] == shape_of(
        arranged(b),
    )[p] by {
        lemma_source_of_is_source(g, p);
        let s = source_of(g, p);
        assert(shape_of(a)[s] == a[s].children);
        assert(shape_of(b)[s] == b[s].children);
    }
    assert forall|p: int| 0 <= p < a.len() implies contents(arranged(a))[p] == placed(
        contents(a),
        g,
    )[p] && contents(arranged(b))[p] == placed(contents(b), g)[p] by {
        lemma_source_of_is_source(g, p);
    }
    assert(shape_of(arranged(a)) =~= shape_of(arranged(b)));
    assert(contents(arranged(a)) =~= placed(contents(a), g));
    assert(contents(arranged(b)) =~= placed(contents(b), g));
    if parents_of(a) == parents_of(b) {
        assert forall|p: int| 0 <= p < a.len() implies parents_of(arranged(a))[p] == parents_of(
            arranged(b),
        )[p] by {
            lemma_source_of_is_source(g, p);
            let s = source_of(g, p);
            assert(parents_of(a)[s] == a[s].parents);
            assert(parents_of(b)[s] == b[s].parents);
        }
        assert(parents_of(arranged(a)) =~= parents_of(arranged(b)));
    }
}

/// No node is a child twice: any two entries of the children lists name
/// different nodes.
pub open spec fn single_parent(shape: Seq<Seq<usize>>) -> bool {
    forall|i: int, j: int, k: int, m: int|
        0 <= i < shape.len() && 0 <= j < shape[i].len() && 0 <= k < shape.len() && 0 <= m
            < shape[k].len() && (i != k || j != m) ==> #[trigger] shape[i][j]
            != #[trigger] shape[k][m]
}

/// `depth` gives every child the level below that of its parent.
pub open spec fn levels(depth: Seq<int>, shape: Seq<Seq<usize>>) -> bool {
    &&& depth.len() == shape.len()
    &&& forall|i: int, j: int|
        0 <= i < shape.len() && 0 <= j < shape[i].len() ==> depth[#[trigger] shape[i][j] as int]
            == depth[i] + 1
}

/// The children lists describe a forest: no node is a child twice, and the
/// nodes can be put on levels, every child one level below its parent.
pub open spec fn forest(shape: Seq<Seq<usize>>) -> bool {
    &&& single_parent(shape)
    &&& exists|depth: Seq<int>| levels(depth, shape)
}

/// The length of the longest among the first `k` children lists.
pub open spec fn widest(shape: Seq<Seq<usize>>, k: int) -> nat
    decreases k,
{
    if k <= 0 {
        0
    } else if shape[k - 1].len() > widest(shape, k - 1) {
        shape[k - 1].len()
    } else {
        widest(shape, k - 1)
    }
}

/// None of the first `k` children lists is longer than the longest of them.
proof fn lemma_widest_bounds(shape: Seq<Seq<usize>>, k: int, i: int)
    requires
        0 <= i < k <= shape.len(),
    ensures
        shape[i].len() <= widest(shape, k),
    decreases k,
{
    if i < k - 1 {
        lemma_widest_bounds(shape, k - 1, i);
    }
}

/// Whether the node at `x` is a child of some node.
pub open spec fn is_child(shape: Seq<Seq<usize>>, x: int) -> bool {
    exists|i: int, j: int|
        0 <= i < shape.len() && 0 <= j < shape[i].len() && #[trigger] shape[i][j] == x
}

/// Where the node at `x` stands in the children list that names it, or zero
/// for a node that no list names.
pub open spec fn slot(shape: Seq<Seq<usize>>, x: int) -> int {
    if is_child(shape, x) {
        let (i, j) = choose|i: int, j: int|
            0 <= i < shape.len() && 0 <= j < shape[i].len() && #[trigger] shape[i][j] == x;
        j
    } else {
        0
    }
}

/// A forest is acyclic: numbering the nodes level by level, and the children
/// of one node along their list, obeys the shape.
pub proof fn lemma_forest_is_acyclic(shape: Seq<Seq<usize>>)
    requires
        shape_in_bounds(shape),
        forest(shape),
    ensures
        acyclic(shape),
{
    let n = shape.len() as int;
    let depth = choose|depth: Seq<int>| levels(depth, shape);
    let width = widest(shape, n) + 1;
    let order = Seq::new(shape.len(), |x: int| depth[x] * width + slot(shape, x));
    assert forall|x: int| 0 <= x < n implies 0 <= #[trigger] slot(shape, x) < width by {
        if is_child(shape, x) {
            let (i, j) = choose|i: int, j: int|
                0 <= i < shape.len() && 0 <= j < shape[i].len() && #[trigger] shape[i][j] == x;
            lemma_widest_bounds(shape, n, i);
        }
    }
    assert forall|i: int, j: int| 0 <= i < n && 0 <= j < shape[i].len() implies slot(
        shape,
        #[trigger] shape[i][j] as int,
    ) == j by {
        let x = shape[i][j] as int;
        assert(is_child(shape, x));
        let (k, m) = choose|k: int, m: int|
            0 <= k < shape.len() && 0 <= m < shape[k].len() && #[trigger] shape[k][m] == x;
        if k != i || m != j {
            assert(shape[i][j] != shape[k][m]);
        }
    }
    assert forall|i: int| 0 <= i < n implies list_obeys(order, i, #[trigger] shape[i]) by {
        let ch = shape[i];
        assert(below(ch, shape.len()));
        assert forall|j: int| 0 <= j < ch.len() implies order[i]
            < order[#[trigger] ch[j] as int] by {
            let c = shape[i][j] as int;
            assert(depth[c] == depth[i] + 1);
            assert(slot(shape, c) == j);
            assert((depth[i] + 1) * width == depth[i] * width + width) by (nonlinear_arith);
        }
        assert forall|j: int, k: int| 0 <= j < k < ch.len() implies order[#[trigger] ch[j] as int]
            < order[#[trigger] ch[k] as int] by {
            let a = shape[i][j] as int;
            let b = shape[i][k] as int;
            assert(depth[a] == depth[i] + 1);
            assert(depth[b] == depth[i] + 1);
            assert(slot(shape, a) == j);
            assert(slot(shape, b) == k);
        }
    }
    assert(obeys(order, shape));
}

} // verus!
