//! The solving phase: finds the generator without moving any node.

use crate::node::{views, Linked};
use crate::order::{
    acyclic, after_children, after_nodes, after_passes, after_siblings, below, generator,
    list_obeys, numbers, obeys, relaxed, shape_in_bounds, shape_of,
};
use crate::permutation::{identity, is_permutation, lemma_identity_is_permutation};
use crate::progress::{
    advances, ceiling, lemma_advances_to_itself, lemma_advances_twice, lemma_after_children,
    lemma_generator_is, lemma_pass, lemma_potential_bounded, lemma_relaxed_advances, potential,
};
use vstd::prelude::*;

verus! {

/// The identity generator for `n` nodes.
fn identity_generator(n: usize) -> (gen: Vec<usize>)
    ensures
        gen@ == identity(n as nat),
{
    let mut gen: Vec<usize> = Vec::with_capacity(n);
    let mut i: usize = 0;
    while i < n
        invariant
            i <= n,
            gen@ == identity(i as nat),
        decreases n - i,
    {
        gen.push(i);
        i += 1;
        assert(gen@ =~= identity(i as nat));
    }
    gen
}

/// Handles the children of the node at `i`: each child is compared with the
/// node, then with every later child, and entries of the generator are
/// exchanged where they stand the wrong way round. Tells whether anything was
/// exchanged.
fn settle_children(
    gen: &mut Vec<usize>,
    i: usize,
    children: &[usize],
    Ghost(rank): Ghost<Seq<int>>,
) -> (changed: bool)
    requires
        rank.len() == old(gen)@.len(),
        is_permutation(old(gen)@),
        i < old(gen)@.len(),
        below(children@, old(gen)@.len()),
        list_obeys(rank, i as int, children@),
    ensures
        final(gen)@ == after_children(old(gen)@, i as int, children@, children@.len() as int),
        changed == (final(gen)@ != old(gen)@),
{
    let ghost start = gen@;
    let count: usize = children.len();
    let mut changed: bool = false;
    proof {
        lemma_advances_to_itself(rank, start);
    }
    let mut j: usize = 0;
    while j < count
        invariant
            count == children@.len(),
            j <= count,
            rank.len() == start.len(),
            is_permutation(start),
            i < start.len(),
            below(children@, start.len()),
            list_obeys(rank, i as int, children@),
            gen@ == after_children(start, i as int, children@, j as int),
            advances(rank, start, gen@),
            changed == (gen@ != start),
        decreases count - j,
    {
        let a: usize = children[j];
        proof {
            lemma_relaxed_advances(rank, gen@, i as int, a as int);
            lemma_advances_twice(rank, start, gen@, relaxed(gen@, i as int, a as int));
        }
        // The child belongs after its parent.
        if gen[i] > gen[a] {
            gen.swap(i, a);
            changed = true;
        }
        let ghost first = gen@;
        let mut k: usize = j + 1;
        while k < count
            invariant
                count == children@.len(),
                j < k <= count,
                a == children@[j as int],
                rank.len() == start.len(),
                is_permutation(start),
                below(children@, start.len()),
                list_obeys(rank, i as int, children@),
                gen@ == after_siblings(first, children@, j as int, k as int),
                advances(rank, start, gen@),
                changed == (gen@ != start),
            decreases count - k,
        {
            let b: usize = children[k];
            proof {
                lemma_relaxed_advances(rank, gen@, a as int, b as int);
                lemma_advances_twice(rank, start, gen@, relaxed(gen@, a as int, b as int));
            }
            // A child belongs before the children listed after it.
            if gen[a] > gen[b] {
                gen.swap(a, b);
                changed = true;
            }
            k += 1;
        }
        j += 1;
    }
    changed
}

/// The solving phase. Starting from the identity, it passes over all nodes
/// and their children until a pass exchanges nothing, and returns the
/// generator it has reached: the node at `i` belongs at `gen[i]`. The nodes
/// are read and left as they are.
pub fn solve<N: Linked>(nodes: &mut [N]) -> (gen: Vec<usize>)
    requires
        shape_in_bounds(shape_of(views(old(nodes)@))),
        acyclic(shape_of(views(old(nodes)@))),
    ensures
        views(final(nodes)@) == views(old(nodes)@),
        gen@ == generator(shape_of(views(old(nodes)@))),
        gen@.len() == old(nodes)@.len(),
        is_permutation(gen@),
        obeys(numbers(gen@), shape_of(views(old(nodes)@))),
{
    let n: usize = nodes.len();
    let ghost shape = shape_of(views(nodes@));
    let ghost rank = choose|rank: Seq<int>| obeys(rank, shape);
    let ghost mut rounds: nat = 0;
    let mut gen = identity_generator(n);
    proof {
        lemma_identity_is_permutation(n as nat);
        lemma_potential_bounded(rank, gen@, n as int);
    }
    loop
        invariant_except_break
            gen@ == after_passes(shape, rounds),
        invariant
            n == nodes@.len(),
            shape == shape_of(views(nodes@)),
            views(nodes@) == views(old(nodes)@),
            shape_in_bounds(shape),
            obeys(rank, shape),
            gen@.len() == n,
            is_permutation(gen@),
            potential(rank, gen@, n as int) <= ceiling(rank, n as int, n as int),
        ensures
            gen@ == generator(shape),
            obeys(numbers(gen@), shape),
        decreases ceiling(rank, n as int, n as int) - potential(rank, gen@, n as int),
    {
        let ghost start = gen@;
        let mut changed: bool = false;
        proof {
            lemma_advances_to_itself(rank, start);
        }
        let mut i: usize = 0;
        while i < n
            invariant
                n == nodes@.len(),
                i <= n,
                shape == shape_of(views(nodes@)),
                views(nodes@) == views(old(nodes)@),
                shape_in_bounds(shape),
                obeys(rank, shape),
                start.len() == n,
                is_permutation(start),
                gen@ == after_nodes(start, shape, i as int),
                advances(rank, start, gen@),
                changed == (gen@ != start),
            decreases n - i,
        {
            let ghost before = gen@;
            let ghost held = views(nodes@);
            proof {
                assert(shape[i as int] == held[i as int].children);
                lemma_after_children(
                    rank,
                    before,
                    i as int,
                    shape[i as int],
                    shape[i as int].len() as int,
                );
                lemma_advances_twice(
                    rank,
                    start,
                    before,
                    after_children(before, i as int, shape[i as int], shape[i as int].len() as int),
                );
            }
            let moved: bool = settle_children(&mut gen, i, nodes[i].get_children(), Ghost(rank));
            assert(views(nodes@) =~= held);
            changed = changed || moved;
            i += 1;
        }
        proof {
            rounds = rounds + 1;
            lemma_pass(rank, start, shape);
            lemma_potential_bounded(rank, gen@, n as int);
        }
        if !changed {
            proof {
                lemma_generator_is(shape, rounds);
            }
            break ;
        }
    }
    gen
}

} // verus!
