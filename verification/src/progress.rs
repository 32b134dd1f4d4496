//! Why the solving phase ends, and what it has reached when it does.
//!
//! For a numbering `rank` that obeys the shape, the sum of `rank[x] * g[x]`
//! over all positions grows with every exchange that the solving phase makes,
//! and it cannot grow beyond a bound that depends on `rank` alone.

use crate::order::{
    acyclic, after_child, after_children, after_nodes, after_passes, after_siblings, below,
    generator, list_obeys, numbers, obeys, pass, relaxed, settles_after, shape_in_bounds,
};
use crate::permutation::{
    is_permutation, lemma_identity_is_permutation, lemma_swapped_is_permutation,
};
use vstd::prelude::*;

verus! {

/// The sum of `rank[x] * g[x]` over the positions `x` below `k`.
pub open spec fn potential(rank: Seq<int>, g: Seq<usize>, k: int) -> int
    decreases k,
{
    if k <= 0 {
        0
    } else {
        potential(rank, g, k - 1) + rank[k - 1] * g[k - 1]
    }
}

/// The sum of `rank[x] * n` over the positions `x` below `k` whose rank is
/// not negative.
pub open spec fn ceiling(rank: Seq<int>, n: int, k: int) -> int
    decreases k,
{
    if k <= 0 {
        0
    } else {
        ceiling(rank, n, k - 1) + if rank[k - 1] >= 0 {
            rank[k - 1] * n
        } else {
            0
        }
    }
}

/// `h` is a permutation of the length of `g` whose potential is at least
/// that of `g`, and equal to it only if `h` is `g`.
pub open spec fn advances(rank: Seq<int>, g: Seq<usize>, h: Seq<usize>) -> bool {
    &&& h.len() == g.len()
    &&& is_permutation(h)
    &&& potential(rank, h, g.len() as int) >= potential(rank, g, g.len() as int)
    &&& potential(rank, h, g.len() as int) == potential(rank, g, g.len() as int) ==> h == g
}

/// The potential of a permutation stays within the ceiling.
pub proof fn lemma_potential_bounded(rank: Seq<int>, g: Seq<usize>, k: int)
    requires
        rank.len() == g.len(),
        is_permutation(g),
        0 <= k <= g.len(),
    ensures
        potential(rank, g, k) <= ceiling(rank, g.len() as int, k),
    decreases k,
{
    if k > 0 {
        lemma_potential_bounded(rank, g, k - 1);
        let r = rank[k - 1];
        let v = g[k - 1] as int;
        let n = g.len() as int;
        assert(r >= 0 ==> r * v <= r * n) by (nonlinear_arith)
            requires
                0 <= v < n,
        ;
        assert(r < 0 ==> r * v <= 0) by (nonlinear_arith)
            requires
                0 <= v,
        ;
    }
}

/// Writing `v` at `x` changes the potential by `rank[x] * v - rank[x] * g[x]`.
proof fn lemma_potential_update(rank: Seq<int>, g: Seq<usize>, x: int, v: usize, k: int)
    requires
        0 <= x < g.len(),
        0 <= k <= g.len(),
    ensures
        potential(rank, g.update(x, v), k) == potential(rank, g, k) + if x < k {
            rank[x] * v - rank[x] * g[x]
        } else {
            0
        },
    decreases k,
{
    if k > 0 {
        lemma_potential_update(rank, g, x, v, k - 1);
    }
}

/// One comparison between two positions that `rank` puts in this order
/// advances the generator, and strictly so if it exchanges them.
pub proof fn lemma_relaxed_advances(rank: Seq<int>, g: Seq<usize>, x: int, y: int)
    requires
        rank.len() == g.len(),
        is_permutation(g),
        0 <= x < g.len(),
        0 <= y < g.len(),
        rank[x] < rank[y],
    ensures
        advances(rank, g, relaxed(g, x, y)),
        g[x] > g[y] ==> potential(rank, relaxed(g, x, y), g.len() as int) > potential(
            rank,
            g,
            g.len() as int,
        ),
{
    if g[x] > g[y] {
        let n = g.len() as int;
        let mid = g.update(x, g[y]);
        lemma_swapped_is_permutation(g, x, y);
        lemma_potential_update(rank, g, x, g[y], n);
        lemma_potential_update(rank, mid, y, g[x], n);
        let rx = rank[x];
        let ry = rank[y];
        let gx = g[x] as int;
        let gy = g[y] as int;
        assert(rx * gy - rx * gx + (ry * gx - ry * gy) > 0) by (nonlinear_arith)
            requires
                rx < ry,
                gx > gy,
        ;
    }
}

/// Advancing twice is advancing.
pub proof fn lemma_advances_twice(rank: Seq<int>, g: Seq<usize>, h: Seq<usize>, q: Seq<usize>)
    requires
        advances(rank, g, h),
        advances(rank, h, q),
    ensures
        advances(rank, g, q),
{
}

/// A permutation advances to itself.
pub proof fn lemma_advances_to_itself(rank: Seq<int>, g: Seq<usize>)
    requires
        is_permutation(g),
    ensures
        advances(rank, g, g),
{
}

/// If advancing from `g` over `h` to `q` ends where it began, it never left.
pub proof fn lemma_advances_round_trip(rank: Seq<int>, g: Seq<usize>, h: Seq<usize>, q: Seq<usize>)
    requires
        advances(rank, g, h),
        advances(rank, h, q),
        q == g,
    ensures
        h == g,
{
}

/// Comparing one child with later children advances the generator. If that
/// leaves the generator as it was, the child already came before each of
/// them.
pub proof fn lemma_after_siblings(
    rank: Seq<int>,
    g: Seq<usize>,
    i: int,
    ch: Seq<usize>,
    j: int,
    k: int,
)
    requires
        rank.len() == g.len(),
        is_permutation(g),
        below(ch, g.len()),
        list_obeys(rank, i, ch),
        0 <= j < ch.len(),
        j < k <= ch.len(),
    ensures
        advances(rank, g, after_siblings(g, ch, j, k)),
        after_siblings(g, ch, j, k) == g ==> forall|m: int|
            j < m < k ==> g[ch[j] as int] < g[#[trigger] ch[m] as int],
    decreases k - j,
{
    if k > j + 1 {
        let h = after_siblings(g, ch, j, k - 1);
        lemma_after_siblings(rank, g, i, ch, j, k - 1);
        let x = ch[j] as int;
        let y = ch[k - 1] as int;
        lemma_relaxed_advances(rank, h, x, y);
        let q = relaxed(h, x, y);
        lemma_advances_twice(rank, g, h, q);
        if q == g {
            lemma_advances_round_trip(rank, g, h, q);
            if x < y {
                assert(g[x] != g[y]);
            } else {
                assert(g[y] != g[x]);
            }
        }
    }
}

/// Handling one child advances the generator. If that leaves the generator
/// as it was, the child already came after its parent and before each later
/// child.
pub proof fn lemma_after_child(rank: Seq<int>, g: Seq<usize>, i: int, ch: Seq<usize>, j: int)
    requires
        rank.len() == g.len(),
        is_permutation(g),
        0 <= i < g.len(),
        below(ch, g.len()),
        list_obeys(rank, i, ch),
        0 <= j < ch.len(),
    ensures
        advances(rank, g, after_child(g, i, ch, j)),
        after_child(g, i, ch, j) == g ==> g[i] < g[ch[j] as int] && forall|m: int|
            j < m < ch.len() ==> g[ch[j] as int] < g[#[trigger] ch[m] as int],
{
    let y = ch[j] as int;
    let h = relaxed(g, i, y);
    lemma_relaxed_advances(rank, g, i, y);
    lemma_after_siblings(rank, h, i, ch, j, ch.len() as int);
    let q = after_child(g, i, ch, j);
    lemma_advances_twice(rank, g, h, q);
    if q == g {
        lemma_advances_round_trip(rank, g, h, q);
        if i < y {
            assert(g[i] != g[y]);
        } else {
            assert(g[y] != g[i]);
        }
    }
}

/// Handling the first `j` children of a node advances the generator. If that
/// leaves the generator as it was, it already obeyed what these children ask
/// for.
pub proof fn lemma_after_children(rank: Seq<int>, g: Seq<usize>, i: int, ch: Seq<usize>, j: int)
    requires
        rank.len() == g.len(),
        is_permutation(g),
        0 <= i < g.len(),
        below(ch, g.len()),
        list_obeys(rank, i, ch),
        0 <= j <= ch.len(),
    ensures
        advances(rank, g, after_children(g, i, ch, j)),
        after_children(g, i, ch, j) == g ==> forall|a: int|
            0 <= a < j ==> g[i] < g[#[trigger] ch[a] as int],
        after_children(g, i, ch, j) == g ==> forall|a: int, m: int|
            0 <= a < j && a < m < ch.len() ==> g[#[trigger] ch[a] as int]
                < g[#[trigger] ch[m] as int],
    decreases j,
{
    if j > 0 {
        let h = after_children(g, i, ch, j - 1);
        lemma_after_children(rank, g, i, ch, j - 1);
        lemma_after_child(rank, h, i, ch, j - 1);
        let q = after_children(g, i, ch, j);
        lemma_advances_twice(rank, g, h, q);
        if q == g {
            lemma_advances_round_trip(rank, g, h, q);
        }
    }
}

/// Handling the first `i` nodes advances the generator. If that leaves the
/// generator as it was, it already obeyed what the children of these nodes
/// ask for.
pub proof fn lemma_after_nodes(rank: Seq<int>, g: Seq<usize>, shape: Seq<Seq<usize>>, i: int)
    requires
        g.len() == shape.len(),
        is_permutation(g),
        shape_in_bounds(shape),
        obeys(rank, shape),
        0 <= i <= shape.len(),
    ensures
        advances(rank, g, after_nodes(g, shape, i)),
        after_nodes(g, shape, i) == g ==> forall|a: int|
            0 <= a < i ==> list_obeys(numbers(g), a, #[trigger] shape[a]),
    decreases i,
{
    if i > 0 {
        let h = after_nodes(g, shape, i - 1);
        let ch = shape[i - 1];
        lemma_after_nodes(rank, g, shape, i - 1);
        lemma_after_children(rank, h, i - 1, ch, ch.len() as int);
        let q = after_nodes(g, shape, i);
        lemma_advances_twice(rank, g, h, q);
        if q == g {
            lemma_advances_round_trip(rank, g, h, q);
        }
    }
}

/// A pass advances the generator, and a pass that leaves it as it was shows
/// that it obeys the shape.
pub proof fn lemma_pass(rank: Seq<int>, g: Seq<usize>, shape: Seq<Seq<usize>>)
    requires
        g.len() == shape.len(),
        is_permutation(g),
        shape_in_bounds(shape),
        obeys(rank, shape),
    ensures
        advances(rank, g, pass(g, shape)),
        pass(g, shape) == g ==> obeys(numbers(g), shape),
{
    lemma_after_nodes(rank, g, shape, shape.len() as int);
}

/// A generator that obeys the shape is left as it is by the handling of any
/// node's children.
pub proof fn lemma_obeying_children_stay(g: Seq<usize>, i: int, ch: Seq<usize>, j: int)
    requires
        0 <= i < g.len(),
        below(ch, g.len()),
        list_obeys(numbers(g), i, ch),
        0 <= j <= ch.len(),
    ensures
        after_children(g, i, ch, j) == g,
    decreases j,
{
    if j > 0 {
        lemma_obeying_children_stay(g, i, ch, j - 1);
        lemma_obeying_siblings_stay(g, i, ch, j - 1, ch.len() as int);
    }
}

/// A generator that obeys the shape is left as it is by the comparison of a
/// child with later children.
pub proof fn lemma_obeying_siblings_stay(g: Seq<usize>, i: int, ch: Seq<usize>, j: int, k: int)
    requires
        below(ch, g.len()),
        list_obeys(numbers(g), i, ch),
        0 <= j < ch.len(),
        k <= ch.len(),
    ensures
        after_siblings(g, ch, j, k) == g,
    decreases k - j,
{
    if k > j + 1 {
        lemma_obeying_siblings_stay(g, i, ch, j, k - 1);
    }
}

/// A generator that obeys the shape is left as it is by the handling of the
/// first `i` nodes.
pub proof fn lemma_obeying_nodes_stay(g: Seq<usize>, shape: Seq<Seq<usize>>, i: int)
    requires
        shape_in_bounds(shape),
        obeys(numbers(g), shape),
        0 <= i <= shape.len(),
    ensures
        after_nodes(g, shape, i) == g,
    decreases i,
{
    if i > 0 {
        lemma_obeying_nodes_stay(g, shape, i - 1);
        lemma_obeying_children_stay(g, i - 1, shape[i - 1], shape[i - 1].len() as int);
    }
}

/// Once the generator obeys the shape, further passes leave it as it is.
pub proof fn lemma_settled_stays(shape: Seq<Seq<usize>>, rounds: nat, more: nat)
    requires
        shape_in_bounds(shape),
        settles_after(shape, rounds),
    ensures
        after_passes(shape, rounds + more) == after_passes(shape, rounds),
    decreases more,
{
    if more > 0 {
        lemma_settled_stays(shape, rounds, (more - 1) as nat);
        lemma_obeying_nodes_stay(after_passes(shape, rounds), shape, shape.len() as int);
    }
}

/// Whatever number of passes settles the generator gives the generator of
/// the shape.
pub proof fn lemma_generator_is(shape: Seq<Seq<usize>>, rounds: nat)
    requires
        shape_in_bounds(shape),
        settles_after(shape, rounds),
    ensures
        generator(shape) == after_passes(shape, rounds),
{
    let chosen = choose|r: nat| settles_after(shape, r);
    if chosen <= rounds {
        lemma_settled_stays(shape, chosen, (rounds - chosen) as nat);
    } else {
        lemma_settled_stays(shape, rounds, (chosen - rounds) as nat);
    }
}

/// After any number of passes the generator is a permutation.
pub proof fn lemma_after_passes_is_permutation(rank: Seq<int>, shape: Seq<Seq<usize>>, rounds: nat)
    requires
        shape.len() <= usize::MAX,
        shape_in_bounds(shape),
        obeys(rank, shape),
    ensures
        is_permutation(after_passes(shape, rounds)),
        after_passes(shape, rounds).len() == shape.len(),
    decreases rounds,
{
    if rounds == 0 {
        lemma_identity_is_permutation(shape.len());
    } else {
        lemma_after_passes_is_permutation(rank, shape, (rounds - 1) as nat);
        lemma_pass(rank, after_passes(shape, (rounds - 1) as nat), shape);
    }
}

/// From any number of passes on, some number of passes settles the generator.
proof fn lemma_settles_from(rank: Seq<int>, shape: Seq<Seq<usize>>, rounds: nat) -> (end: nat)
    requires
        shape.len() <= usize::MAX,
        shape_in_bounds(shape),
        obeys(rank, shape),
    ensures
        settles_after(shape, end),
    decreases
        ceiling(rank, shape.len() as int, shape.len() as int) - potential(
            rank,
            after_passes(shape, rounds),
            shape.len() as int,
        ),
{
    let n = shape.len() as int;
    let g = after_passes(shape, rounds);
    lemma_after_passes_is_permutation(rank, shape, rounds);
    lemma_pass(rank, g, shape);
    if pass(g, shape) == g {
        rounds
    } else {
        lemma_after_passes_is_permutation(rank, shape, rounds + 1);
        lemma_potential_bounded(rank, after_passes(shape, rounds + 1), n);
        lemma_settles_from(rank, shape, rounds + 1)
    }
}

/// The solving phase ends on every acyclic shape: its generator is a
/// permutation that obeys the shape.
pub proof fn lemma_generator_settles(shape: Seq<Seq<usize>>)
    requires
        shape.len() <= usize::MAX,
        shape_in_bounds(shape),
        acyclic(shape),
    ensures
        generator(shape).len() == shape.len(),
        is_permutation(generator(shape)),
        obeys(numbers(generator(shape)), shape),
{
    let rank = choose|rank: Seq<int>| obeys(rank, shape);
    let end = lemma_settles_from(rank, shape, 0);
    lemma_generator_is(shape, end);
    lemma_after_passes_is_permutation(rank, shape, end);
}

} // verus!
