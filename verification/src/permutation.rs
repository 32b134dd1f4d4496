//! Permutations of `0..n`, stored as sequences, and what swapping two entries
//! does to them.

use vstd::prelude::*;

verus! {

/// The permutation that leaves every position where it is.
pub open spec fn identity(n: nat) -> Seq<usize> {
    Seq::new(n, |i: int| i as usize)
}

/// `g` maps `0..g.len()` onto itself, one to one.
pub open spec fn is_permutation(g: Seq<usize>) -> bool {
    &&& forall|i: int| 0 <= i < g.len() ==> #[trigger] g[i] < g.len()
    &&& forall|i: int, j: int| 0 <= i < j < g.len() ==> #[trigger] g[i] != #[trigger] g[j]
    &&& forall|p: int| 0 <= p < g.len() ==> has_source(g, p)
}

/// Some position is mapped to `p`.
pub open spec fn has_source(g: Seq<usize>, p: int) -> bool {
    exists|i: int| 0 <= i < g.len() && #[trigger] g[i] == p
}

/// The position that `g` maps to `p`.
pub open spec fn source_of(g: Seq<usize>, p: int) -> int {
    choose|i: int| 0 <= i < g.len() && #[trigger] g[i] == p
}

/// `s` with the entries at `x` and `y` exchanged.
pub open spec fn swapped<A>(s: Seq<A>, x: int, y: int) -> Seq<A> {
    s.update(x, s[y]).update(y, s[x])
}

/// `items` moved to where `g` sends them: the item at `i` lands at `g[i]`.
pub open spec fn placed<A>(items: Seq<A>, g: Seq<usize>) -> Seq<A> {
    Seq::new(items.len(), |p: int| items[source_of(g, p)])
}

/// The identity is a permutation.
pub proof fn lemma_identity_is_permutation(n: nat)
    requires
        n <= usize::MAX,
    ensures
        is_permutation(identity(n)),
        identity(n).len() == n,
{
    let g = identity(n);
    assert forall|p: int| 0 <= p < g.len() implies has_source(g, p) by {
        assert(g[p] == p);
    }
}

/// Exchanging two entries of a permutation gives a permutation.
pub proof fn lemma_swapped_is_permutation(g: Seq<usize>, x: int, y: int)
    requires
        is_permutation(g),
        0 <= x < g.len(),
        0 <= y < g.len(),
    ensures
        is_permutation(swapped(g, x, y)),
        swapped(g, x, y).len() == g.len(),
{
    let h = swapped(g, x, y);
    assert forall|p: int| 0 <= p < h.len() implies has_source(h, p) by {
        assert(has_source(g, p));
        let i = source_of(g, p);
        let w = if i == x { y } else if i == y { x } else { i };
        assert(h[w] == p);
    }
}

/// In a permutation, the source of `g[i]` is `i`.
pub proof fn lemma_source_of_image(g: Seq<usize>, i: int)
    requires
        is_permutation(g),
        0 <= i < g.len(),
    ensures
        source_of(g, g[i] as int) == i,
{
    let p = g[i] as int;
    let s = source_of(g, p);
    assert(0 <= s < g.len() && g[s] == p);
    if s < i {
        assert(g[s] != g[i]);
    } else if i < s {
        assert(g[i] != g[s]);
    }
}

/// In a permutation, every position below the length has a source, and `g`
/// maps that source back to the position.
pub proof fn lemma_source_of_is_source(g: Seq<usize>, p: int)
    requires
        is_permutation(g),
        0 <= p < g.len(),
    ensures
        0 <= source_of(g, p) < g.len(),
        g[source_of(g, p)] == p,
{
    assert(has_source(g, p));
}

/// Moving items by the identity leaves them where they are.
pub proof fn lemma_placed_by_identity<A>(items: Seq<A>)
    requires
        items.len() <= usize::MAX,
    ensures
        placed(items, identity(items.len())) == items,
{
    let g = identity(items.len());
    lemma_identity_is_permutation(items.len());
    assert forall|p: int| 0 <= p < items.len() implies placed(items, g)[p] == items[p] by {
        lemma_source_of_image(g, p);
    }
}

} // verus!
