//! The retrace phase: moves every item to the position that the generator
//! names for it, by exchanges alone.

use crate::permutation::{
    identity, is_permutation, lemma_source_of_image, lemma_swapped_is_permutation, placed,
    swapped,
};
use vstd::prelude::*;

verus! {

/// The number of positions below `k` that `g` does not map to themselves.
pub open spec fn displaced(g: Seq<usize>, k: int) -> nat
    decreases k,
{
    if k <= 0 {
        0
    } else {
        displaced(g, k - 1) + if g[k - 1] == k - 1 {
            0nat
        } else {
            1nat
        }
    }
}

/// The identity displaces no position.
pub proof fn lemma_identity_displaces_none(n: nat, k: int)
    requires
        n <= usize::MAX,
        0 <= k <= n,
    ensures
        displaced(identity(n), k) == 0,
    decreases k,
{
    if k > 0 {
        lemma_identity_displaces_none(n, k - 1);
    }
}

/// Writing `v` at `x` changes the count of displaced positions by what `x`
/// itself contributes.
proof fn lemma_displaced_update(g: Seq<usize>, x: int, v: usize, k: int)
    requires
        0 <= x < g.len(),
        0 <= k <= g.len(),
    ensures
        displaced(g.update(x, v), k) == displaced(g, k) + if x < k {
            (if v == x {
                0int
            } else {
                1int
            }) - (if g[x] == x {
                0int
            } else {
                1int
            })
        } else {
            0int
        },
    decreases k,
{
    if k > 0 {
        lemma_displaced_update(g, x, v, k - 1);
    }
}

/// Exchanging the entry at a displaced position `x` with the entry at the
/// position it names leaves fewer positions displaced.
proof fn lemma_exchange_settles_one(g: Seq<usize>, x: int)
    requires
        is_permutation(g),
        0 <= x < g.len(),
        g[x] != x,
    ensures
        displaced(swapped(g, x, g[x] as int), g.len() as int) < displaced(g, g.len() as int),
{
    let y = g[x] as int;
    let n = g.len() as int;
    if x < y {
        assert(g[x] != g[y]);
    } else {
        assert(g[y] != g[x]);
    }
    lemma_displaced_update(g, x, g[y], n);
    lemma_displaced_update(g.update(x, g[y]), y, g[x], n);
}

/// The retrace phase. The item at `i` is moved to `gen[i]`, for every `i`,
/// and `gen` is the identity afterwards. Each exchange puts one more item
/// where it belongs.
pub fn retrace<N>(nodes: &mut [N], gen: &mut Vec<usize>)
    requires
        old(gen)@.len() == old(nodes)@.len(),
        is_permutation(old(gen)@),
    ensures
        final(nodes)@ == placed(old(nodes)@, old(gen)@),
        final(gen)@ == identity(old(nodes)@.len()),
{
    let n: usize = nodes.len();
    // origin[x] is where the item now at `x` stood at the start.
    let ghost mut origin: Seq<int> = Seq::new(n as nat, |x: int| x);
    let mut i: usize = 0;
    while i < n
        invariant
            n == nodes@.len(),
            n == old(nodes)@.len(),
            gen@.len() == n,
            origin.len() == n,
            i <= n,
            is_permutation(gen@),
            is_permutation(old(gen)@),
            forall|x: int| 0 <= x < n ==> 0 <= #[trigger] origin[x] < n,
            forall|x: int| 0 <= x < n ==> nodes@[x] == old(nodes)@[#[trigger] origin[x]],
            forall|x: int| 0 <= x < n ==> gen@[x] == old(gen)@[#[trigger] origin[x]],
            forall|x: int| 0 <= x < i ==> #[trigger] gen@[x] == x,
        decreases n - i,
    {
        while gen[i] != i
            invariant
                n == nodes@.len(),
                n == old(nodes)@.len(),
                gen@.len() == n,
                origin.len() == n,
                i < n,
                is_permutation(gen@),
                is_permutation(old(gen)@),
                forall|x: int| 0 <= x < n ==> 0 <= #[trigger] origin[x] < n,
                forall|x: int| 0 <= x < n ==> nodes@[x] == old(nodes)@[#[trigger] origin[x]],
                forall|x: int| 0 <= x < n ==> gen@[x] == old(gen)@[#[trigger] origin[x]],
                forall|x: int| 0 <= x < i ==> #[trigger] gen@[x] == x,
            decreases displaced(gen@, n as int),
        {
            let j: usize = gen[i];
            proof {
                lemma_exchange_settles_one(gen@, i as int);
                lemma_swapped_is_permutation(gen@, i as int, j as int);
                origin = swapped(origin, i as int, j as int);
            }
            nodes.swap(i, j);
            gen.swap(i, j);
        }
        i += 1;
    }
    assert(gen@ =~= identity(n as nat));
    assert forall|p: int| 0 <= p < n implies nodes@[p] == placed(old(nodes)@, old(gen)@)[p] by {
        lemma_source_of_image(old(gen)@, origin[p]);
    }
    assert(nodes@ =~= placed(old(nodes)@, old(gen)@));
}

} // verus!
