//! Random sampling of nodes: the bootstrap picks seeds and neighbors as a
//! uniform random sample of distinct entries.

use vstd::prelude::*;

use crate::bytes::push_all;
use crate::bytes::views;
use rand::Rng;

verus! {

/// Relies on `rand::Rng::gen_range` over `0..n`: the sample lies in the
/// range, which must be nonempty.  Nothing more is assumed of a random draw.
#[verifier::external_body]
fn random_below(n: usize) -> (r: usize)
    requires
        n >= 1,
    ensures
        r < n,
{
    rand::thread_rng().gen_range(0..n)
}

/// Selects `k` pairwise-distinct nodes uniformly at random from `nodes`.
///
/// The result holds exactly `k` entries, no entry twice, and nothing that
/// was not in `nodes`.
pub fn select_k_nodes(nodes: Vec<Vec<u8>>, k: usize) -> (r: Vec<Vec<u8>>)
    requires
        k <= nodes@.len(),
        views(nodes@).no_duplicates(),
    ensures
        r@.len() == k,
        views(r@).no_duplicates(),
        forall|i: int| 0 <= i < k ==> views(nodes@).contains(#[trigger] views(r@)[i]),
{
    let ghost nodes0 = views(nodes@);
    let mut pool = nodes;
    let mut r: Vec<Vec<u8>> = Vec::new();
    let mut i: usize = 0;
    while i < k
        invariant
            0 <= i <= k,
            r@.len() == i,
            pool@.len() + i == nodes0.len(),
            k <= nodes0.len(),
            views(pool@).no_duplicates(),
            views(r@).no_duplicates(),
            forall|t: int| 0 <= t < pool@.len() ==> nodes0.contains(#[trigger] views(pool@)[t]),
            forall|t: int| 0 <= t < i ==> nodes0.contains(#[trigger] views(r@)[t]),
            forall|t: int, u: int|
                0 <= t < i && 0 <= u < pool@.len() ==> views(r@)[t] != views(pool@)[u],
        decreases k - i,
    {
        let idx = random_below(pool.len());
        let ghost pool0 = views(pool@);
        let item = pool.remove(idx);
        proof {
            assert forall|t: int| 0 <= t < pool@.len() implies views(pool@)[t] == pool0[if t
                < idx as int {
                t
            } else {
                t + 1
            }] by {}
        }
        let ghost r0 = views(r@);
        r.push(item);
        proof {
            assert(views(r@) =~= r0.push(pool0[idx as int]));
        }
        i += 1;
    }
    r
}

} // verus!
