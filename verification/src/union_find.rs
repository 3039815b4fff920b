use vstd::prelude::*;
use petgraph::unionfind::UnionFind;

verus! {

/// The union-find of `petgraph`, over cell numbers.
#[verifier::external_type_specification]
#[verifier::external_body]
#[verifier::reject_recursive_types(K)]
pub struct ExUnionFind<K>(UnionFind<K>);

/// The pairs `(p, q)` of elements that a `petgraph` union-find keeps in one set.
pub uninterp spec fn uf_classes(uf: UnionFind<u32>) -> Set<(u32, u32)>;

/// The number of elements a `petgraph` union-find was made with.
pub uninterp spec fn uf_len(uf: UnionFind<u32>) -> nat;

/// The pairs of equal elements below `n`: `n` elements, each in a set of its own.
pub open spec fn singleton_classes(n: nat) -> Set<(u32, u32)> {
    Set::new(|pq: (u32, u32)| pq.0 == pq.1 && pq.0 < n)
}

/// The pairs of `r` after the set holding `a` and the set holding `b` are joined.
pub open spec fn merge_classes(r: Set<(u32, u32)>, a: u32, b: u32) -> Set<(u32, u32)> {
    Set::new(
        |pq: (u32, u32)|
            r.contains(pq) || (r.contains((pq.0, a)) && r.contains((b, pq.1))) || (r.contains(
                (pq.0, b),
            ) && r.contains((a, pq.1))),
    )
}

/// `petgraph::unionfind::UnionFind::<u32>::new(n)`.  Claimed: the result has
/// `n` elements, each in a set of its own (the source fills the parent of `i`
/// with `i as u32` for every `i < n`, so every `u32` below `n` is its own root).
#[verifier::external_body]
pub(crate) fn union_find_new(n: usize) -> (uf: UnionFind<u32>)
    ensures
        uf_len(uf) == n,
        uf_classes(uf) == singleton_classes(n as nat),
{
    UnionFind::new(n)
}

/// `petgraph::unionfind::UnionFind::<u32>::union(x, y)`.  Claimed, as its
/// documentation and source say: the sets holding `x` and `y` become one, no
/// other set changes, the number of elements stays, and the result is `true`
/// exactly when the two sets were different.  The source panics when `x != y`
/// and one of them is out of bounds, which `requires` leaves out.
#[verifier::external_body]
pub(crate) fn union_find_union(uf: &mut UnionFind<u32>, x: u32, y: u32) -> (r: bool)
    requires
        x == y || (x < uf_len(*old(uf)) && y < uf_len(*old(uf))),
    ensures
        uf_len(*final(uf)) == uf_len(*old(uf)),
        uf_classes(*final(uf)) == merge_classes(uf_classes(*old(uf)), x, y),
        r == (x != y && !uf_classes(*old(uf)).contains((x, y))),
{
    uf.union(x, y)
}

} // verus!
