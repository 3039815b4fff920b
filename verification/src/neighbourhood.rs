use vstd::prelude::*;
use crate::obstacle_table::in_grid;
use crate::vec_ops::{in_box, lemma_neighbors_exact, neighbor_list, touching};

verus! {

/// The cells of a `w` by `h` grid that touch `c` (diagonally too) and for
/// which `pred` holds.
pub open spec fn cells_around_where(w: nat, h: nat, c: (i32, i32), pred: spec_fn((i32, i32)) -> bool) -> Set<
    (i32, i32),
> {
    Set::new(|q: (i32, i32)| in_grid(q, w, h) && touching(q, c) && pred(q))
}

/// How many of the first `k` cells of `s` satisfy `pred`.
pub open spec fn count_where(s: Seq<(i32, i32)>, pred: spec_fn((i32, i32)) -> bool, k: nat) -> nat
    decreases k,
{
    if k == 0 {
        0
    } else {
        count_where(s, pred, (k - 1) as nat) + if pred(s[k - 1]) {
            1nat
        } else {
            0nat
        }
    }
}

/// The cells among the first `k` of `s` that satisfy `pred`.
pub open spec fn prefix_cells_where(s: Seq<(i32, i32)>, pred: spec_fn((i32, i32)) -> bool, k: nat) -> Set<
    (i32, i32),
> {
    Set::new(|q: (i32, i32)| s.take(k as int).contains(q) && pred(q))
}

proof fn lemma_count_where_is_card(s: Seq<(i32, i32)>, pred: spec_fn((i32, i32)) -> bool, k: nat)
    requires
        s.no_duplicates(),
        k <= s.len(),
    ensures
        prefix_cells_where(s, pred, k).finite(),
        prefix_cells_where(s, pred, k).len() == count_where(s, pred, k),
    decreases k,
{
    if k == 0 {
        assert(prefix_cells_where(s, pred, k) =~= Set::<(i32, i32)>::empty());
    } else {
        lemma_count_where_is_card(s, pred, (k - 1) as nat);
        let prev = prefix_cells_where(s, pred, (k - 1) as nat);
        let cur = prefix_cells_where(s, pred, k);
        let x = s[k - 1];
        assert forall|q: (i32, i32)| s.take(k as int).contains(q) == (s.take(k - 1).contains(q) || q == x) by {
            if s.take(k as int).contains(q) {
                let i = choose|i: int| 0 <= i < k && #[trigger] s.take(k as int)[i] == q;
                if i < k - 1 {
                    assert(s.take(k - 1)[i] == q);
                }
            }
            if s.take(k - 1).contains(q) {
                let i = choose|i: int| 0 <= i < k - 1 && #[trigger] s.take(k - 1)[i] == q;
                assert(s.take(k as int)[i] == q);
            }
            if q == x {
                assert(s.take(k as int)[k - 1] == q);
            }
        }
        assert(!prev.contains(x)) by {
            if s.take(k - 1).contains(x) {
                let i = choose|i: int| 0 <= i < k - 1 && #[trigger] s.take(k - 1)[i] == x;
                assert(s[i] == s[k - 1]);
            }
        }
        if pred(x) {
            assert(cur =~= prev.insert(x));
        } else {
            assert(cur =~= prev);
        }
    }
}

/// Counting the neighbours of `c` in `neighbors` order that satisfy `pred`
/// counts the cells around `c` that satisfy it.
pub proof fn lemma_count_around(w: nat, h: nat, c: (i32, i32), pred: spec_fn((i32, i32)) -> bool)
    requires
        1 <= w <= i32::MAX,
        1 <= h <= i32::MAX,
        in_grid(c, w, h),
    ensures
        cells_around_where(w, h, c, pred).finite(),
        cells_around_where(w, h, c, pred).len() == count_where(
            neighbor_list(c.0, c.1, 0, 0, (w - 1) as i32, (h - 1) as i32),
            pred,
            neighbor_list(c.0, c.1, 0, 0, (w - 1) as i32, (h - 1) as i32).len(),
        ),
{
    let br = ((w - 1) as i32, (h - 1) as i32);
    lemma_neighbors_exact(c.0, c.1, (0, 0), br);
    let nb = neighbor_list(c.0, c.1, 0, 0, br.0, br.1);
    lemma_count_where_is_card(nb, pred, nb.len());
    assert(nb.take(nb.len() as int) =~= nb);
    assert forall|q: (i32, i32)| in_box(q, (0, 0), br) == in_grid(q, w, h) by {}
    assert(cells_around_where(w, h, c, pred) =~= prefix_cells_where(nb, pred, nb.len()));
}

} // verus!
