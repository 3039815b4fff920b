use vstd::prelude::*;
use crate::random::thread_random_below;

verus! {

/// Squared Euclidean distance between the cell `(x, y)` and the point `p`.
pub open spec fn dist2(x: int, y: int, p: (i32, i32)) -> int {
    (x - p.0) * (x - p.0) + (y - p.1) * (y - p.1)
}

/// Seed `k` is the first of the seeds that lies nearest to the cell `(x, y)`.
pub open spec fn first_nearest(seeds: Seq<(i32, i32)>, x: int, y: int, k: int) -> bool {
    &&& 0 <= k < seeds.len()
    &&& forall|j: int| 0 <= j < seeds.len() ==> dist2(x, y, seeds[k]) <= dist2(x, y, #[trigger] seeds[j])
    &&& forall|j: int| 0 <= j < k ==> dist2(x, y, seeds[k]) < dist2(x, y, #[trigger] seeds[j])
}

/// The seed a Voronoi map gives the cell `(x, y)`: the first nearest one.
pub open spec fn nearest_seed(seeds: Seq<(i32, i32)>, x: int, y: int) -> (i32, i32) {
    seeds[choose|k: int| first_nearest(seeds, x, y, k)]
}

/// Only one seed is the first nearest one.
pub proof fn lemma_first_nearest_unique(seeds: Seq<(i32, i32)>, x: int, y: int, k: int, j: int)
    requires
        first_nearest(seeds, x, y, k),
        first_nearest(seeds, x, y, j),
    ensures
        k == j,
{
    if k < j {
        assert(dist2(x, y, seeds[j]) < dist2(x, y, seeds[k]));
    } else if j < k {
        assert(dist2(x, y, seeds[k]) < dist2(x, y, seeds[j]));
    }
}

/// A membership grid holds, at each cell, `nearest_seed` of that cell.
pub proof fn lemma_membership_is_nearest_seed(
    seeds: Seq<(i32, i32)>,
    width: nat,
    height: nat,
    m: Seq<Seq<(i32, i32)>>,
    x: int,
    y: int,
)
    requires
        is_membership(seeds, width, height, m),
        0 <= x < width,
        0 <= y < height,
    ensures
        m[x][y] == nearest_seed(seeds, x, y),
{
    assert(holds_nearest(seeds, m, x, y));
    let k = choose|k: int| first_nearest(seeds, x, y, k) && seeds[k] == m[x][y];
    let c = choose|k: int| first_nearest(seeds, x, y, k);
    lemma_first_nearest_unique(seeds, x, y, k, c);
}

/// `m` gives every cell of a `width` by `height` grid, as `m[x][y]`, the first
/// seed nearest to it.
pub open spec fn is_membership(seeds: Seq<(i32, i32)>, width: nat, height: nat, m: Seq<Seq<(i32, i32)>>) -> bool {
    &&& m.len() == width
    &&& forall|x: int| 0 <= x < width ==> (#[trigger] m[x]).len() == height
    &&& forall|x: int, y: int|
        0 <= x < width && 0 <= y < height ==> #[trigger] holds_nearest(seeds, m, x, y)
}

/// `m[x][y]` is the first seed nearest to the cell `(x, y)`.
pub open spec fn holds_nearest(seeds: Seq<(i32, i32)>, m: Seq<Seq<(i32, i32)>>, x: int, y: int) -> bool {
    exists|k: int| first_nearest(seeds, x, y, k) && seeds[k] == m[x][y]
}

fn sq_dist(x: u32, y: u32, p: (i32, i32)) -> (d: i128)
    ensures
        d == dist2(x as int, y as int, p),
{
    let dx = x as i128 - p.0 as i128;
    let dy = y as i128 - p.1 as i128;
    assert(dx * dx <= 0x10_0000_0000_0000_0000) by (nonlinear_arith)
        requires
            -0x4_0000_0000 <= dx <= 0x4_0000_0000,
    ;
    assert(dy * dy <= 0x10_0000_0000_0000_0000) by (nonlinear_arith)
        requires
            -0x4_0000_0000 <= dy <= 0x4_0000_0000,
    ;
    assert(0 <= dx * dx && 0 <= dy * dy) by (nonlinear_arith);
    dx * dx + dy * dy
}

/// For each cell of a `width` by `height` grid, the seed nearest to it, the
/// first such seed in `seeds` when several are equally near: `m[x][y]` is the
/// seed of the cell `(x, y)`.
pub fn voronoi_membership(seeds: &Vec<(i32, i32)>, width: u32, height: u32) -> (m: Vec<
    Vec<(i32, i32)>,
>)
    requires
        seeds.len() > 0 || width == 0 || height == 0,
    ensures
        is_membership(seeds@, width as nat, height as nat, m@.map_values(|c: Vec<(i32, i32)>| c@)),
{
    let ghost s = seeds@;
    let ghost mut ks: Seq<Seq<int>> = Seq::empty();
    let mut m: Vec<Vec<(i32, i32)>> = Vec::new();
    for x in 0..width
        invariant
            s == seeds@,
            seeds.len() > 0 || width == 0 || height == 0,
            m.len() == x,
            ks.len() == x,
            forall|i: int| 0 <= i < x ==> (#[trigger] m@[i])@.len() == height,
            forall|i: int| 0 <= i < x ==> (#[trigger] ks[i]).len() == height,
            forall|i: int, y: int|
                0 <= i < x && 0 <= y < height ==> first_nearest(s, i, y, #[trigger] ks[i][y])
                    && s[ks[i][y]] == m@[i]@[y],
    {
        let ghost mut kc: Seq<int> = Seq::empty();
        let mut column: Vec<(i32, i32)> = Vec::new();
        for y in 0..height
            invariant
                s == seeds@,
                seeds.len() > 0 || height == 0,
                column.len() == y,
                kc.len() == y,
                forall|j: int|
                    0 <= j < y ==> first_nearest(s, x as int, j, #[trigger] kc[j]) && s[kc[j]]
                        == column@[j],
        {
            let mut best: usize = 0;
            let mut best_dist = sq_dist(x, y, seeds[0]);
            let mut k: usize = 1;
            while k < seeds.len()
                invariant
                    s == seeds@,
                    1 <= k <= seeds.len(),
                    best < k,
                    best_dist == dist2(x as int, y as int, s[best as int]),
                    forall|j: int| 0 <= j < k ==> best_dist <= dist2(x as int, y as int, #[trigger] s[j]),
                    forall|j: int| 0 <= j < best ==> best_dist < dist2(x as int, y as int, #[trigger] s[j]),
                decreases seeds.len() - k,
            {
                let d = sq_dist(x, y, seeds[k]);
                if d < best_dist {
                    best = k;
                    best_dist = d;
                }
                k += 1;
            }
            assert(first_nearest(s, x as int, y as int, best as int));
            column.push(seeds[best]);
            proof {
                kc = kc.push(best as int);
            }
        }
        m.push(column);
        proof {
            ks = ks.push(kc);
            assert(m@[x as int]@ == column@);
        }
    }
    let ghost mv = m@.map_values(|c: Vec<(i32, i32)>| c@);
    assert forall|x: int| 0 <= x < width implies (#[trigger] mv[x]).len() == height by {
        assert(mv[x] == m@[x]@);
    }
    assert forall|x: int, y: int|
        0 <= x < width && 0 <= y < height implies #[trigger] holds_nearest(s, mv, x, y) by {
        assert(mv[x] == m@[x]@);
        assert(first_nearest(s, x, y, ks[x][y]) && s[ks[x][y]] == mv[x][y]);
    }
    assert(mv.len() == width);
    m
}


/// The number of `true` flags among the first `m`.
pub open spec fn count_true(f: Seq<bool>, m: int) -> nat
    decreases m,
{
    if m <= 0 {
        0
    } else {
        count_true(f, m - 1) + (if f[m - 1] {
            1nat
        } else {
            0nat
        })
    }
}

proof fn lemma_count_true_bound(f: Seq<bool>, m: int)
    requires
        0 <= m,
    ensures
        count_true(f, m) <= m,
    decreases m,
{
    if m > 0 {
        lemma_count_true_bound(f, m - 1);
    }
}

proof fn lemma_count_true_set(f: Seq<bool>, c: int, m: int)
    requires
        0 <= c < f.len(),
        !f[c],
        0 <= m <= f.len(),
    ensures
        count_true(f.update(c, true), m) == count_true(f, m) + (if c < m {
            1nat
        } else {
            0nat
        }),
    decreases m,
{
    if m > 0 {
        lemma_count_true_set(f, c, m - 1);
    }
}

/// The cell numbered `c` when a grid `h` cells high is numbered column by column.
pub open spec fn cell_of(c: int, h: nat) -> (i32, i32) {
    ((c / (h as int)) as i32, (c % (h as int)) as i32)
}

proof fn lemma_cell_of(c: int, w: nat, h: nat)
    requires
        0 <= c < w * h,
        h > 0,
        w <= i32::MAX,
        h <= i32::MAX,
    ensures
        0 <= c / (h as int) < w,
        0 <= c % (h as int) < h,
        cell_of(c, h).0 as int == c / (h as int),
        cell_of(c, h).1 as int == c % (h as int),
{
    assert(0 <= c / (h as int) < w) by (nonlinear_arith)
        requires
            0 <= c < w * h,
            h > 0,
    ;
    assert(0 <= c % (h as int) < h) by (nonlinear_arith)
        requires
            h > 0,
    ;
}

proof fn lemma_cell_of_injective(c1: int, c2: int, h: nat)
    requires
        0 <= c1,
        0 <= c2,
        h > 0,
        c1 / (h as int) <= i32::MAX,
        c2 / (h as int) <= i32::MAX,
        h <= i32::MAX,
        c1 != c2,
    ensures
        cell_of(c1, h) != cell_of(c2, h),
{
    let hi = h as int;
    assert(0 <= c1 % hi < hi && 0 <= c2 % hi < hi) by (nonlinear_arith)
        requires
            hi > 0,
    ;
    assert(0 <= c1 / hi && 0 <= c2 / hi) by (nonlinear_arith)
        requires
            hi > 0,
            0 <= c1,
            0 <= c2,
    ;
    assert(cell_of(c1, h).0 as int == c1 / hi);
    assert(cell_of(c2, h).0 as int == c2 / hi);
    assert(cell_of(c1, h).1 as int == c1 % hi);
    assert(cell_of(c2, h).1 as int == c2 % hi);
    assert(c1 == hi * (c1 / hi) + c1 % hi) by (nonlinear_arith)
        requires
            hi > 0,
    ;
    assert(c2 == hi * (c2 / hi) + c2 % hi) by (nonlinear_arith)
        requires
            hi > 0,
    ;
    assert(0 <= c1 % hi < hi && 0 <= c2 % hi < hi) by (nonlinear_arith)
        requires
            hi > 0,
    ;
    assert(0 <= c1 / hi && 0 <= c2 / hi) by (nonlinear_arith)
        requires
            hi > 0,
            0 <= c1,
            0 <= c2,
    ;
}

/// The cell number that the draw `r` picks: counting from cell `c` on, the
/// free cell (one not in `chosen`) with `r` free cells before it.
pub open spec fn nth_free(chosen: Seq<int>, c: int, r: int, total: int) -> int
    decreases total - c,
{
    if c >= total {
        total
    } else if chosen.contains(c) {
        nth_free(chosen, c + 1, r, total)
    } else if r <= 0 {
        c
    } else {
        nth_free(chosen, c + 1, r - 1, total)
    }
}

/// The cell numbers picked by the first `k` draws: each draw `draws[i]`
/// picks the `draws[i]`-th cell not picked yet (see `nth_free`).
pub open spec fn seed_numbers(draws: Seq<u64>, total: int, k: nat) -> Seq<int>
    decreases k,
{
    if k == 0 {
        Seq::empty()
    } else {
        let prev = seed_numbers(draws, total, (k - 1) as nat);
        prev.push(nth_free(prev, 0, draws[k - 1] as int, total))
    }
}

/// The draws fit: there are fewer than `total`, and draw `i` is below the
/// number of cells still free, `total - i`.
pub open spec fn draws_fit(draws: Seq<u64>, total: int) -> bool {
    &&& draws.len() < total
    &&& forall|i: int| 0 <= i < draws.len() ==> #[trigger] draws[i] < total - i
}

/// The seeds picked from a grid `height` cells high by the draws (see
/// `seed_numbers`), as cells, cells numbered column by column.
pub fn seeds_from_draws(draws: &Vec<u64>, width: u32, height: u32) -> (seeds: Vec<(i32, i32)>)
    requires
        width * height <= usize::MAX,
        width <= i32::MAX,
        height <= i32::MAX,
        draws_fit(draws@, width * height),
    ensures
        seeds@.len() == draws@.len(),
        forall|i: int|
            0 <= i < seeds@.len() ==> #[trigger] seeds@[i] == cell_of(
                seed_numbers(draws@, width * height, draws@.len())[i],
                height as nat,
            ),
        seeds@.no_duplicates(),
        forall|i: int|
            0 <= i < seeds@.len() ==> 0 <= (#[trigger] seeds@[i]).0 < width && 0 <= seeds@[i].1 < height,
{
    let total: usize = (width as usize) * (height as usize);
    let n = draws.len();
    let mut seeds: Vec<(i32, i32)> = Vec::new();
    let h = height as usize;
    let ghost hn = height as nat;
    let ghost wn = width as nat;
    let mut flags: Vec<bool> = Vec::new();
    let mut i: usize = 0;
    while i < total
        invariant
            i <= total,
            flags@.len() == i,
            forall|j: int| 0 <= j < i ==> !(#[trigger] flags@[j]),
        decreases total - i,
    {
        flags.push(false);
        i += 1;
    }
    proof {
        assert forall|m: int| 0 <= m <= total implies count_true(flags@, m) == 0 by {
            lemma_count_true_zero(flags@, m);
        }
    }
    let ghost mut idx: Seq<int> = Seq::empty();
    assert(hn > 0) by (nonlinear_arith)
        requires
            wn * hn == total,
            total > n,
            n >= 0,
    ;
    let mut k: usize = 0;
    while k < n
        invariant
            total == wn * hn,
            h == hn,
            hn > 0,
            wn <= i32::MAX,
            hn <= i32::MAX,
            n == draws@.len(),
            draws_fit(draws@, total as int),
            k <= n < total,
            flags@.len() == total,
            seeds@.len() == k,
            idx.len() == k,
            idx == seed_numbers(draws@, total as int, k as nat),
            count_true(flags@, total as int) == k,
            idx.no_duplicates(),
            forall|j: int| 0 <= j < k ==> 0 <= #[trigger] idx[j] < total,
            forall|j: int| 0 <= j < k ==> #[trigger] seeds@[j] == cell_of(idx[j], hn),
            forall|c: int| 0 <= c < total ==> (#[trigger] flags@[c] <==> idx.contains(c)),
        decreases n - k,
    {
        let r = draws[k] as usize;
        assert(draws@[k as int] < total - k);
        let remaining = total - k;
        let mut c: usize = 0;
        let mut cnt: usize = 0;
        let mut pick: usize = 0;
        let mut found = false;
        while c < total
            invariant
                flags@.len() == total,
                c <= total,
                r < remaining,
                remaining == total - k,
                cnt == c - count_true(flags@, c as int),
                forall|c2: int| 0 <= c2 < total ==> (#[trigger] flags@[c2] <==> idx.contains(c2)),
                !found ==> cnt <= r,
                !found ==> nth_free(idx, 0, r as int, total as int) == nth_free(idx, c as int, r - cnt, total as int),
                found ==> pick < total && !flags@[pick as int],
                found ==> pick as int == nth_free(idx, 0, r as int, total as int),
            decreases total - c,
        {
            if !flags[c] {
                if cnt == r && !found {
                    pick = c;
                    found = true;
                }
                cnt += 1;
            }
            c += 1;
        }
        proof {
            if !found {
                assert(cnt == total - k);
            }
        }
        proof {
            lemma_count_true_set(flags@, pick as int, total as int);
            lemma_cell_of(pick as int, wn, hn);
            assert(!idx.contains(pick as int));
        }
        let x = (pick / h) as i32;
        let y = (pick % h) as i32;
        let ghost fb = flags@;
        flags.set(pick, true);
        seeds.push((x, y));
        proof {
            assert forall|j: int| 0 <= j < k implies seeds@[j] != seeds@[k as int] by {
                lemma_cell_of(idx[j], wn, hn);
                lemma_cell_of_injective(idx[j], pick as int, hn);
            }
            let old_idx = idx;
            idx = idx.push(pick as int);
            assert(idx == seed_numbers(draws@, total as int, (k + 1) as nat));
            assert forall|c2: int| 0 <= c2 < total implies (#[trigger] flags@[c2] <==> idx.contains(c2)) by {
                if c2 == pick as int {
                    assert(idx[k as int] == c2);
                } else {
                    assert(flags@[c2] == fb[c2]);
                    if idx.contains(c2) {
                        let j = choose|j: int| 0 <= j < idx.len() && idx[j] == c2;
                        assert(j < k);
                        assert(old_idx[j] == c2);
                        assert(old_idx.contains(c2));
                    }
                    if old_idx.contains(c2) {
                        let j = choose|j: int| 0 <= j < old_idx.len() && old_idx[j] == c2;
                        assert(idx[j] == c2);
                    }
                }
            }
        }
        k += 1;
    }
    proof {
        assert forall|i1: int, i2: int| 0 <= i1 < seeds@.len() && 0 <= i2 < seeds@.len() && i1 != i2 implies seeds@[i1] != seeds@[i2] by {
            lemma_cell_of(idx[i1], wn, hn);
            lemma_cell_of(idx[i2], wn, hn);
            lemma_cell_of_injective(idx[i1], idx[i2], hn);
        }
        assert forall|i: int| 0 <= i < seeds@.len() implies 0 <= (#[trigger] seeds@[i]).0 < width && 0 <= seeds@[i].1 < height by {
            lemma_cell_of(idx[i], wn, hn);
        }
    }
    seeds
}

/// `n` seeds for a Voronoi map of a `width` by `height` grid: `n` different
/// cells drawn at random, none when `n` is not below the number of cells.
/// Each cell is drawn among those not drawn yet (see `seeds_from_draws`), so
/// the set of seeds is a uniformly random set of `n` cells.
pub fn voronoi_seeds(n: usize, width: u32, height: u32) -> (seeds: Vec<(i32, i32)>)
    requires
        width * height <= usize::MAX,
        width <= i32::MAX,
        height <= i32::MAX,
    ensures
        n >= width * height ==> seeds@.len() == 0,
        n < width * height ==> seeds@.len() == n,
        n < width * height ==> exists|draws: Seq<u64>|
            {
                &&& draws.len() == n
                &&& draws_fit(draws, width * height)
                &&& forall|i: int|
                    0 <= i < seeds@.len() ==> #[trigger] seeds@[i] == cell_of(
                        seed_numbers(draws, width * height, draws.len())[i],
                        height as nat,
                    )
            },
        seeds@.no_duplicates(),
        forall|i: int|
            0 <= i < seeds@.len() ==> 0 <= (#[trigger] seeds@[i]).0 < width && 0 <= seeds@[i].1 < height,
{
    let total: usize = (width as usize) * (height as usize);
    if n >= total {
        return Vec::new();
    }
    let mut draws: Vec<u64> = Vec::new();
    let mut k: usize = 0;
    while k < n
        invariant
            k <= n < total,
            draws@.len() == k,
            forall|i: int| 0 <= i < k ==> #[trigger] draws@[i] < total - i,
        decreases n - k,
    {
        let r = thread_random_below((total - k) as u64);
        draws.push(r);
        k += 1;
    }
    seeds_from_draws(&draws, width, height)
}

proof fn lemma_count_true_zero(f: Seq<bool>, m: int)
    requires
        0 <= m <= f.len(),
        forall|j: int| 0 <= j < f.len() ==> !(#[trigger] f[j]),
    ensures
        count_true(f, m) == 0,
    decreases m,
{
    if m > 0 {
        lemma_count_true_zero(f, m - 1);
    }
}

} // verus!
