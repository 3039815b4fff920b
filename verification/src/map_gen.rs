use vstd::prelude::*;
use crate::obstacle::Obstacle;
use crate::obstacle_table::{in_grid, ObstacleTable};
use crate::obstacle_automata::neighbor_counts;
use crate::neighbourhood::{cells_around_where, count_where, lemma_count_around};
use crate::vec_ops::{neighbor_list, neighbors};
use crate::voronoi::{
    is_membership, lemma_membership_is_nearest_seed, nearest_seed, voronoi_membership, voronoi_seeds,
};
use crate::goal_table::{goal_positions, GoalTable};
use crate::obstacle_automata::{apply_automata, next_cell};
use crate::union_find::uf_len;

verus! {

/// `v` is `1` or `-1`.
pub open spec fn is_unit(v: i32) -> bool {
    v == 1 || v == -1
}

/// Among the first `k` cells of `nbrs`, the number that belong to another seed
/// than `c` does; with `skip_unit`, cells whose two coordinates are each `1` or
/// `-1` are not counted.
pub open spec fn border_count(
    seeds: Seq<(i32, i32)>,
    c: (i32, i32),
    nbrs: Seq<(i32, i32)>,
    k: nat,
    skip_unit: bool,
) -> nat
    decreases k,
{
    if k == 0 {
        0
    } else {
        let rest = border_count(seeds, c, nbrs, (k - 1) as nat, skip_unit);
        let n = nbrs[k - 1];
        if skip_unit && is_unit(n.0) && is_unit(n.1) {
            rest
        } else if nearest_seed(seeds, n.0 as int, n.1 as int) != nearest_seed(
            seeds,
            c.0 as int,
            c.1 as int,
        ) {
            rest + 1
        } else {
            rest
        }
    }
}

/// The number of neighbours of `(x, y)` in a `w` by `h` grid that belong to
/// another Voronoi seed (see `border_count`).
pub open spec fn seed_borders(seeds: Seq<(i32, i32)>, w: nat, h: nat, x: int, y: int, skip_unit: bool) -> nat {
    let nb = neighbor_list(x as i32, y as i32, 0, 0, (w - 1) as i32, (h - 1) as i32);
    border_count(seeds, (x as i32, y as i32), nb, nb.len(), skip_unit)
}

/// The four Voronoi passes.  `Platform` passes turn into platforms the cells
/// whose border count meets the test; `Wall` passes turn them into walls.
#[derive(Clone, Copy, PartialEq, Eq, Structural, Debug)]
pub enum VoronoiPass {
    /// `apply_voronoi`: count without the unit cells, fewer than 2, platform.
    Open,
    /// `apply_voronoi_n2`: count all, odd and fewer than 5, platform.
    OpenOdd,
    /// `apply_voronoi_inv`: count without the unit cells, fewer than 2, wall.
    Close,
    /// `apply_voronoi_inv_n2`: count all, odd and fewer than 4, wall.
    CloseOdd,
}

pub open spec fn pass_skips_unit(pass: VoronoiPass) -> bool {
    pass == VoronoiPass::Open || pass == VoronoiPass::Close
}

pub open spec fn pass_selects(pass: VoronoiPass, count: nat) -> bool {
    match pass {
        VoronoiPass::Open => count < 2,
        VoronoiPass::OpenOdd => count < 5 && count % 2 == 1,
        VoronoiPass::Close => count < 2,
        VoronoiPass::CloseOdd => count % 2 == 1 && count < 4,
    }
}

pub open spec fn pass_result(pass: VoronoiPass) -> Obstacle {
    match pass {
        VoronoiPass::Open => Obstacle::Platform,
        VoronoiPass::OpenOdd => Obstacle::Platform,
        VoronoiPass::Close => Obstacle::Wall,
        VoronoiPass::CloseOdd => Obstacle::Wall,
    }
}

/// The grid after a Voronoi pass over the `w` by `h` grid `g`.
pub open spec fn voronoi_pass_result(
    pass: VoronoiPass,
    seeds: Seq<(i32, i32)>,
    g: Seq<Seq<Obstacle>>,
    w: nat,
    h: nat,
    x: int,
    y: int,
) -> Obstacle {
    if pass_selects(pass, seed_borders(seeds, w, h, x, y, pass_skips_unit(pass))) {
        pass_result(pass)
    } else {
        g[x][y]
    }
}

/// The table after a Voronoi pass: each cell is `voronoi_pass_result` of the
/// table before.
pub open spec fn after_voronoi_pass(
    pass: VoronoiPass,
    seeds: Seq<(i32, i32)>,
    before: &ObstacleTable,
    after: &ObstacleTable,
) -> bool {
    &&& after.wf()
    &&& after.same_but_grid(before)
    &&& forall|x: int, y: int|
        0 <= x < before.width_of() && 0 <= y < before.height_of() ==> #[trigger] after@[x][y]
            == voronoi_pass_result(pass, seeds, before@, before.width_of(), before.height_of(), x, y)
}

fn is_unit_exec(v: i32) -> (b: bool)
    ensures
        b == is_unit(v),
{
    v == 1 || v == -1
}

/// The border count of `(x, y)` (see `seed_borders`) read from a membership grid.
fn borders_at(
    seeds: &Vec<(i32, i32)>,
    vmembers: &Vec<Vec<(i32, i32)>>,
    w: u32,
    h: u32,
    x: u32,
    y: u32,
    skip_unit: bool,
) -> (count: u32)
    requires
        is_membership(seeds@, w as nat, h as nat, vmembers@.map_values(|c: Vec<(i32, i32)>| c@)),
        x < w <= i32::MAX,
        y < h <= i32::MAX,
    ensures
        count == seed_borders(seeds@, w as nat, h as nat, x as int, y as int, skip_unit),
{
    let ghost mv = vmembers@.map_values(|c: Vec<(i32, i32)>| c@);
    let nbrs = neighbors((x as i32, y as i32), (0, 0), (w as i32 - 1, h as i32 - 1));
    proof {
        crate::vec_ops::lemma_neighbors_exact(x as i32, y as i32, (0, 0), ((w - 1) as i32, (h - 1) as i32));
        lemma_membership_is_nearest_seed(seeds@, w as nat, h as nat, mv, x as int, y as int);
        assert(mv[x as int] == vmembers@[x as int]@);
    }
    let myseed = vmembers[x as usize][y as usize];
    let mut nbrs_count: u32 = 0;
    let mut k: usize = 0;
    while k < nbrs.len()
        invariant
            k <= nbrs@.len(),
            nbrs@.len() <= 8,
            x < w <= i32::MAX,
            y < h <= i32::MAX,
            nbrs@ == neighbor_list(x as i32, y as i32, 0, 0, (w - 1) as i32, (h - 1) as i32),
            forall|p: (i32, i32)|
                #![trigger nbrs@.contains(p)]
                nbrs@.contains(p) ==> in_grid(p, w as nat, h as nat),
            is_membership(seeds@, w as nat, h as nat, mv),
            mv == vmembers@.map_values(|c: Vec<(i32, i32)>| c@),
            myseed == nearest_seed(seeds@, x as int, y as int),
            nbrs_count == border_count(seeds@, (x as i32, y as i32), nbrs@, k as nat, skip_unit),
            nbrs_count <= k,
        decreases nbrs.len() - k,
    {
        let nbr = nbrs[k];
        assert(nbrs@.contains(nbr));
        if skip_unit && is_unit_exec(nbr.0) && is_unit_exec(nbr.1) {
            k += 1;
            continue;
        }
        proof {
            lemma_membership_is_nearest_seed(seeds@, w as nat, h as nat, mv, nbr.0 as int, nbr.1 as int);
            assert(mv[nbr.0 as int] == vmembers@[nbr.0 as int]@);
        }
        let nbrseed = vmembers[nbr.0 as usize][nbr.1 as usize];
        assert(nbrseed == nearest_seed(seeds@, nbr.0 as int, nbr.1 as int));
        assert(border_count(seeds@, (x as i32, y as i32), nbrs@, (k + 1) as nat, skip_unit) == (if nearest_seed(seeds@, nbr.0 as int, nbr.1 as int) != nearest_seed(seeds@, x as int, y as int) {
            nbrs_count + 1
        } else {
            nbrs_count as int
        }));
        if myseed.0 != nbrseed.0 || myseed.1 != nbrseed.1 {
            nbrs_count += 1;
        }
        k += 1;
    }
    nbrs_count
}

/// Run a Voronoi pass over the whole table (see `voronoi_pass_result`).
fn voronoi_pass(table: &mut ObstacleTable, seeds: &Vec<(i32, i32)>, pass: VoronoiPass)
    requires
        old(table).wf(),
        seeds.len() > 0 || old(table).width_of() == 0 || old(table).height_of() == 0,
    ensures
        after_voronoi_pass(pass, seeds@, old(table), final(table)),
{
    let w = table.width();
    let h = table.height();
    let vmembers = voronoi_membership(seeds, w, h);
    let ghost g = table@;
    let skip_unit = pass == VoronoiPass::Open || pass == VoronoiPass::Close;
    for x in 0..w
        invariant
            table.wf(),
            table.same_but_grid(old(table)),
            w == table.width_of(),
            h == table.height_of(),
            g == old(table)@,
            skip_unit == pass_skips_unit(pass),
            is_membership(seeds@, w as nat, h as nat, vmembers@.map_values(|c: Vec<(i32, i32)>| c@)),
            forall|i: int, j: int|
                0 <= i < w && 0 <= j < h ==> #[trigger] table@[i][j] == (if i < x {
                    voronoi_pass_result(pass, seeds@, g, w as nat, h as nat, i, j)
                } else {
                    g[i][j]
                }),
    {
        for y in 0..h
            invariant
                table.wf(),
                table.same_but_grid(old(table)),
                w == table.width_of(),
                h == table.height_of(),
                x < w,
                g == old(table)@,
                skip_unit == pass_skips_unit(pass),
                is_membership(seeds@, w as nat, h as nat, vmembers@.map_values(|c: Vec<(i32, i32)>| c@)),
                forall|i: int, j: int|
                    0 <= i < w && 0 <= j < h ==> #[trigger] table@[i][j] == (if i < x || (i == x
                        && j < y) {
                        voronoi_pass_result(pass, seeds@, g, w as nat, h as nat, i, j)
                    } else {
                        g[i][j]
                    }),
        {
            let nbrs_count = borders_at(seeds, &vmembers, w, h, x, y, skip_unit);
            let selected = match pass {
                VoronoiPass::Open => nbrs_count < 2,
                VoronoiPass::OpenOdd => nbrs_count < 5 && nbrs_count % 2 == 1,
                VoronoiPass::Close => nbrs_count < 2,
                VoronoiPass::CloseOdd => nbrs_count % 2 == 1 && nbrs_count < 4,
            };
            if selected {
                let obs = match pass {
                    VoronoiPass::Open => Obstacle::Platform,
                    VoronoiPass::OpenOdd => Obstacle::Platform,
                    VoronoiPass::Close => Obstacle::Wall,
                    VoronoiPass::CloseOdd => Obstacle::Wall,
                };
                table.set_obstacle((x as i32, y as i32), obs);
            }
        }
    }
}

/// Turn into walls the cells with fewer than two neighbours, not counting the
/// cells whose coordinates are each 1 or -1, that belong to another seed.
pub fn apply_voronoi_inv(table: &mut ObstacleTable, seeds: &Vec<(i32, i32)>)
    requires
        old(table).wf(),
        seeds.len() > 0 || old(table).width_of() == 0 || old(table).height_of() == 0,
    ensures
        after_voronoi_pass(VoronoiPass::Close, seeds@, old(table), final(table)),
{
    voronoi_pass(table, seeds, VoronoiPass::Close);
}

/// Turn into walls the cells with an odd number, below 4, of neighbours that
/// belong to another seed.
pub fn apply_voronoi_inv_n2(table: &mut ObstacleTable, seeds: &Vec<(i32, i32)>)
    requires
        old(table).wf(),
        seeds.len() > 0 || old(table).width_of() == 0 || old(table).height_of() == 0,
    ensures
        after_voronoi_pass(VoronoiPass::CloseOdd, seeds@, old(table), final(table)),
{
    voronoi_pass(table, seeds, VoronoiPass::CloseOdd);
}

/// Turn into platforms the cells with fewer than two neighbours, not counting
/// the cells whose coordinates are each 1 or -1, that belong to another seed.
pub fn apply_voronoi(table: &mut ObstacleTable, seeds: &Vec<(i32, i32)>)
    requires
        old(table).wf(),
        seeds.len() > 0 || old(table).width_of() == 0 || old(table).height_of() == 0,
    ensures
        after_voronoi_pass(VoronoiPass::Open, seeds@, old(table), final(table)),
{
    voronoi_pass(table, seeds, VoronoiPass::Open);
}

/// Turn into platforms the cells with an odd number, below 5, of neighbours
/// that belong to another seed.
pub fn apply_voronoi_n2(table: &mut ObstacleTable, seeds: &Vec<(i32, i32)>)
    requires
        old(table).wf(),
        seeds.len() > 0 || old(table).width_of() == 0 || old(table).height_of() == 0,
    ensures
        after_voronoi_pass(VoronoiPass::OpenOdd, seeds@, old(table), final(table)),
{
    voronoi_pass(table, seeds, VoronoiPass::OpenOdd);
}

/// The directions in which `tunnel_position` looks for open ground, in the
/// order it tries them: up, down, left, right, then the four diagonals.
pub open spec fn scan_dir(d: int) -> (int, int) {
    if d == 0 {
        (0, -1)
    } else if d == 1 {
        (0, 1)
    } else if d == 2 {
        (-1, 0)
    } else if d == 3 {
        (1, 0)
    } else if d == 4 {
        (-1, -1)
    } else if d == 5 {
        (1, -1)
    } else if d == 6 {
        (-1, 1)
    } else {
        (1, 1)
    }
}

/// The cell looked at in scan step `s` around `c`: `s / 8 + 1` cells away in
/// direction `s % 8`.
pub open spec fn scan_cell(c: (i32, i32), s: nat) -> (int, int) {
    let r = s / 8 + 1;
    let d = scan_dir((s % 8) as int);
    (c.0 + r * d.0, c.1 + r * d.1)
}

/// The number of platforms around the cell `p` of a `w` by `h` grid.
pub open spec fn platform_neighbors(g: Seq<Seq<Obstacle>>, w: nat, h: nat, p: (i32, i32)) -> nat {
    let nb = neighbor_list(p.0, p.1, 0, 0, (w - 1) as i32, (h - 1) as i32);
    neighbor_counts(g, nb, nb.len()).1
}

/// The cell of scan step `s` can start a tunnel: it lies inside the grid, off
/// its first row and column, is a platform, and has more than one platform
/// around it.
pub open spec fn tunnel_start_ok(g: Seq<Seq<Obstacle>>, w: nat, h: nat, c: (i32, i32), s: nat) -> bool {
    let p = scan_cell(c, s);
    &&& 0 < p.0 < w
    &&& 0 < p.1 < h
    &&& g[p.0][p.1] == Obstacle::Platform
    &&& platform_neighbors(g, w, h, (p.0 as i32, p.1 as i32)) > 1
}

/// The first scan step from `s` on, below `limit`, whose cell can start a tunnel.
pub open spec fn next_start(g: Seq<Seq<Obstacle>>, w: nat, h: nat, c: (i32, i32), s: nat, limit: nat) -> Option<
    nat,
>
    decreases limit - s,
{
    if s >= limit {
        None
    } else if tunnel_start_ok(g, w, h, c, s) {
        Some(s)
    } else {
        next_start(g, w, h, c, s + 1, limit)
    }
}

/// Scan steps past this one look outside the grid.
pub open spec fn scan_limit(w: nat, h: nat) -> nat {
    8 * (if w > h {
        w
    } else {
        h
    })
}

/// The scan steps of the two tunnel starts around `c`: the first two steps whose
/// cells can start a tunnel.
pub open spec fn tunnel_starts(g: Seq<Seq<Obstacle>>, w: nat, h: nat, c: (i32, i32)) -> Option<(nat, nat)> {
    match next_start(g, w, h, c, 0, scan_limit(w, h)) {
        None => None,
        Some(a) => match next_start(g, w, h, c, a + 1, scan_limit(w, h)) {
            None => None,
            Some(b) => Some((a, b)),
        },
    }
}

/// `v` brought into `lo..=hi`.
pub open spec fn clamp_int(v: int, lo: int, hi: int) -> int {
    if v < lo {
        lo
    } else if v > hi {
        hi
    } else {
        v
    }
}

/// `p` brought into the `w` by `h` grid.
pub open spec fn clamp_cell(p: (int, int), w: nat, h: nat) -> (int, int) {
    (clamp_int(p.0, 0, w - 1), clamp_int(p.1, 0, h - 1))
}

/// Where the tunnel that starts at scan step `s` stands after `k` steps back
/// towards the centre.
pub open spec fn tunneler_at(c: (i32, i32), s: nat, k: int) -> (int, int) {
    let start = scan_cell(c, s);
    let d = scan_dir((s % 8) as int);
    (start.0 - k * d.0, start.1 - k * d.1)
}

/// `-1`, `0` or `1` as `v` is negative, zero or positive.
pub open spec fn sign_of(v: int) -> int {
    if v > 0 {
        1
    } else if v < 0 {
        -1
    } else {
        0
    }
}

/// The unit step `d` turned by an eighth of a turn: one way for a positive
/// `t`, the other way for a negative one, not at all for zero.
pub open spec fn turned(d: (int, int), t: i32) -> (int, int) {
    if t > 0 {
        (sign_of(d.0 - d.1), sign_of(d.0 + d.1))
    } else if t < 0 {
        (sign_of(d.0 + d.1), sign_of(d.1 - d.0))
    } else {
        d
    }
}

/// The side step of the tunnel from scan step `s` for the turn `t`: its
/// direction back towards the centre, turned by `t` (see `turned`).
pub open spec fn side_step(s: nat, t: i32) -> (int, int) {
    let d = scan_dir((s % 8) as int);
    turned((-d.0, -d.1), t)
}

/// The cells the tunnel from scan step `s` opens: for each of its `s / 8 + 1`
/// steps, the next cell towards the centre and the cell one `side_step` for
/// `turns[k]` away from where it stands, each brought into the grid.
pub open spec fn tunnel_cells(c: (i32, i32), s: nat, turns: Seq<i32>, w: nat, h: nat) -> Set<(int, int)> {
    Set::new(|q: (int, int)| opened_before(c, s, turns, w, h, (s / 8 + 1) as int, q))
}

/// Step `k` of the tunnel from scan step `s` opens the cell `q`.
pub open spec fn step_opens(c: (i32, i32), s: nat, turns: Seq<i32>, w: nat, h: nat, k: int, q: (int, int)) -> bool {
    q == clamp_cell(tunneler_at(c, s, k + 1), w, h) || q == clamp_cell(
        (tunneler_at(c, s, k).0 + side_step(s, turns[k]).0, tunneler_at(c, s, k).1 + side_step(s, turns[k]).1),
        w,
        h,
    )
}

/// One of the first `n` steps of the tunnel from scan step `s` opens `q`.
pub open spec fn opened_before(c: (i32, i32), s: nat, turns: Seq<i32>, w: nat, h: nat, n: int, q: (int, int)) -> bool {
    exists|k: int| 0 <= k < n && #[trigger] step_opens(c, s, turns, w, h, k, q)
}

/// `after` is `before` with the tunnels into `c` dug: unchanged when no two
/// tunnel starts exist, else every cell of either tunnel made a platform.
pub open spec fn tunnel_outcome(
    before: Seq<Seq<Obstacle>>,
    after: Seq<Seq<Obstacle>>,
    w: nat,
    h: nat,
    c: (i32, i32),
    turns1: Seq<i32>,
    turns2: Seq<i32>,
) -> bool {
    match tunnel_starts(before, w, h, c) {
        None => after == before,
        Some((a, b)) => forall|x: int, y: int|
            0 <= x < w && 0 <= y < h ==> #[trigger] after[x][y] == (if tunnel_cells(c, a, turns1, w, h).contains((x, y))
                || tunnel_cells(c, b, turns2, w, h).contains((x, y)) {
                Obstacle::Platform
            } else {
                before[x][y]
            }),
    }
}

fn clamp_i64(v: i64, lo: i64, hi: i64) -> (r: i64)
    requires
        lo <= hi,
    ensures
        r == clamp_int(v as int, lo as int, hi as int),
{
    if v < lo {
        lo
    } else if v > hi {
        hi
    } else {
        v
    }
}

fn scan_dir_exec(d: usize) -> (r: (i64, i64))
    requires
        d < 8,
    ensures
        (r.0 as int, r.1 as int) == scan_dir(d as int),
        -1 <= r.0 <= 1,
        -1 <= r.1 <= 1,
{
    if d == 0 {
        (0, -1)
    } else if d == 1 {
        (0, 1)
    } else if d == 2 {
        (-1, 0)
    } else if d == 3 {
        (1, 0)
    } else if d == 4 {
        (-1, -1)
    } else if d == 5 {
        (1, -1)
    } else if d == 6 {
        (-1, 1)
    } else {
        (1, 1)
    }
}

/// The number of platforms around `(x, y)` (see `platform_neighbors`).
fn count_platform_neighbors(table: &ObstacleTable, x: i32, y: i32) -> (n: u32)
    requires
        table.wf(),
        table.has_cell((x, y)),
    ensures
        n == platform_neighbors(table@, table.width_of(), table.height_of(), (x, y)),
{
    let w = table.width();
    let h = table.height();
    let nbrs = neighbors((x, y), (0, 0), (w as i32 - 1, h as i32 - 1));
    proof {
        crate::vec_ops::lemma_neighbors_exact(x, y, (0, 0), ((w - 1) as i32, (h - 1) as i32));
    }
    let ghost g = table@;
    let mut count_platforms: u32 = 0;
    let mut k: usize = 0;
    while k < nbrs.len()
        invariant
            table.wf(),
            g == table@,
            w == table.width_of(),
            h == table.height_of(),
            k <= nbrs@.len(),
            nbrs@.len() <= 8,
            nbrs@ == neighbor_list(x, y, 0, 0, (w - 1) as i32, (h - 1) as i32),
            forall|p: (i32, i32)|
                #![trigger nbrs@.contains(p)]
                nbrs@.contains(p) ==> in_grid(p, w as nat, h as nat),
            count_platforms == neighbor_counts(g, nbrs@, k as nat).1,
            count_platforms <= k,
        decreases nbrs.len() - k,
    {
        let nbr = nbrs[k];
        assert(nbrs@.contains(nbr));
        if table.get_obstacle(nbr.0, nbr.1) == Obstacle::Platform {
            count_platforms += 1;
        }
        k += 1;
    }
    count_platforms
}

/// Scan steps from `from` on (below `scan_limit`) for the first one whose cell
/// can start a tunnel (see `next_start`).
fn scan_for_start(table: &ObstacleTable, c: (i32, i32), from: u64) -> (r: Option<u64>)
    requires
        table.wf(),
        table.has_cell(c),
    ensures
        match r {
            None => next_start(table@, table.width_of(), table.height_of(), c, from as nat, scan_limit(table.width_of(), table.height_of())) is None,
            Some(s) => next_start(table@, table.width_of(), table.height_of(), c, from as nat, scan_limit(table.width_of(), table.height_of())) == Some(s as nat)
                && s < scan_limit(table.width_of(), table.height_of()),
        },
{
    let w = table.width() as u64;
    let h = table.height() as u64;
    let limit: u64 = 8 * (if w > h {
        w
    } else {
        h
    });
    let ghost g = table@;
    let ghost wn = table.width_of();
    let ghost hn = table.height_of();
    let mut s = from;
    while s < limit
        invariant
            table.wf(),
            table.has_cell(c),
            g == table@,
            wn == table.width_of(),
            hn == table.height_of(),
            w == wn,
            h == hn,
            limit == scan_limit(wn, hn),
            from <= s,
            s <= limit || s == from,
            next_start(g, wn, hn, c, from as nat, limit as nat) == next_start(g, wn, hn, c, s as nat, limit as nat),
        decreases limit - s,
    {
        let r = (s / 8 + 1) as i64;
        let d = scan_dir_exec((s % 8) as usize);
        assert(r <= 0x1_0000_0000);
        assert(-0x1_0000_0000 <= r * d.0 <= 0x1_0000_0000) by (nonlinear_arith)
            requires
                0 <= r <= 0x1_0000_0000,
                -1 <= d.0 <= 1,
        ;
        assert(-0x1_0000_0000 <= r * d.1 <= 0x1_0000_0000) by (nonlinear_arith)
            requires
                0 <= r <= 0x1_0000_0000,
                -1 <= d.1 <= 1,
        ;
        let px = c.0 as i64 + r * d.0;
        let py = c.1 as i64 + r * d.1;
        assert((px as int, py as int) == scan_cell(c, s as nat));
        if px > 0 && px < w as i64 && py > 0 && py < h as i64 {
            if table.get_obstacle(px as i32, py as i32) == Obstacle::Platform {
                let n = count_platform_neighbors(table, px as i32, py as i32);
                if n > 1 {
                    return Some(s);
                }
            }
        }
        s += 1;
    }
    None
}

fn sign_i64(v: i64) -> (r: i64)
    ensures
        r == sign_of(v as int),
{
    if v > 0 {
        1
    } else if v < 0 {
        -1
    } else {
        0
    }
}

/// The unit step `d` turned by `t` (see `turned`).
fn turn_step(d: (i64, i64), t: i32) -> (r: (i64, i64))
    requires
        -1 <= d.0 <= 1,
        -1 <= d.1 <= 1,
    ensures
        (r.0 as int, r.1 as int) == turned((d.0 as int, d.1 as int), t),
        -1 <= r.0 <= 1,
        -1 <= r.1 <= 1,
{
    if t > 0 {
        (sign_i64(d.0 - d.1), sign_i64(d.0 + d.1))
    } else if t < 0 {
        (sign_i64(d.0 + d.1), sign_i64(d.1 - d.0))
    } else {
        d
    }
}

/// Open the tunnel that starts at scan step `s` (see `tunnel_cells`).
fn carve(table: &mut ObstacleTable, c: (i32, i32), s: u64, turns: &Vec<i32>)
    requires
        old(table).wf(),
        old(table).has_cell(c),
        old(table).width_of() > 0,
        old(table).height_of() > 0,
        s / 8 + 1 <= turns.len(),
        s < scan_limit(old(table).width_of(), old(table).height_of()),
    ensures
        final(table).wf(),
        final(table).same_but_grid(old(table)),
        forall|x: int, y: int|
            0 <= x < old(table).width_of() && 0 <= y < old(table).height_of() ==> #[trigger] final(table)@[x][y]
                == (if tunnel_cells(c, s as nat, turns@, old(table).width_of(), old(table).height_of()).contains((x, y)) {
                Obstacle::Platform
            } else {
                old(table)@[x][y]
            }),
{
    let w = table.width() as i64;
    let h = table.height() as i64;
    let ghost wn = table.width_of();
    let ghost hn = table.height_of();
    let ghost g = table@;
    let ghost cells = tunnel_cells(c, s as nat, turns@, wn, hn);
    let steps = s / 8 + 1;
    assert(steps <= 0x8000_0000);
    let d = scan_dir_exec((s % 8) as usize);
    let dir = (-d.0, -d.1);
    assert(steps <= 0x1_0000_0000);
    assert(-0x1_0000_0000 <= steps * d.0 <= 0x1_0000_0000) by (nonlinear_arith)
        requires
            0 <= steps <= 0x1_0000_0000,
            -1 <= d.0 <= 1,
    ;
    assert(-0x1_0000_0000 <= steps * d.1 <= 0x1_0000_0000) by (nonlinear_arith)
        requires
            0 <= steps <= 0x1_0000_0000,
            -1 <= d.1 <= 1,
    ;
    let mut t = (c.0 as i64 + steps as i64 * d.0, c.1 as i64 + steps as i64 * d.1);
    let mut k: u64 = 0;
    while k < steps
        invariant
            table.wf(),
            table.same_but_grid(old(table)),
            g == old(table)@,
            wn == table.width_of(),
            hn == table.height_of(),
            w == wn,
            h == hn,
            w > 0,
            h > 0,
            w <= i32::MAX,
            h <= i32::MAX,
            k <= steps,
            steps == s / 8 + 1,
            steps <= turns@.len(),
            steps <= scan_limit(wn, hn),
            dir.0 == -d.0,
            dir.1 == -d.1,
            -1 <= d.0 <= 1,
            -1 <= d.1 <= 1,
            (d.0 as int, d.1 as int) == scan_dir((s % 8) as int),
            (t.0 as int, t.1 as int) == tunneler_at(c, s as nat, k as int),
            cells == tunnel_cells(c, s as nat, turns@, wn, hn),
            0 <= c.0 < wn,
            0 <= c.1 < hn,
            steps <= 0x8000_0000,
            -0x2_0000_0000 <= t.0 <= 0x2_0000_0000,
            -0x2_0000_0000 <= t.1 <= 0x2_0000_0000,
            forall|x: int, y: int|
                0 <= x < wn && 0 <= y < hn ==> #[trigger] table@[x][y] == (if opened_before(c, s as nat, turns@, wn, hn, k as int, (x, y)) {
                    Obstacle::Platform
                } else {
                    g[x][y]
                }),
        decreases steps - k,
    {
        assert(k < turns.len());
        let ku = k as usize;
        assert(ku == k);
        let p = turn_step(dir, turns[ku]);
        proof {
            let kk = k as int;
            assert((kk + 1) * d.0 == kk * d.0 + d.0) by (nonlinear_arith);
            assert((kk + 1) * d.1 == kk * d.1 + d.1) by (nonlinear_arith);
        }
        let tx = clamp_i64(t.0 + dir.0, 0, w - 1);
        let ty = clamp_i64(t.1 + dir.1, 0, h - 1);
        let px = clamp_i64(t.0 + p.0, 0, w - 1);
        let py = clamp_i64(t.1 + p.1, 0, h - 1);
        let ghost before = table@;
        table.set_obstacle((tx as i32, ty as i32), Obstacle::Platform);
        table.set_obstacle((px as i32, py as i32), Obstacle::Platform);
        proof {
            let a = (tx as int, ty as int);
            let b = (px as int, py as int);
            assert((p.0 as int, p.1 as int) == side_step(s as nat, turns@[k as int]));
            assert(t.0 == tunneler_at(c, s as nat, k as int).0);
            assert(px == clamp_int(t.0 + p.0, 0, wn - 1));
            assert(py == clamp_int(t.1 + p.1, 0, hn - 1));
            assert(a == clamp_cell(tunneler_at(c, s as nat, k + 1), wn, hn));
            assert(b == clamp_cell((tunneler_at(c, s as nat, k as int).0 + side_step(s as nat, turns@[k as int]).0, tunneler_at(c, s as nat, k as int).1 + side_step(s as nat, turns@[k as int]).1), wn, hn));
            assert forall|x: int, y: int|
                0 <= x < wn && 0 <= y < hn implies #[trigger] table@[x][y] == (if opened_before(c, s as nat, turns@, wn, hn, k + 1, (x, y)) {
                    Obstacle::Platform
                } else {
                    g[x][y]
                }) by {
                if (x, y) == a || (x, y) == b {
                    assert(step_opens(c, s as nat, turns@, wn, hn, k as int, (x, y)));
                } else {
                    assert(table@[x][y] == before[x][y]);
                    if opened_before(c, s as nat, turns@, wn, hn, k + 1, (x, y)) {
                        let j = choose|j: int| 0 <= j < k + 1 && #[trigger] step_opens(c, s as nat, turns@, wn, hn, j, (x, y));
                        assert(j != k);
                        assert(opened_before(c, s as nat, turns@, wn, hn, k as int, (x, y)));
                    }
                }
            }
        }
        t = (t.0 + dir.0, t.1 + dir.1);
        k += 1;
        proof {
            lemma_tunneler_near(c, s as nat, k as int);
        }
    }
    assert forall|x: int, y: int|
        0 <= x < wn && 0 <= y < hn implies #[trigger] table@[x][y] == (if cells.contains((x, y)) {
            Obstacle::Platform
        } else {
            g[x][y]
        }) by {
        assert(cells.contains((x, y)) == opened_before(c, s as nat, turns@, wn, hn, steps as int, (x, y)));
    }
}

/// Open tunnels from the nearest open ground into `(x, y)`.  Looking outwards
/// in eight directions, step by step, the first two platforms that have more
/// than one platform around them (and lie off the grid's first row and column)
/// start a tunnel each; each tunnel is dug straight back to `(x, y)`, each step
/// also opening the cell beside it in its direction turned an eighth of a turn
/// to the side that `turns[k]` gives (see `side_step`; `turns1` for the first
/// tunnel, `turns2` for the second).  When no two such platforms
/// exist nothing is dug and the result is `false`.
pub fn tunnel_position(
    table: &mut ObstacleTable,
    center: (i32, i32),
    turns1: &Vec<i32>,
    turns2: &Vec<i32>,
) -> (dug: bool)
    requires
        old(table).wf(),
        old(table).has_cell(center),
        turns1.len() >= scan_limit(old(table).width_of(), old(table).height_of()) / 8,
        turns2.len() >= scan_limit(old(table).width_of(), old(table).height_of()) / 8,
    ensures
        final(table).wf(),
        final(table).same_but_grid(old(table)),
        dug == tunnel_starts(old(table)@, old(table).width_of(), old(table).height_of(), center).is_some(),
        tunnel_outcome(old(table)@, final(table)@, old(table).width_of(), old(table).height_of(), center, turns1@, turns2@),
        forall|x: int, y: int|
            0 <= x < old(table).width_of() && 0 <= y < old(table).height_of() ==> #[trigger] final(table)@[x][y]
                == old(table)@[x][y] || final(table)@[x][y] == Obstacle::Platform,
{
    let first = scan_for_start(table, center, 0);
    let a = match first {
        None => return false,
        Some(a) => a,
    };
    let second = scan_for_start(table, center, a + 1);
    let b = match second {
        None => return false,
        Some(b) => b,
    };
    proof {
        lemma_next_start_bounds(table@, table.width_of(), table.height_of(), center, 0, scan_limit(table.width_of(), table.height_of()));
        lemma_next_start_bounds(table@, table.width_of(), table.height_of(), center, (a + 1) as nat, scan_limit(table.width_of(), table.height_of()));
    }
    carve(table, center, a, turns1);
    carve(table, center, b, turns2);
    true
}

proof fn lemma_tunneler_near(c: (i32, i32), s: nat, j: int)
    requires
        0 <= j <= s / 8 + 1,
    ensures
        -(s / 8 + 1) <= tunneler_at(c, s, j).0 - c.0 <= s / 8 + 1,
        -(s / 8 + 1) <= tunneler_at(c, s, j).1 - c.1 <= s / 8 + 1,
{
    let n = s / 8 + 1;
    let d = scan_dir((s % 8) as int);
    assert(tunneler_at(c, s, j).0 - c.0 == (n - j) * d.0) by (nonlinear_arith)
        requires
            tunneler_at(c, s, j).0 == c.0 + n * d.0 - j * d.0,
    ;
    assert(tunneler_at(c, s, j).1 - c.1 == (n - j) * d.1) by (nonlinear_arith)
        requires
            tunneler_at(c, s, j).1 == c.1 + n * d.1 - j * d.1,
    ;
    assert(-n <= (n - j) * d.0 <= n) by (nonlinear_arith)
        requires
            0 <= n - j <= n,
            -1 <= d.0 <= 1,
    ;
    assert(-n <= (n - j) * d.1 <= n) by (nonlinear_arith)
        requires
            0 <= n - j <= n,
            -1 <= d.1 <= 1,
    ;
}

/// Past `scan_limit` the scan only looks outside the grid, so when
/// `tunnel_position` digs nothing no later scan step could start a tunnel.
pub proof fn lemma_scan_past_limit_finds_nothing(g: Seq<Seq<Obstacle>>, w: nat, h: nat, c: (i32, i32), s: nat)
    requires
        in_grid(c, w, h),
        s >= scan_limit(w, h),
    ensures
        !tunnel_start_ok(g, w, h, c, s),
{
    let r = s / 8 + 1;
    let m = if w > h {
        w
    } else {
        h
    };
    assert(r > m);
    let k = s % 8;
    let p = scan_cell(c, s);
    let d = scan_dir(k as int);
    assert(p == (c.0 + r * d.0, c.1 + r * d.1));
    assert(d.0 != 0 || d.1 != 0);
    if d.0 == 1 {
        assert(r * d.0 == r);
    } else if d.0 == -1 {
        assert(r * d.0 == -r);
    } else if d.1 == 1 {
        assert(r * d.1 == r);
    } else {
        assert(d.1 == -1);
        assert(r * d.1 == -r);
    }
}

proof fn lemma_next_start_bounds(g: Seq<Seq<Obstacle>>, w: nat, h: nat, c: (i32, i32), s: nat, limit: nat)
    ensures
        next_start(g, w, h, c, s, limit) matches Some(r) ==> s <= r < limit,
    decreases limit - s,
{
    if s < limit && !tunnel_start_ok(g, w, h, c, s) {
        lemma_next_start_bounds(g, w, h, c, s + 1, limit);
    }
}


/// A `w` by `h` grid of walls.
pub open spec fn wall_grid(w: nat, h: nat) -> Seq<Seq<Obstacle>> {
    Seq::new(w, |x: int| Seq::new(h, |y: int| Obstacle::Wall))
}

/// The `w` by `h` grid `g` after a Voronoi pass.
pub open spec fn voronoi_grid(pass: VoronoiPass, seeds: Seq<(i32, i32)>, g: Seq<Seq<Obstacle>>, w: nat, h: nat) -> Seq<
    Seq<Obstacle>,
> {
    Seq::new(w, |x: int| Seq::new(h, |y: int| voronoi_pass_result(pass, seeds, g, w, h, x, y)))
}

/// The `w` by `h` grid `g` after one step of the automaton.
pub open spec fn automaton_grid(g: Seq<Seq<Obstacle>>, w: nat, h: nat) -> Seq<Seq<Obstacle>> {
    Seq::new(w, |x: int| Seq::new(h, |y: int| next_cell(g, w, h, x, y)))
}

/// The `w` by `h` grid `g` after `tunnel_position` into `c` (see `tunnel_outcome`).
pub open spec fn tunneled(
    g: Seq<Seq<Obstacle>>,
    w: nat,
    h: nat,
    c: (i32, i32),
    turns1: Seq<i32>,
    turns2: Seq<i32>,
) -> Seq<Seq<Obstacle>> {
    match tunnel_starts(g, w, h, c) {
        None => g,
        Some((a, b)) => Seq::new(
            w,
            |x: int|
                Seq::new(
                    h,
                    |y: int|
                        if tunnel_cells(c, a, turns1, w, h).contains((x, y)) || tunnel_cells(c, b, turns2, w, h).contains((x, y)) {
                            Obstacle::Platform
                        } else {
                            g[x][y]
                        },
                ),
        ),
    }
}

/// The grid after tunnelling into the first `k` of `centers` in turn, the
/// `i`-th with the turns `turn_lists[i]`.
pub open spec fn tunnel_all(
    g: Seq<Seq<Obstacle>>,
    w: nat,
    h: nat,
    centers: Seq<(i32, i32)>,
    turn_lists: Seq<(Seq<i32>, Seq<i32>)>,
    k: nat,
) -> Seq<Seq<Obstacle>>
    decreases k,
{
    if k == 0 {
        g
    } else {
        let prev = tunnel_all(g, w, h, centers, turn_lists, (k - 1) as nat);
        tunneled(prev, w, h, centers[k - 1], turn_lists[k - 1].0, turn_lists[k - 1].1)
    }
}

/// `g` has `w` columns of `h` cells.
pub open spec fn is_grid(g: Seq<Seq<Obstacle>>, w: nat, h: nat) -> bool {
    &&& g.len() == w
    &&& forall|x: int| 0 <= x < w ==> (#[trigger] g[x]).len() == h
}

/// The views of pairs of lists of turns.
pub open spec fn turn_views(p: Seq<(Vec<i32>, Vec<i32>)>) -> Seq<(Seq<i32>, Seq<i32>)> {
    p.map_values(|e: (Vec<i32>, Vec<i32>)| (e.0@, e.1@))
}

/// Each pair of lists of turns is long enough for a tunnel into a `w` by `h` grid.
pub open spec fn turns_fit(p: Seq<(Seq<i32>, Seq<i32>)>, w: nat, h: nat) -> bool {
    forall|i: int|
        0 <= i < p.len() ==> (#[trigger] p[i]).0.len() >= scan_limit(w, h) / 8 && p[i].1.len() >= scan_limit(w, h) / 8
}

/// The map `voronoi_mapgen` makes from `seeds`: all walls, opened by a Voronoi
/// pass, one step of the automaton, then tunnels into each of `centers`.
pub open spec fn mapgen_grid(
    seeds: Seq<(i32, i32)>,
    w: nat,
    h: nat,
    centers: Seq<(i32, i32)>,
    turn_lists: Seq<(Seq<i32>, Seq<i32>)>,
) -> Seq<Seq<Obstacle>> {
    tunnel_all(
        automaton_grid(voronoi_grid(VoronoiPass::Open, seeds, wall_grid(w, h), w, h), w, h),
        w,
        h,
        centers,
        turn_lists,
        centers.len(),
    )
}

proof fn lemma_grid_ext(a: Seq<Seq<Obstacle>>, b: Seq<Seq<Obstacle>>, w: nat, h: nat)
    requires
        is_grid(a, w, h),
        is_grid(b, w, h),
        forall|x: int, y: int| 0 <= x < w && 0 <= y < h ==> #[trigger] a[x][y] == b[x][y],
    ensures
        a == b,
{
    assert forall|x: int| 0 <= x < w implies a[x] == b[x] by {
        assert(a[x] =~= b[x]);
    }
    assert(a =~= b);
}

proof fn lemma_tunneled(
    before: Seq<Seq<Obstacle>>,
    after: Seq<Seq<Obstacle>>,
    w: nat,
    h: nat,
    c: (i32, i32),
    turns1: Seq<i32>,
    turns2: Seq<i32>,
)
    requires
        is_grid(before, w, h),
        is_grid(after, w, h),
        tunnel_outcome(before, after, w, h, c, turns1, turns2),
    ensures
        after == tunneled(before, w, h, c, turns1, turns2),
{
    match tunnel_starts(before, w, h, c) {
        None => {},
        Some((a, b)) => {
            let t = tunneled(before, w, h, c, turns1, turns2);
            assert forall|x: int| 0 <= x < w implies (#[trigger] t[x]).len() == h by {}
            lemma_grid_ext(after, t, w, h);
        },
    }
}

/// Tunnel into each package position of `goals` in turn, the `i`-th with the
/// turns `turn_lists[i]` (see `tunnel_position`).
pub fn tunnel_goals(table: &mut ObstacleTable, goals: &GoalTable, turn_lists: &Vec<(Vec<i32>, Vec<i32>)>)
    requires
        old(table).wf(),
        forall|i: int|
            0 <= i < goals.goal_entries().len() ==> old(table).has_cell(#[trigger] goal_positions(goals.goal_entries())[i]),
        turn_lists.len() >= goals.goal_entries().len(),
        turns_fit(turn_views(turn_lists@), old(table).width_of(), old(table).height_of()),
    ensures
        final(table).wf(),
        final(table).same_but_grid(old(table)),
        final(table)@ == tunnel_all(
            old(table)@,
            old(table).width_of(),
            old(table).height_of(),
            goal_positions(goals.goal_entries()),
            turn_views(turn_lists@),
            goals.goal_entries().len(),
        ),
{
    let centers = goals.goals();
    let ghost w = table.width_of();
    let ghost h = table.height_of();
    let ghost ps = turn_views(turn_lists@);
    let mut i: usize = 0;
    while i < centers.len()
        invariant
            i <= centers@.len(),
            centers@ == goal_positions(goals.goal_entries()),
            centers@.len() == goals.goal_entries().len(),
            centers@.len() <= turn_lists@.len(),
            ps == turn_views(turn_lists@),
            turns_fit(ps, w, h),
            w == old(table).width_of(),
            h == old(table).height_of(),
            forall|j: int| 0 <= j < centers@.len() ==> old(table).has_cell(#[trigger] centers@[j]),
            table.wf(),
            table.same_but_grid(old(table)),
            table@ == tunnel_all(old(table)@, w, h, centers@, ps, i as nat),
        decreases centers@.len() - i,
    {
        let ghost before = table@;
        assert(ps[i as int] == (turn_lists@[i as int].0@, turn_lists@[i as int].1@));
        tunnel_position(table, centers[i], &turn_lists[i].0, &turn_lists[i].1);
        proof {
            assert(is_grid(before, w, h));
            assert(is_grid(table@, w, h));
            lemma_tunneled(before, table@, w, h, centers@[i as int], ps[i as int].0, ps[i as int].1);
        }
        i += 1;
    }
}

/// Make the map from the Voronoi seeds `seeds`: every cell a wall, then the
/// cells near no other seed's region opened (`apply_voronoi`), one step of
/// the automaton (`apply_automata`), and tunnels into the packages of `goals`
/// (`tunnel_goals`).
pub fn mapgen_from_seeds(
    table: &mut ObstacleTable,
    goals: &GoalTable,
    seeds: &Vec<(i32, i32)>,
    turn_lists: &Vec<(Vec<i32>, Vec<i32>)>,
)
    requires
        old(table).wf(),
        seeds.len() > 0 || old(table).width_of() == 0 || old(table).height_of() == 0,
        old(table).width_of() * old(table).height_of() <= uf_len(old(table).union_find()),
        old(table).width_of() * old(table).height_of() <= 0x1_0000_0000,
        forall|i: int|
            0 <= i < goals.goal_entries().len() ==> old(table).has_cell(#[trigger] goal_positions(goals.goal_entries())[i]),
        turn_lists.len() >= goals.goal_entries().len(),
        turns_fit(turn_views(turn_lists@), old(table).width_of(), old(table).height_of()),
    ensures
        final(table).wf(),
        final(table).width_of() == old(table).width_of(),
        final(table).height_of() == old(table).height_of(),
        final(table).blocked_list() == old(table).blocked_list(),
        uf_len(final(table).union_find()) == uf_len(old(table).union_find()),
        final(table)@ == mapgen_grid(
            seeds@,
            old(table).width_of(),
            old(table).height_of(),
            goal_positions(goals.goal_entries()),
            turn_views(turn_lists@),
        ),
{
    let w = table.width();
    let h = table.height();
    let ghost wn = w as nat;
    let ghost hn = h as nat;
    for x in 0..w
        invariant
            table.wf(),
            table.same_but_grid(old(table)),
            table.width_of() == w,
            table.height_of() == h,
            forall|a: int, b: int| 0 <= a < x && 0 <= b < h ==> #[trigger] table@[a][b] == Obstacle::Wall,
    {
        for y in 0..h
            invariant
                table.wf(),
                table.same_but_grid(old(table)),
                table.width_of() == w,
                table.height_of() == h,
                0 <= x < w,
                forall|a: int, b: int| 0 <= a < x && 0 <= b < h ==> #[trigger] table@[a][b] == Obstacle::Wall,
                forall|b: int| 0 <= b < y ==> #[trigger] table@[x as int][b] == Obstacle::Wall,
        {
            table.set_obstacle((x as i32, y as i32), Obstacle::Wall);
        }
    }
    proof {
        assert forall|x: int| 0 <= x < wn implies (#[trigger] wall_grid(wn, hn)[x]).len() == hn by {}
        lemma_grid_ext(table@, wall_grid(wn, hn), wn, hn);
    }
    let ghost walled = table@;
    apply_voronoi(table, seeds);
    proof {
        let v = voronoi_grid(VoronoiPass::Open, seeds@, walled, wn, hn);
        assert forall|x: int| 0 <= x < wn implies (#[trigger] v[x]).len() == hn by {}
        lemma_grid_ext(table@, v, wn, hn);
    }
    let ghost opened = table@;
    apply_automata(table);
    proof {
        let a = automaton_grid(opened, wn, hn);
        assert forall|x: int| 0 <= x < wn implies (#[trigger] a[x]).len() == hn by {}
        lemma_grid_ext(table@, a, wn, hn);
    }
    tunnel_goals(table, goals, turn_lists);
}

/// Make a new map (see `mapgen_from_seeds`) from `(width / 6) * (height / 6)`
/// random Voronoi seeds (see `voronoi_seeds`).  Both sides must be at least 6
/// cells long, so that there is a seed.
pub fn voronoi_mapgen(table: &mut ObstacleTable, goals: &GoalTable, turn_lists: &Vec<(Vec<i32>, Vec<i32>)>)
    requires
        old(table).wf(),
        old(table).width_of() >= 6,
        old(table).height_of() >= 6,
        old(table).width_of() * old(table).height_of() <= uf_len(old(table).union_find()),
        old(table).width_of() * old(table).height_of() <= 0x1_0000_0000,
        old(table).width_of() * old(table).height_of() <= usize::MAX,
        forall|i: int|
            0 <= i < goals.goal_entries().len() ==> old(table).has_cell(#[trigger] goal_positions(goals.goal_entries())[i]),
        turn_lists.len() >= goals.goal_entries().len(),
        turns_fit(turn_views(turn_lists@), old(table).width_of(), old(table).height_of()),
    ensures
        final(table).wf(),
        final(table).width_of() == old(table).width_of(),
        final(table).height_of() == old(table).height_of(),
        final(table).blocked_list() == old(table).blocked_list(),
        uf_len(final(table).union_find()) == uf_len(old(table).union_find()),
        exists|seeds: Seq<(i32, i32)>|
            {
                &&& seeds.len() == (old(table).width_of() / 6) * (old(table).height_of() / 6)
                &&& seeds.no_duplicates()
                &&& forall|i: int| 0 <= i < seeds.len() ==> in_grid(#[trigger] seeds[i], old(table).width_of(), old(table).height_of())
                &&& final(table)@ == mapgen_grid(
                    seeds,
                    old(table).width_of(),
                    old(table).height_of(),
                    goal_positions(goals.goal_entries()),
                    turn_views(turn_lists@),
                )
            },
{
    let w = table.width();
    let h = table.height();
    let a = w / 6;
    let b = h / 6;
    let ghost ai = a as int;
    let ghost bi = b as int;
    let ghost wi = w as int;
    let ghost hi = h as int;
    assert(ai * bi < wi * hi && ai * bi >= 1) by (nonlinear_arith)
        requires
            ai * 6 <= wi,
            bi * 6 <= hi,
            ai >= 1,
            bi >= 1,
    ;
    let n = (a as usize) * (b as usize);
    let seeds = voronoi_seeds(n, w, h);
    mapgen_from_seeds(table, goals, &seeds, turn_lists);
    assert(forall|i: int| 0 <= i < seeds@.len() ==> in_grid(#[trigger] seeds@[i], w as nat, h as nat));
}
/// Make every package position of `goals` a platform.
pub fn clear_obstacles_at_goals(table: &mut ObstacleTable, goals: &GoalTable)
    requires
        old(table).wf(),
        forall|i: int|
            0 <= i < goals.goal_entries().len() ==> old(table).has_cell(#[trigger] goal_positions(goals.goal_entries())[i]),
    ensures
        final(table).wf(),
        final(table).same_but_grid(old(table)),
        forall|x: int, y: int|
            0 <= x < old(table).width_of() && 0 <= y < old(table).height_of() ==> #[trigger] final(table)@[x][y] == (if goal_positions(goals.goal_entries()).contains((x as i32, y as i32)) {
                Obstacle::Platform
            } else {
                old(table)@[x][y]
            }),
{
    let centers = goals.goals();
    let ghost w = table.width_of();
    let ghost h = table.height_of();
    let mut i: usize = 0;
    while i < centers.len()
        invariant
            i <= centers@.len(),
            centers@ == goal_positions(goals.goal_entries()),
            w == old(table).width_of(),
            h == old(table).height_of(),
            forall|j: int| 0 <= j < centers@.len() ==> old(table).has_cell(#[trigger] centers@[j]),
            table.wf(),
            table.same_but_grid(old(table)),
            forall|x: int, y: int|
                0 <= x < w && 0 <= y < h ==> #[trigger] table@[x][y] == (if centers@.take(i as int).contains((x as i32, y as i32)) {
                    Obstacle::Platform
                } else {
                    old(table)@[x][y]
                }),
        decreases centers@.len() - i,
    {
        let c = centers[i];
        assert(old(table).has_cell(centers@[i as int]));
        let ghost before = table@;
        table.set_obstacle(c, Obstacle::Platform);
        proof {
            let t1 = centers@.take(i + 1);
            let t0 = centers@.take(i as int);
            assert(t1 =~= t0.push(c));
            assert forall|x: int, y: int| 0 <= x < w && 0 <= y < h implies #[trigger] table@[x][y] == (if t1.contains((x as i32, y as i32)) {
                Obstacle::Platform
            } else {
                old(table)@[x][y]
            }) by {
                let q = (x as i32, y as i32);
                if q == c {
                    assert(t1[i as int] == q);
                } else {
                    assert(x != c.0 || y != c.1);
                    assert(table@[x][y] == before[x][y]);
                    if t1.contains(q) {
                        let j = choose|j: int| 0 <= j < t1.len() && t1[j] == q;
                        assert(j < i);
                        assert(t0[j] == q);
                    }
                    if t0.contains(q) {
                        let j = choose|j: int| 0 <= j < t0.len() && t0[j] == q;
                        assert(t1[j] == q);
                    }
                }
            }
        }
        i += 1;
    }
    assert(centers@.take(i as int) =~= centers@);
}

proof fn lemma_next_start_ok(g: Seq<Seq<Obstacle>>, w: nat, h: nat, c: (i32, i32), s: nat, limit: nat, r: nat)
    requires
        next_start(g, w, h, c, s, limit) == Some(r),
    ensures
        tunnel_start_ok(g, w, h, c, r),
    decreases limit - s,
{
    if s < limit && !tunnel_start_ok(g, w, h, c, s) {
        lemma_next_start_ok(g, w, h, c, s + 1, limit, r);
    }
}

proof fn lemma_tunneler_in_grid(c: (i32, i32), s: nat, k: int, w: nat, h: nat)
    requires
        in_grid(c, w, h),
        0 <= scan_cell(c, s).0 < w,
        0 <= scan_cell(c, s).1 < h,
        0 <= k <= s / 8 + 1,
    ensures
        0 <= tunneler_at(c, s, k).0 < w,
        0 <= tunneler_at(c, s, k).1 < h,
{
    let r = s / 8 + 1;
    let d = scan_dir((s % 8) as int);
    assert(tunneler_at(c, s, k).0 == c.0 + (r - k) * d.0) by (nonlinear_arith)
        requires
            tunneler_at(c, s, k).0 == c.0 + r * d.0 - k * d.0,
    ;
    assert(tunneler_at(c, s, k).1 == c.1 + (r - k) * d.1) by (nonlinear_arith)
        requires
            tunneler_at(c, s, k).1 == c.1 + r * d.1 - k * d.1,
    ;
    assert(0 <= tunneler_at(c, s, k).0 < w) by (nonlinear_arith)
        requires
            tunneler_at(c, s, k).0 == c.0 + (r - k) * d.0,
            0 <= c.0 < w,
            0 <= c.0 + r * d.0 < w,
            0 <= r - k <= r,
            -1 <= d.0 <= 1,
    ;
    assert(0 <= tunneler_at(c, s, k).1 < h) by (nonlinear_arith)
        requires
            tunneler_at(c, s, k).1 == c.1 + (r - k) * d.1,
            0 <= c.1 < h,
            0 <= c.1 + r * d.1 < h,
            0 <= r - k <= r,
            -1 <= d.1 <= 1,
    ;
}

proof fn lemma_tunnel_line(
    before: Seq<Seq<Obstacle>>,
    after: Seq<Seq<Obstacle>>,
    w: nat,
    h: nat,
    c: (i32, i32),
    s: nat,
    turns: Seq<i32>,
    other: Set<(int, int)>,
    k: int,
)
    requires
        in_grid(c, w, h),
        tunnel_start_ok(before, w, h, c, s),
        0 <= k <= s / 8 + 1,
        forall|x: int, y: int|
            0 <= x < w && 0 <= y < h ==> #[trigger] after[x][y] == (if tunnel_cells(c, s, turns, w, h).contains((x, y)) || other.contains((x, y)) {
                Obstacle::Platform
            } else {
                before[x][y]
            }),
    ensures
        after[tunneler_at(c, s, k).0][tunneler_at(c, s, k).1] == Obstacle::Platform,
{
    lemma_tunneler_in_grid(c, s, k, w, h);
    let t = tunneler_at(c, s, k);
    if k == 0 {
        assert(t == scan_cell(c, s));
    } else {
        assert(clamp_cell(tunneler_at(c, s, (k - 1) + 1), w, h) == t);
        assert(step_opens(c, s, turns, w, h, k - 1, t));
        assert(opened_before(c, s, turns, w, h, (s / 8 + 1) as int, t));
        assert(tunnel_cells(c, s, turns, w, h).contains(t));
    }
}

/// When `tunnel_position` digs, each tunnel is a straight line of platforms
/// from its start, step by step, to the cell tunnelled into, which is a
/// platform too: for both starts `s`, the cell `tunneler_at(c, s, k)` is a
/// platform for every `k` from 0 (the start) to `s / 8 + 1` (the cell `c`).
pub proof fn lemma_tunnels_reach_the_cell(
    before: Seq<Seq<Obstacle>>,
    after: Seq<Seq<Obstacle>>,
    w: nat,
    h: nat,
    c: (i32, i32),
    turns1: Seq<i32>,
    turns2: Seq<i32>,
)
    requires
        in_grid(c, w, h),
        tunnel_outcome(before, after, w, h, c, turns1, turns2),
        tunnel_starts(before, w, h, c) is Some,
    ensures
        match tunnel_starts(before, w, h, c) {
            Some((a, b)) => {
                &&& forall|k: int|
                    0 <= k <= a / 8 + 1 ==> after[#[trigger] tunneler_at(c, a, k).0][tunneler_at(c, a, k).1]
                        == Obstacle::Platform
                &&& forall|k: int|
                    0 <= k <= b / 8 + 1 ==> after[#[trigger] tunneler_at(c, b, k).0][tunneler_at(c, b, k).1]
                        == Obstacle::Platform
            },
            None => true,
        },
        after[c.0 as int][c.1 as int] == Obstacle::Platform,
{
    let (a, b) = tunnel_starts(before, w, h, c)->0;
    let lim = scan_limit(w, h);
    lemma_next_start_ok(before, w, h, c, 0, lim, a);
    lemma_next_start_ok(before, w, h, c, a + 1, lim, b);
    let cells_a = tunnel_cells(c, a, turns1, w, h);
    let cells_b = tunnel_cells(c, b, turns2, w, h);
    assert forall|k: int| 0 <= k <= a / 8 + 1 implies after[#[trigger] tunneler_at(c, a, k).0][tunneler_at(c, a, k).1]
        == Obstacle::Platform by {
        lemma_tunnel_line(before, after, w, h, c, a, turns1, cells_b, k);
    }
    assert forall|x: int, y: int|
        0 <= x < w && 0 <= y < h implies #[trigger] after[x][y] == (if cells_b.contains((x, y)) || cells_a.contains((x, y)) {
            Obstacle::Platform
        } else {
            before[x][y]
        }) by {
        assert(after[x][y] == (if cells_a.contains((x, y)) || cells_b.contains((x, y)) {
            Obstacle::Platform
        } else {
            before[x][y]
        }));
    }
    assert forall|k: int| 0 <= k <= b / 8 + 1 implies after[#[trigger] tunneler_at(c, b, k).0][tunneler_at(c, b, k).1]
        == Obstacle::Platform by {
        lemma_tunnel_line(before, after, w, h, c, b, turns2, cells_a, k);
    }
    let r = a / 8 + 1;
    assert(tunneler_at(c, a, r as int) == (c.0 as int, c.1 as int)) by {
        let d = scan_dir((a % 8) as int);
        assert(r * d.0 - r * d.0 == 0);
        assert(r * d.1 - r * d.1 == 0);
    }
    lemma_tunnel_line(before, after, w, h, c, a, turns1, cells_b, r as int);
}


proof fn lemma_no_border_seen(seeds: Seq<(i32, i32)>, c: (i32, i32), nbrs: Seq<(i32, i32)>, k: nat, skip_unit: bool)
    requires
        k <= nbrs.len(),
        forall|i: int|
            0 <= i < k ==> nearest_seed(seeds, (#[trigger] nbrs[i]).0 as int, nbrs[i].1 as int) == nearest_seed(
                seeds,
                c.0 as int,
                c.1 as int,
            ),
    ensures
        border_count(seeds, c, nbrs, k, skip_unit) == 0,
    decreases k,
{
    if k > 0 {
        lemma_no_border_seen(seeds, c, nbrs, (k - 1) as nat, skip_unit);
        assert(nbrs[k - 1] == nbrs[k - 1]);
    }
}

/// `apply_voronoi` only opens cells: each cell stays as it was or becomes a
/// platform, and a cell whose neighbours on the map all have its nearest seed
/// (a cell inside a Voronoi region) becomes a platform.
pub proof fn lemma_voronoi_opens_region_interiors(
    seeds: Seq<(i32, i32)>,
    before: &ObstacleTable,
    after: &ObstacleTable,
    x: int,
    y: int,
)
    requires
        before.wf(),
        after_voronoi_pass(VoronoiPass::Open, seeds, before, after),
        0 <= x < before.width_of(),
        0 <= y < before.height_of(),
    ensures
        after@[x][y] == before@[x][y] || after@[x][y] == Obstacle::Platform,
        (forall|q: (i32, i32)|
            in_grid(q, before.width_of(), before.height_of()) && crate::vec_ops::touching(q, (x as i32, y as i32))
                ==> #[trigger] nearest_seed(seeds, q.0 as int, q.1 as int) == nearest_seed(seeds, x, y))
            ==> after@[x][y] == Obstacle::Platform,
{
    let w = before.width_of();
    let h = before.height_of();
    assert(after@[x][y] == voronoi_pass_result(VoronoiPass::Open, seeds, before@, w, h, x, y));
    if forall|q: (i32, i32)|
        in_grid(q, w, h) && crate::vec_ops::touching(q, (x as i32, y as i32))
            ==> #[trigger] nearest_seed(seeds, q.0 as int, q.1 as int) == nearest_seed(seeds, x, y) {
        let c = (x as i32, y as i32);
        let br = ((w - 1) as i32, (h - 1) as i32);
        crate::vec_ops::lemma_neighbors_exact(c.0, c.1, (0, 0), br);
        let nb = neighbor_list(c.0, c.1, 0, 0, br.0, br.1);
        assert forall|i: int| 0 <= i < nb.len() implies nearest_seed(seeds, (#[trigger] nb[i]).0 as int, nb[i].1 as int)
            == nearest_seed(seeds, c.0 as int, c.1 as int) by {
            assert(nb.contains(nb[i]));
            let q = nb[i];
            assert(in_grid(q, w, h) && crate::vec_ops::touching(q, c));
        }
        lemma_no_border_seen(seeds, c, nb, nb.len(), true);
    }
}

/// The cells that belong to another seed than `c` does (by `nearest_seed`);
/// with `skip_unit`, leaving out the cells whose coordinates are each `1` or
/// `-1`.
pub open spec fn other_region(seeds: Seq<(i32, i32)>, c: (i32, i32), skip_unit: bool) -> spec_fn((i32, i32)) -> bool {
    |q: (i32, i32)|
        !(skip_unit && (q.0 == 1 || q.0 == -1) && (q.1 == 1 || q.1 == -1)) && nearest_seed(seeds, q.0 as int, q.1 as int)
            != nearest_seed(seeds, c.0 as int, c.1 as int)
}

proof fn lemma_border_count_counts(seeds: Seq<(i32, i32)>, c: (i32, i32), nbrs: Seq<(i32, i32)>, k: nat, skip_unit: bool)
    requires
        k <= nbrs.len(),
    ensures
        border_count(seeds, c, nbrs, k, skip_unit) == count_where(nbrs, other_region(seeds, c, skip_unit), k),
    decreases k,
{
    if k > 0 {
        lemma_border_count_counts(seeds, c, nbrs, (k - 1) as nat, skip_unit);
    }
}

/// Each Voronoi pass decides a cell of the map by the number `n` of cells
/// touching it that belong to another seed's region (see `other_region`):
/// `apply_voronoi` opens the cells with `n < 2`, not counting cells whose
/// coordinates are each `1` or `-1`; `apply_voronoi_n2` opens those with an odd
/// `n` below 5, counting every cell; `apply_voronoi_inv` walls up those with
/// `n < 2`, not counting those cells; `apply_voronoi_inv_n2` walls up those
/// with an odd `n` below 4, counting every cell.  Every other cell stays.
pub proof fn lemma_voronoi_pass_by_borders(
    pass: VoronoiPass,
    seeds: Seq<(i32, i32)>,
    before: &ObstacleTable,
    after: &ObstacleTable,
    x: int,
    y: int,
)
    requires
        before.wf(),
        after_voronoi_pass(pass, seeds, before, after),
        0 <= x < before.width_of(),
        0 <= y < before.height_of(),
    ensures
        ({
            let c = (x as i32, y as i32);
            let w = before.width_of();
            let h = before.height_of();
            let n_skip = cells_around_where(w, h, c, other_region(seeds, c, true)).len();
            let n_all = cells_around_where(w, h, c, other_region(seeds, c, false)).len();
            after@[x][y] == match pass {
                VoronoiPass::Open => if n_skip < 2 { Obstacle::Platform } else { before@[x][y] },
                VoronoiPass::OpenOdd => if n_all % 2 == 1 && n_all < 5 { Obstacle::Platform } else { before@[x][y] },
                VoronoiPass::Close => if n_skip < 2 { Obstacle::Wall } else { before@[x][y] },
                VoronoiPass::CloseOdd => if n_all % 2 == 1 && n_all < 4 { Obstacle::Wall } else { before@[x][y] },
            }
        }),
{
    let c = (x as i32, y as i32);
    let w = before.width_of();
    let h = before.height_of();
    let nb = neighbor_list(c.0, c.1, 0, 0, (w - 1) as i32, (h - 1) as i32);
    lemma_count_around(w, h, c, other_region(seeds, c, true));
    lemma_count_around(w, h, c, other_region(seeds, c, false));
    lemma_border_count_counts(seeds, c, nb, nb.len(), true);
    lemma_border_count_counts(seeds, c, nb, nb.len(), false);
    assert(after@[x][y] == voronoi_pass_result(pass, seeds, before@, w, h, x, y));
}
} // verus!
