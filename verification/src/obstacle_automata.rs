use vstd::prelude::*;
use crate::obstacle::Obstacle;
use crate::obstacle_table::{apply_merges, cell_number, in_grid, lists_platforms, union_pairs, ObstacleTable};
use crate::union_find::{uf_classes, uf_len};
use crate::neighbourhood::{cells_around_where, count_where, lemma_count_around};
use crate::vec_ops::{neighbor_list, neighbors, touching};

verus! {

/// Among the first `k` cells of `nbrs`: how many are rails, platforms and walls.
pub open spec fn neighbor_counts(g: Seq<Seq<Obstacle>>, nbrs: Seq<(i32, i32)>, k: nat) -> (nat, nat, nat)
    decreases k,
{
    if k == 0 {
        (0, 0, 0)
    } else {
        let (rails, platforms, walls) = neighbor_counts(g, nbrs, (k - 1) as nat);
        let n = nbrs[k - 1];
        match g[n.0 as int][n.1 as int] {
            Obstacle::Pit => (rails, platforms, walls),
            Obstacle::Wall => (rails, platforms, walls + 1),
            Obstacle::Platform => (rails, platforms + 1, walls),
            Obstacle::Rail(_, _) => (rails + 1, platforms, walls),
        }
    }
}

/// The rule of the automaton: what a cell becomes, given what it is and how
/// many rails, platforms and walls are around it.  Pits stay; a wall opens
/// into a platform unless at most three walls and more than two platforms are
/// around it; a platform becomes a wall; a rail becomes a platform unless
/// fewer than two rails are around it.
pub open spec fn automaton_rule(current: Obstacle, counts: (nat, nat, nat)) -> Obstacle {
    let (rails, platforms, walls) = counts;
    match current {
        Obstacle::Pit => Obstacle::Pit,
        Obstacle::Wall => if walls > 3 {
            Obstacle::Platform
        } else if platforms > 2 {
            Obstacle::Wall
        } else {
            Obstacle::Platform
        },
        Obstacle::Platform => Obstacle::Wall,
        Obstacle::Rail(_, _) => if rails == 3 {
            Obstacle::Platform
        } else if rails < 2 {
            Obstacle::Wall
        } else {
            Obstacle::Platform
        },
    }
}

/// What the cell `(x, y)` of the `w` by `h` grid `g` becomes in one step.
pub open spec fn next_cell(g: Seq<Seq<Obstacle>>, w: nat, h: nat, x: int, y: int) -> Obstacle {
    let nb = neighbor_list(x as i32, y as i32, 0, 0, (w - 1) as i32, (h - 1) as i32);
    automaton_rule(g[x][y], neighbor_counts(g, nb, nb.len()))
}

/// What the cell `(x, y)` becomes in one step of the automaton.
pub fn compute_next(obs_table: &ObstacleTable, x: i32, y: i32) -> (o: Obstacle)
    requires
        obs_table.wf(),
        obs_table.has_cell((x, y)),
    ensures
        o == next_cell(obs_table@, obs_table.width_of(), obs_table.height_of(), x as int, y as int),
{
    let w = obs_table.width();
    let h = obs_table.height();
    let nbrs = neighbors((x, y), (0, 0), (w as i32 - 1, h as i32 - 1));
    proof {
        crate::vec_ops::lemma_neighbors_exact(x, y, (0, 0), ((w - 1) as i32, (h - 1) as i32));
    }
    let ghost g = obs_table@;
    let mut count_rail: u32 = 0;
    let mut count_platform: u32 = 0;
    let mut count_wall: u32 = 0;
    let mut k: usize = 0;
    while k < nbrs.len()
        invariant
            obs_table.wf(),
            g == obs_table@,
            w == obs_table.width_of(),
            h == obs_table.height_of(),
            k <= nbrs@.len(),
            nbrs@.len() <= 8,
            nbrs@ == neighbor_list(x, y, 0, 0, (w - 1) as i32, (h - 1) as i32),
            forall|p: (i32, i32)|
                #![trigger nbrs@.contains(p)]
                nbrs@.contains(p) ==> in_grid(p, w as nat, h as nat),
            (count_rail as nat, count_platform as nat, count_wall as nat) == neighbor_counts(g, nbrs@, k as nat),
            count_rail + count_platform + count_wall <= k,
        decreases nbrs.len() - k,
    {
        let neighbor = nbrs[k];
        assert(nbrs@.contains(neighbor));
        match obs_table.get_obstacle(neighbor.0, neighbor.1) {
            Obstacle::Pit => {},
            Obstacle::Wall => count_wall += 1,
            Obstacle::Platform => {
                count_platform += 1;
            },
            Obstacle::Rail(_, _) => {
                count_rail += 1;
            },
        }
        k += 1;
    }

    match obs_table.get_obstacle(x, y) {
        Obstacle::Pit => {
            return Obstacle::Pit;
        },
        Obstacle::Wall => {
            if count_wall > 3 {
                return Obstacle::Platform;
            } else if count_platform > 2 {
                return Obstacle::Wall;
            } else {
                return Obstacle::Platform;
            }
        },
        Obstacle::Platform => {
            if count_platform > 3 {
                return Obstacle::Wall;
            } else if count_wall <= 2 {
                return Obstacle::Wall;
            } else {
                return Obstacle::Wall;
            }
        },
        Obstacle::Rail(_, _) => {
            if count_rail == 3 {
                return Obstacle::Platform;
            } else if count_rail < 2 {
                return Obstacle::Wall;
            } else {
                return Obstacle::Platform;
            }
        },
    }
}

/// One step of the automaton on every cell at once, then the platform list and
/// the union-find are brought up to date.
pub fn apply_automata(table: &mut ObstacleTable)
    requires
        old(table).wf(),
        old(table).width_of() * old(table).height_of() <= uf_len(old(table).union_find()),
        old(table).width_of() * old(table).height_of() <= 0x1_0000_0000,
    ensures
        final(table).wf(),
        final(table).width_of() == old(table).width_of(),
        final(table).height_of() == old(table).height_of(),
        final(table).blocked_list() == old(table).blocked_list(),
        forall|x: int, y: int|
            0 <= x < old(table).width_of() && 0 <= y < old(table).height_of() ==> #[trigger] final(table)@[x][y] == next_cell(old(table)@, old(table).width_of(), old(table).height_of(), x, y),
        lists_platforms(final(table).platform_list(), final(table)@, final(table).width_of(), final(table).height_of()),
        uf_len(final(table).union_find()) == uf_len(old(table).union_find()),
        uf_classes(final(table).union_find()) == apply_merges(
            uf_classes(old(table).union_find()),
            union_pairs(final(table)@, final(table).width_of(), final(table).height_of(), final(table).width_of()),
        ),
        forall|pq: (u32, u32)| #[trigger] uf_classes(old(table).union_find()).contains(pq)
            ==> uf_classes(final(table).union_find()).contains(pq),
        forall|p: (i32, i32), q: (i32, i32)|
            in_grid(p, final(table).width_of(), final(table).height_of()) && in_grid(q, final(table).width_of(), final(table).height_of())
                && touching(p, q) && final(table).at(p) == Obstacle::Platform && final(table).at(q) == Obstacle::Platform
                ==> #[trigger] uf_classes(final(table).union_find()).contains(
                (cell_number(p, final(table).width_of()), cell_number(q, final(table).width_of())),
            ),
{
    let w = table.width();
    let h = table.height();
    let ghost g = table@;
    let mut next: Vec<Vec<Obstacle>> = Vec::new();
    for x in 0..w
        invariant
            table@ == g,
            table.wf(),
            w == table.width_of(),
            h == table.height_of(),
            next@.len() == x,
            forall|i: int| 0 <= i < x ==> (#[trigger] next@[i])@.len() == h,
            forall|i: int, j: int|
                0 <= i < x && 0 <= j < h ==> #[trigger] next@[i]@[j] == next_cell(g, w as nat, h as nat, i, j),
    {
        let mut column: Vec<Obstacle> = Vec::new();
        for y in 0..h
            invariant
                table@ == g,
                table.wf(),
                w == table.width_of(),
                h == table.height_of(),
                x < w,
                column@.len() == y,
                forall|j: int| 0 <= j < y ==> #[trigger] column@[j] == next_cell(g, w as nat, h as nat, x as int, j),
        {
            column.push(compute_next(table, x as i32, y as i32));
        }
        next.push(column);
    }

    let ghost start = table.union_find();
    for x in 0..w
        invariant
            table.wf(),
            w == table.width_of(),
            h == table.height_of(),
            next@.len() == w,
            forall|i: int| 0 <= i < w ==> (#[trigger] next@[i])@.len() == h,
            forall|i: int, j: int|
                0 <= i < w && 0 <= j < h ==> #[trigger] next@[i]@[j] == next_cell(g, w as nat, h as nat, i, j),
            table.union_find() == start,
            table.blocked_list() == old(table).blocked_list(),
            forall|i: int, j: int|
                0 <= i < w && 0 <= j < h ==> #[trigger] table@[i][j] == (if i < x {
                    next_cell(g, w as nat, h as nat, i, j)
                } else {
                    g[i][j]
                }),
    {
        for y in 0..h
            invariant
                table.wf(),
                w == table.width_of(),
                h == table.height_of(),
                x < w,
                next@.len() == w,
                forall|i: int| 0 <= i < w ==> (#[trigger] next@[i])@.len() == h,
                forall|i: int, j: int|
                    0 <= i < w && 0 <= j < h ==> #[trigger] next@[i]@[j] == next_cell(g, w as nat, h as nat, i, j),
                table.union_find() == start,
                table.blocked_list() == old(table).blocked_list(),
                forall|i: int, j: int|
                    0 <= i < w && 0 <= j < h ==> #[trigger] table@[i][j] == (if i < x || (i == x && j < y) {
                        next_cell(g, w as nat, h as nat, i, j)
                    } else {
                        g[i][j]
                    }),
        {
            let obstacle = next[x as usize][y as usize];
            table.set_obstacle((x as i32, y as i32), obstacle);
        }
    }

    table.update_platforms();
    table.compute_unions();
}

/// The automaton neither makes nor removes pits.
pub proof fn lemma_automaton_keeps_pits(current: Obstacle, counts: (nat, nat, nat))
    ensures
        (automaton_rule(current, counts) == Obstacle::Pit) == (current == Obstacle::Pit),
{
}


/// The cells where `g` holds `o`.
pub open spec fn holds(g: Seq<Seq<Obstacle>>, o: Obstacle) -> spec_fn((i32, i32)) -> bool {
    |q: (i32, i32)| g[q.0 as int][q.1 as int] == o
}

/// The cells where `g` holds a rail, whatever its direction.
pub open spec fn holds_rail(g: Seq<Seq<Obstacle>>) -> spec_fn((i32, i32)) -> bool {
    |q: (i32, i32)| g[q.0 as int][q.1 as int] is Rail
}

proof fn lemma_counts_are_counts(g: Seq<Seq<Obstacle>>, nbrs: Seq<(i32, i32)>, k: nat)
    requires
        k <= nbrs.len(),
    ensures
        neighbor_counts(g, nbrs, k) == (
            count_where(nbrs, holds_rail(g), k),
            count_where(nbrs, holds(g, Obstacle::Platform), k),
            count_where(nbrs, holds(g, Obstacle::Wall), k),
        ),
    decreases k,
{
    if k > 0 {
        lemma_counts_are_counts(g, nbrs, (k - 1) as nat);
    }
}

/// One step of the automaton on a cell of the `w` by `h` grid `g`, by the
/// numbers of rails, platforms and walls among the cells that touch it: a pit
/// stays a pit; a wall opens into a platform when more than three walls touch
/// it, else stays a wall when more than two platforms touch it, else opens; a
/// platform becomes a wall; a rail becomes a wall when fewer than two rails
/// touch it, else a platform.
pub proof fn lemma_automaton_step(g: Seq<Seq<Obstacle>>, w: nat, h: nat, x: int, y: int)
    requires
        1 <= w <= i32::MAX,
        1 <= h <= i32::MAX,
        0 <= x < w,
        0 <= y < h,
    ensures
        ({
            let c = (x as i32, y as i32);
            let rails = cells_around_where(w, h, c, holds_rail(g)).len();
            let platforms = cells_around_where(w, h, c, holds(g, Obstacle::Platform)).len();
            let walls = cells_around_where(w, h, c, holds(g, Obstacle::Wall)).len();
            next_cell(g, w, h, x, y) == match g[x][y] {
                Obstacle::Pit => Obstacle::Pit,
                Obstacle::Wall => if walls > 3 {
                    Obstacle::Platform
                } else if platforms > 2 {
                    Obstacle::Wall
                } else {
                    Obstacle::Platform
                },
                Obstacle::Platform => Obstacle::Wall,
                Obstacle::Rail(_, _) => if rails < 2 {
                    Obstacle::Wall
                } else {
                    Obstacle::Platform
                },
            }
        }),
{
    let c = (x as i32, y as i32);
    let nb = neighbor_list(c.0, c.1, 0, 0, (w - 1) as i32, (h - 1) as i32);
    lemma_count_around(w, h, c, holds_rail(g));
    lemma_count_around(w, h, c, holds(g, Obstacle::Platform));
    lemma_count_around(w, h, c, holds(g, Obstacle::Wall));
    lemma_counts_are_counts(g, nb, nb.len());
}
} // verus!
