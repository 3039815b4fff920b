use vstd::prelude::*;
use crate::map_gen::{scan_limit, tunnel_outcome, tunnel_position};
use crate::obstacle::Obstacle;
use crate::obstacle_table::ObstacleTable;
use crate::random::{rng_new, rng_random_slice_entry, rng_range};

verus! {

/// `g` with the cell `p` made a platform.
pub open spec fn with_platform(g: Seq<Seq<Obstacle>>, p: (i32, i32)) -> Seq<Seq<Obstacle>> {
    g.update(p.0 as int, g[p.0 as int].update(p.1 as int, Obstacle::Platform))
}

/// `p` is a cell `random_spawn_cell` can draw on a `w` by `h` map: `x` in
/// `0..=2 * (w / 2) - 2`, `y` in `1..=2 * (h / 2) - 2` (so at most `w - 2` and
/// `h - 2`, one less on an odd side).
pub open spec fn in_spawn_range(p: (i32, i32), w: nat, h: nat) -> bool {
    0 <= p.0 <= 2 * (w / 2) - 2 && 1 <= p.1 <= 2 * (h / 2) - 2
}

/// Where `random_platform` settles, standing on `pos` with `draws[i..]` left:
/// while a skater stands on the current cell and a draw is left, the next
/// draw becomes the current cell.
pub open spec fn settle_from(pos: (i32, i32), draws: Seq<(i32, i32)>, i: int, blocked: Seq<(i32, i32)>) -> (i32, i32)
    decreases draws.len() - i,
{
    if i >= draws.len() || !blocked.contains(pos) {
        pos
    } else {
        settle_from(draws[i], draws, i + 1, blocked)
    }
}

proof fn lemma_settle_is_drawn(pos: (i32, i32), draws: Seq<(i32, i32)>, i: int, blocked: Seq<(i32, i32)>, l: Seq<(i32, i32)>)
    requires
        l.contains(pos),
        forall|j: int| 0 <= j < draws.len() ==> l.contains(#[trigger] draws[j]),
        0 <= i,
    ensures
        l.contains(settle_from(pos, draws, i, blocked)),
    decreases draws.len() - i,
{
    if i < draws.len() && blocked.contains(pos) {
        lemma_settle_is_drawn(draws[i], draws, i + 1, blocked, l);
    }
}

/// The cell taken from a list of draws (at least one, see `settle_from`):
/// the first draw, and then, while a skater stands on the current cell, the
/// next draw.
pub fn settle_platform(draws: &Vec<(i32, i32)>, obs_table: &ObstacleTable) -> (p: (i32, i32))
    requires
        draws.len() >= 1,
    ensures
        p == settle_from(draws@[0], draws@, 1, obs_table.blocked_list()),
{
    let ghost bl = obs_table.blocked_list();
    let mut pos = draws[0];
    let mut i: usize = 1;
    while i < draws.len() && obs_table.is_blocked(pos)
        invariant
            1 <= i <= draws@.len(),
            bl == obs_table.blocked_list(),
            settle_from(pos, draws@, i as int, bl) == settle_from(draws@[0], draws@, 1, bl),
        decreases draws@.len() - i,
    {
        let next = draws[i];
        if next.0 != pos.0 || next.1 != pos.1 {
            pos = next;
        } else {
            assert(pos == next);
        }
        i += 1;
    }
    pos
}

/// A random platform to put something on: `width + 1` cells are drawn from
/// the platform list, and the first is taken unless a skater stands there,
/// in which case the next draws are tried in turn (see `settle_platform`);
/// `(-1, -1)` when there are no platforms.
pub fn random_platform(obs_table: &ObstacleTable) -> (p: (i32, i32))
    requires
        obs_table.platform_list().len() < i32::MAX,
    ensures
        obs_table.platform_list().len() == 0 ==> p == (-1i32, -1i32),
        obs_table.platform_list().len() > 0 ==> {
            &&& obs_table.platform_list().contains(p)
            &&& exists|draws: Seq<(i32, i32)>|
                {
                    &&& draws.len() == obs_table.width_of() + 1
                    &&& forall|j: int| 0 <= j < draws.len() ==> obs_table.platform_list().contains(#[trigger] draws[j])
                    &&& p == settle_from(draws[0], draws, 1, obs_table.blocked_list())
                }
        },
{
    let platforms = obs_table.platform_cells();
    let width = obs_table.width();
    let mut rng = rng_new();
    let mut draws: Vec<(i32, i32)> = Vec::new();
    let mut k: u64 = 0;
    while k <= width as u64
        invariant
            platforms@ == obs_table.platform_list(),
            platforms@.len() < i32::MAX,
            k <= width as u64 + 1,
            width == obs_table.width_of(),
            draws@.len() == k,
            forall|j: int| 0 <= j < draws@.len() ==> platforms@.contains(#[trigger] draws@[j]),
        decreases width as u64 + 1 - k,
    {
        match rng_random_slice_entry(&mut rng, platforms) {
            None => return (-1, -1),
            Some(d) => draws.push(d),
        }
        k += 1;
    }
    let p = settle_platform(&draws, obs_table);
    proof {
        lemma_settle_is_drawn(draws@[0], draws@, 1, obs_table.blocked_list(), platforms@);
    }
    p
}

/// A random cell away from the map's edges (see `in_spawn_range`): `x` is
/// drawn as `width / 2 - 1` plus a number from
/// `-(width / 2) + 1` up to, not including, `width / 2`, and `y` as
/// `height / 2` plus a number from `-(height / 2) + 1` up to, not including,
/// `height / 2 - 1`.
fn random_spawn_cell(obs_table: &ObstacleTable) -> (p: (i32, i32))
    requires
        obs_table.wf(),
        obs_table.width_of() >= 2,
        obs_table.height_of() >= 4,
    ensures
        in_spawn_range(p, obs_table.width_of(), obs_table.height_of()),
{
    let mut rng = rng_new();
    let half_w = (obs_table.width() / 2) as i32;
    let half_h = (obs_table.height() / 2) as i32;
    let x = half_w + rng_range(&mut rng, -half_w + 1, half_w) - 1;
    let y = half_h + rng_range(&mut rng, -half_h + 1, half_h - 1);
    (x, y)
}

/// What `spawn_opponent_at` does with the cell `p`, from the table `before`
/// to the table `after`, with the result `r`: when the human at `player` or
/// anybody else stands on `p`, nothing changes and the result is `None`; else
/// `p` is made a platform, tunnelled into (see `tunnel_outcome`) and returned.
pub open spec fn spawned_at(
    before: &ObstacleTable,
    after: &ObstacleTable,
    player: (i32, i32),
    p: (i32, i32),
    turns1: Seq<i32>,
    turns2: Seq<i32>,
    r: Option<(i32, i32)>,
) -> bool {
    if p == player || before.blocked_list().contains(p) {
        &&& r is None
        &&& after@ == before@
    } else {
        &&& r == Some(p)
        &&& tunnel_outcome(with_platform(before@, p), after@, before.width_of(), before.height_of(), p, turns1, turns2)
    }
}

/// Place an opponent at `p` unless the human at `player` or anybody else
/// stands there (see `spawned_at`).
pub fn spawn_opponent_at(
    obs_table: &mut ObstacleTable,
    player: (i32, i32),
    p: (i32, i32),
    turns1: &Vec<i32>,
    turns2: &Vec<i32>,
) -> (r: Option<(i32, i32)>)
    requires
        old(obs_table).wf(),
        old(obs_table).has_cell(p),
        turns1.len() >= scan_limit(old(obs_table).width_of(), old(obs_table).height_of()) / 8,
        turns2.len() >= scan_limit(old(obs_table).width_of(), old(obs_table).height_of()) / 8,
    ensures
        final(obs_table).wf(),
        final(obs_table).same_but_grid(old(obs_table)),
        spawned_at(old(obs_table), final(obs_table), player, p, turns1@, turns2@, r),
{
    if !(p.0 == player.0 && p.1 == player.1) && !obs_table.is_blocked(p) {
        obs_table.set_obstacle(p, Obstacle::Platform);
        tunnel_position(obs_table, p, turns1, turns2);
        Some(p)
    } else {
        None
    }
}

/// Try to place an opponent at a random cell away from the edges (see
/// `random_spawn_cell` and `spawn_opponent_at`): the result is what
/// `spawn_opponent_at` gives for the cell drawn.
pub fn spawn_opponent(
    obs_table: &mut ObstacleTable,
    player: (i32, i32),
    turns1: &Vec<i32>,
    turns2: &Vec<i32>,
) -> (r: Option<(i32, i32)>)
    requires
        old(obs_table).wf(),
        old(obs_table).width_of() >= 2,
        old(obs_table).height_of() >= 4,
        turns1.len() >= scan_limit(old(obs_table).width_of(), old(obs_table).height_of()) / 8,
        turns2.len() >= scan_limit(old(obs_table).width_of(), old(obs_table).height_of()) / 8,
    ensures
        final(obs_table).wf(),
        final(obs_table).same_but_grid(old(obs_table)),
        exists|p: (i32, i32)|
            #[trigger] in_spawn_range(p, old(obs_table).width_of(), old(obs_table).height_of())
                && spawned_at(old(obs_table), final(obs_table), player, p, turns1@, turns2@, r),
{
    let p = random_spawn_cell(obs_table);
    let r = spawn_opponent_at(obs_table, player, p, turns1, turns2);
    assert(in_spawn_range(p, old(obs_table).width_of(), old(obs_table).height_of()));
    r
}

/// Where a fallen opponent may come back to `p`: `p` itself when it is a
/// platform nobody stands on, else nowhere.
pub open spec fn respawn_choice(t: &ObstacleTable, p: (i32, i32)) -> Option<(i32, i32)> {
    if !t.blocked_list().contains(p) && t.at(p) == Obstacle::Platform {
        Some(p)
    } else {
        None
    }
}

/// Whether a fallen opponent may come back at `p` (see `respawn_choice`).
pub fn respawn_at(obs_table: &ObstacleTable, p: (i32, i32)) -> (r: Option<(i32, i32)>)
    requires
        obs_table.wf(),
        obs_table.has_cell(p),
    ensures
        r == respawn_choice(obs_table, p),
{
    if !obs_table.is_blocked(p) && obs_table.get_obstacle(p.0, p.1) == Obstacle::Platform {
        Some(p)
    } else {
        None
    }
}

/// Where a fallen opponent may come back: a random cell away from the edges
/// (see `random_spawn_cell`) when it is a platform nobody stands on (see
/// `respawn_at`).
pub fn respawn_cell(obs_table: &ObstacleTable) -> (r: Option<(i32, i32)>)
    requires
        obs_table.wf(),
        obs_table.width_of() >= 2,
        obs_table.height_of() >= 4,
    ensures
        exists|p: (i32, i32)|
            #[trigger] in_spawn_range(p, obs_table.width_of(), obs_table.height_of()) && r == respawn_choice(obs_table, p),
{
    let p = random_spawn_cell(obs_table);
    let r = respawn_at(obs_table, p);
    assert(in_spawn_range(p, obs_table.width_of(), obs_table.height_of()));
    r
}

/// Open ground at a random cell away from the map's edges, tunnelled into the
/// rest of the map (see `tunnel_position`, with `turns1` and `turns2`):
/// the cell is drawn by `random_spawn_cell` (see `in_spawn_range`),
/// made a platform, then tunnelled into.
pub fn tunnel_spawn(obs_table: &mut ObstacleTable, turns1: &Vec<i32>, turns2: &Vec<i32>) -> (p: (i32, i32))
    requires
        old(obs_table).wf(),
        old(obs_table).width_of() >= 2,
        old(obs_table).height_of() >= 4,
        turns1.len() >= scan_limit(old(obs_table).width_of(), old(obs_table).height_of()) / 8,
        turns2.len() >= scan_limit(old(obs_table).width_of(), old(obs_table).height_of()) / 8,
    ensures
        final(obs_table).wf(),
        final(obs_table).same_but_grid(old(obs_table)),
        in_spawn_range(p, old(obs_table).width_of(), old(obs_table).height_of()),
        tunnel_outcome(
            with_platform(old(obs_table)@, p),
            final(obs_table)@,
            old(obs_table).width_of(),
            old(obs_table).height_of(),
            p,
            turns1@,
            turns2@,
        ),
{
    let (x, y) = random_spawn_cell(obs_table);
    obs_table.set_obstacle((x, y), Obstacle::Platform);
    tunnel_position(obs_table, (x, y), turns1, turns2);
    (x, y)
}

} // verus!
