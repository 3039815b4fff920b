use vstd::prelude::*;
use crate::main_viewer::clamp_i32;
use crate::map_gen::clamp_int;
use crate::obstacle::Obstacle;
use crate::obstacle_table::{in_grid, ObstacleTable};
use crate::player_event::PlayerEvent;
use crate::vec_ops::{neighbor_list, neighbors, touching};

verus! {

/// Where a skater who falls over ends up.
#[derive(Clone, Copy, PartialEq, Eq, Structural, Debug)]
pub enum Landing {
    /// Where it fell.
    Stay,
    /// On this platform beside the rail it fell from.
    At(i32, i32),
    /// Back at the middle of the map, for want of a platform beside the rail.
    Respawn,
}

/// The index of the first platform of `g` among the first `k` cells of `nbrs`.
pub open spec fn first_platform(g: Seq<Seq<Obstacle>>, nbrs: Seq<(i32, i32)>, k: nat) -> Option<int>
    decreases k,
{
    if k == 0 {
        None
    } else {
        match first_platform(g, nbrs, (k - 1) as nat) {
            Some(i) => Some(i),
            None => if g[nbrs[k - 1].0 as int][nbrs[k - 1].1 as int] == Obstacle::Platform {
                Some(k - 1)
            } else {
                None
            },
        }
    }
}

/// Where a skater falling over at `p` lands: off a rail onto the first
/// platform around it (in `neighbors` order), back to the middle of the map
/// when there is none, and anywhere else where it fell.
pub open spec fn landing(t: &ObstacleTable, p: (i32, i32)) -> Landing {
    match t.at(p) {
        Obstacle::Rail(_, _) => {
            let nb = neighbor_list(p.0, p.1, 0, 0, (t.width_of() - 1) as i32, (t.height_of() - 1) as i32);
            match first_platform(t@, nb, nb.len()) {
                Some(i) => Landing::At(nb[i].0, nb[i].1),
                None => Landing::Respawn,
            }
        },
        _ => Landing::Stay,
    }
}

proof fn lemma_first_platform_stays(g: Seq<Seq<Obstacle>>, nbrs: Seq<(i32, i32)>, k: nat, m: nat)
    requires
        k <= m,
        first_platform(g, nbrs, k) is Some,
    ensures
        first_platform(g, nbrs, m) == first_platform(g, nbrs, k),
    decreases m,
{
    if m > k {
        lemma_first_platform_stays(g, nbrs, k, (m - 1) as nat);
    }
}

/// Where a skater that falls over at `p` lands (see `landing`).
pub fn fallover_landing(table: &ObstacleTable, p: (i32, i32)) -> (l: Landing)
    requires
        table.wf(),
        table.has_cell(p),
    ensures
        l == landing(table, p),
{
    let here = table.get_obstacle(p.0, p.1);
    assert(here == table.at(p)) by {
        assert(p == (p.0, p.1));
    }
    match here {
        Obstacle::Rail(_, _) => {
            let br = (table.width() as i32 - 1, table.height() as i32 - 1);
            let around = neighbors(p, (0, 0), br);
            let ghost nb = around@;
            proof {
                crate::vec_ops::lemma_neighbors_exact(p.0, p.1, (0, 0), br);
            }
            let mut k: usize = 0;
            while k < around.len()
                invariant
                    table.wf(),
                    table.at(p) is Rail,
                    k <= nb.len(),
                    around@ == nb,
                    nb == neighbor_list(p.0, p.1, 0, 0, br.0, br.1),
                    br == ((table.width_of() - 1) as i32, (table.height_of() - 1) as i32),
                    forall|q: (i32, i32)| #![trigger nb.contains(q)] nb.contains(q) ==> table.has_cell(q),
                    first_platform(table@, nb, k as nat) is None,
                decreases around.len() - k,
            {
                let n = around[k];
                assert(nb.contains(n));
                if table.get_obstacle(n.0, n.1) == Obstacle::Platform {
                    proof {
                        assert(first_platform(table@, nb, (k + 1) as nat) == Some(k as int));
                        lemma_first_platform_stays(table@, nb, (k + 1) as nat, nb.len());
                    }
                    return Landing::At(n.0, n.1);
                }
                k += 1;
            }
            Landing::Respawn
        },
        _ => Landing::Stay,
    }
}

/// The event of a step from a cell holding `last` onto one holding `here`, at
/// time `time`; `None` leaves the skater's event as it was.
pub open spec fn arrival_event(last: Obstacle, here: Obstacle, time: i32) -> Option<PlayerEvent> {
    match here {
        Obstacle::Platform => match last {
            Obstacle::Platform => Some(PlayerEvent::Move),
            Obstacle::Rail(_, _) => Some(PlayerEvent::OffRail),
            _ => None,
        },
        Obstacle::Pit => Some(PlayerEvent::GameOver(time)),
        Obstacle::Rail(_, _) => Some(PlayerEvent::OnRail),
        Obstacle::Wall => None,
    }
}

/// What comes of a skater's attempt to go from one cell to another.
#[derive(Clone, Copy, PartialEq, Eq, Structural, Debug)]
pub enum Traverse {
    /// It cannot go there and falls over.
    FallOver,
    /// It stays where it is, as it was.
    Unchanged,
    /// It arrives at this cell, with this event (`None`: the event stays).
    MoveTo(i32, i32, Option<PlayerEvent>),
}

/// A skater at `from` may go to `to`: nobody else stands there, it is no wall,
/// and it touches or is `from`.
pub open spec fn steppable(t: &ObstacleTable, from: (i32, i32), to: (i32, i32)) -> bool {
    &&& !(t.blocked_list().contains(to) && from != to)
    &&& t.at(to) != Obstacle::Wall
    &&& -1 <= to.0 - from.0 <= 1
    &&& -1 <= to.1 - from.1 <= 1
}

/// The outcome of a skater's attempt at time `time` to go from `from` to `to`.
pub open spec fn traverse_outcome(t: &ObstacleTable, from: (i32, i32), to: (i32, i32), time: i32) -> Traverse {
    if !steppable(t, from, to) {
        Traverse::FallOver
    } else if from == to {
        Traverse::Unchanged
    } else {
        Traverse::MoveTo(to.0, to.1, arrival_event(t.at(from), t.at(to), time))
    }
}

/// What comes of a skater's attempt, at time `time` (rounded to turns), to go
/// from `from` to `to` (see `traverse_outcome`).
pub fn try_traverse(table: &ObstacleTable, from: (i32, i32), to: (i32, i32), time: i32) -> (r: Traverse)
    requires
        table.wf(),
        table.has_cell(from),
        table.has_cell(to),
    ensures
        r == traverse_outcome(table, from, to, time),
{
    if !table.can_traverse(from, to) {
        return Traverse::FallOver;
    }
    if from.0 == to.0 && from.1 == to.1 {
        return Traverse::Unchanged;
    }
    let last = table.get_obstacle(from.0, from.1);
    let here = table.get_obstacle(to.0, to.1);
    assert(last == table.at(from) && here == table.at(to)) by {
        assert(from == (from.0, from.1) && to == (to.0, to.1));
    }
    let event = match here {
        Obstacle::Platform => match last {
            Obstacle::Platform => Some(PlayerEvent::Move),
            Obstacle::Rail(_, _) => Some(PlayerEvent::OffRail),
            _ => None,
        },
        Obstacle::Pit => Some(PlayerEvent::GameOver(time)),
        Obstacle::Rail(_, _) => Some(PlayerEvent::OnRail),
        Obstacle::Wall => None,
    };
    Traverse::MoveTo(to.0, to.1, event)
}

/// The cell a skater at `p` heads for when its speed would carry it to
/// `target`: at most one cell each way, and on the `w` by `h` map.
pub open spec fn continue_cell(p: (i32, i32), target: (i32, i32), w: nat, h: nat) -> (i32, i32) {
    (
        clamp_int(clamp_int(target.0 as int, p.0 - 1, p.0 + 1), 0, w - 1) as i32,
        clamp_int(clamp_int(target.1 as int, p.1 - 1, p.1 + 1), 0, h - 1) as i32,
    )
}

/// The cell a skater at `p` heads for when its speed would carry it to
/// `target` (see `continue_cell`).
pub fn continue_position(table: &ObstacleTable, p: (i32, i32), target: (i32, i32)) -> (r: (i32, i32))
    requires
        table.wf(),
        table.has_cell(p),
    ensures
        r == continue_cell(p, target, table.width_of(), table.height_of()),
{
    let x = clamp_i32(clamp_i32(target.0, p.0 - 1, p.0 + 1), 0, table.width() as i32 - 1);
    let y = clamp_i32(clamp_i32(target.1, p.1 - 1, p.1 + 1), 0, table.height() as i32 - 1);
    (x, y)
}

/// The plan of a skater at `p` that pushes one step `unit`, whose speed would
/// carry it to `target` and which is nearly still when `slow`: `None` when the
/// step leads off the map (it falls over); else whether it falls over, the
/// cell it heads for and its event.  From a rail onto a rail whose first
/// direction differs by more than one, or too slowly, it falls over and stays;
/// from a rail onto anything else, or from a platform, it heads for
/// `continue_cell`; elsewhere it stays.  A skater that stays waits.
pub open spec fn step_plan(t: &ObstacleTable, p: (i32, i32), unit: (i32, i32), slow: bool, target: (i32, i32)) -> Option<
    (bool, (i32, i32), PlayerEvent),
> {
    let q = ((p.0 + unit.0) as i32, (p.1 + unit.1) as i32);
    if !in_grid(q, t.width_of(), t.height_of()) {
        None
    } else {
        let cont = continue_cell(p, target, t.width_of(), t.height_of());
        let (fall, to, event) = match t.at(p) {
            Obstacle::Rail(last_first, _) => match t.at(q) {
                Obstacle::Rail(first, _) => if first - last_first > 1 || last_first - first > 1 || slow {
                    (true, p, PlayerEvent::FallOver)
                } else {
                    (false, cont, PlayerEvent::OffRail)
                },
                _ => (false, cont, PlayerEvent::OnRail),
            },
            Obstacle::Platform => (false, cont, PlayerEvent::Move),
            _ => (false, p, PlayerEvent::Move),
        };
        Some((fall, to, if to == p { PlayerEvent::Wait } else { event }))
    }
}

/// The plan of a skater at `p` that pushes one step `unit` (see `step_plan`).
pub fn next_step(table: &ObstacleTable, p: (i32, i32), unit: (i32, i32), slow: bool, target: (i32, i32)) -> (r: Option<
    (bool, (i32, i32), PlayerEvent),
>)
    requires
        table.wf(),
        table.has_cell(p),
        -1 <= unit.0 <= 1,
        -1 <= unit.1 <= 1,
    ensures
        r == step_plan(table, p, unit, slow, target),
{
    let qx = p.0 + unit.0;
    let qy = p.1 + unit.1;
    if qx < 0 || qy < 0 || qx >= table.width() as i32 || qy >= table.height() as i32 {
        return None;
    }
    let cont = continue_position(table, p, target);
    let here = table.get_obstacle(p.0, p.1);
    assert(here == table.at(p)) by {
        assert(p == (p.0, p.1));
    }
    let (fall, to, event) = match here {
        Obstacle::Rail(last_first, _) => match table.get_obstacle(qx, qy) {
            Obstacle::Rail(first, _) => {
                let d = first as i64 - last_first as i64;
                if d > 1 || d < -1 || slow {
                    (true, p, PlayerEvent::FallOver)
                } else {
                    (false, cont, PlayerEvent::OffRail)
                }
            },
            _ => (false, cont, PlayerEvent::OnRail),
        },
        Obstacle::Platform => (false, cont, PlayerEvent::Move),
        _ => (false, p, PlayerEvent::Move),
    };
    if to.0 == p.0 && to.1 == p.1 {
        Some((fall, to, PlayerEvent::Wait))
    } else {
        Some((fall, to, event))
    }
}


proof fn lemma_first_platform_found(g: Seq<Seq<Obstacle>>, nbrs: Seq<(i32, i32)>, k: nat)
    requires
        k <= nbrs.len(),
    ensures
        match first_platform(g, nbrs, k) {
            Some(i) => 0 <= i < k && g[nbrs[i].0 as int][nbrs[i].1 as int] == Obstacle::Platform,
            None => forall|i: int| 0 <= i < k ==> g[(#[trigger] nbrs[i]).0 as int][nbrs[i].1 as int] != Obstacle::Platform,
        },
    decreases k,
{
    if k > 0 {
        lemma_first_platform_found(g, nbrs, (k - 1) as nat);
    }
}

/// A skater falling over off a rail lands on a platform that touches the
/// rail's cell, and goes back to the middle of the map only when no platform
/// touches it; a skater falling anywhere else stays where it fell.
pub proof fn lemma_landing_is_beside_the_rail(t: &ObstacleTable, p: (i32, i32))
    requires
        t.wf(),
        t.has_cell(p),
    ensures
        !(t.at(p) is Rail) ==> landing(t, p) == Landing::Stay,
        t.at(p) is Rail ==> match landing(t, p) {
            Landing::At(x, y) => t.has_cell((x, y)) && touching((x, y), p) && t.at((x, y)) == Obstacle::Platform,
            Landing::Respawn => forall|q: (i32, i32)|
                t.has_cell(q) && touching(q, p) ==> #[trigger] t.at(q) != Obstacle::Platform,
            Landing::Stay => false,
        },
{
    let br = ((t.width_of() - 1) as i32, (t.height_of() - 1) as i32);
    crate::vec_ops::lemma_neighbors_exact(p.0, p.1, (0, 0), br);
    let nb = neighbor_list(p.0, p.1, 0, 0, br.0, br.1);
    lemma_first_platform_found(t@, nb, nb.len());
    if t.at(p) is Rail {
        match first_platform(t@, nb, nb.len()) {
            Some(i) => {
                assert(nb.contains(nb[i]));
            },
            None => {
                assert forall|q: (i32, i32)| t.has_cell(q) && touching(q, p) implies #[trigger] t.at(q) != Obstacle::Platform by {
                    assert(nb.contains(q));
                    let i = choose|i: int| 0 <= i < nb.len() && nb[i] == q;
                    assert(t@[nb[i].0 as int][nb[i].1 as int] != Obstacle::Platform);
                }
            },
        }
    }
}

/// A skater only arrives at a cell of the map that touches its own, is no
/// wall and where nobody else stands; it falls over exactly when it tries to
/// go anywhere else; stepping onto a pit ends its game at that time, and
/// stepping onto a rail puts it on the rail.
pub proof fn lemma_traverse_arrives_only_at_free_neighbours(t: &ObstacleTable, from: (i32, i32), to: (i32, i32), time: i32)
    requires
        t.wf(),
        t.has_cell(from),
        t.has_cell(to),
    ensures
        (traverse_outcome(t, from, to, time) == Traverse::FallOver) == (t.at(to) == Obstacle::Wall
            || t.blocked_list().contains(to) && to != from || !(touching(to, from) || to == from)),
        match traverse_outcome(t, from, to, time) {
            Traverse::MoveTo(x, y, e) => {
                &&& (x, y) == to
                &&& touching(to, from)
                &&& t.at(to) != Obstacle::Wall
                &&& !t.blocked_list().contains(to)
                &&& (t.at(to) == Obstacle::Pit ==> e == Some(PlayerEvent::GameOver(time)))
                &&& (t.at(to) is Rail ==> e == Some(PlayerEvent::OnRail))
            },
            Traverse::Unchanged => to == from,
            Traverse::FallOver => true,
        },
{
}

/// The cell a skater heads for lies on the map and at most one cell from
/// where it stands each way; a skater that heads for its own cell waits, and
/// one that falls stays where it is.
pub proof fn lemma_step_stays_near(t: &ObstacleTable, p: (i32, i32), unit: (i32, i32), slow: bool, target: (i32, i32))
    requires
        t.wf(),
        t.has_cell(p),
    ensures
        step_plan(t, p, unit, slow, target) matches Some((fall, to, event)) ==> {
            &&& t.has_cell(to)
            &&& -1 <= to.0 - p.0 <= 1
            &&& -1 <= to.1 - p.1 <= 1
            &&& (to == p <==> event == PlayerEvent::Wait)
            &&& (fall ==> to == p)
        },
{
}
} // verus!
