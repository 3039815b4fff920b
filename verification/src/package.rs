use vstd::prelude::*;
use crate::game_flow::{flow_set, GameFlow};
use crate::goal_table::{
    assoc_get, assoc_insert, assoc_remove, keys_unique, lemma_insert_keeps_unique, lemma_removed_goal_is_gone, GoalTable, Rgb8,
};
use crate::main_viewer::MainViewer;
use crate::map_gen::{scan_limit, tunnel_outcome};
use crate::obstacle_table::ObstacleTable;
use crate::random::{rng_new, rng_range};
use crate::spawning::{in_spawn_range, random_platform, tunnel_spawn, with_platform};
use crate::state::ProcState;

verus! {

/// The message shown when the human picks up a package.
pub open spec fn pickup_message() -> Seq<char> {
    "Picked up package, find the skater wearing this color shirt"@
}

/// The `k`-th index when index `skip` is left out.
pub open spec fn skip_index(k: int, skip: int) -> int {
    if k >= skip {
        k + 1
    } else {
        k
    }
}

/// A random opponent of `n` to receive the next package, never `current`
/// (when `current` is one of them): drawn uniformly among the others.
pub fn pick_recipient(n: usize, current: i32) -> (r: usize)
    requires
        1 <= n <= i32::MAX,
        !(n == 1 && current == 0),
    ensures
        r < n,
        0 <= current < n ==> r != current,
        0 <= current < n ==> exists|k: int|
            0 <= k < n - 1 && #[trigger] skip_index(k, current as int) == r,
{
    let mut rng = rng_new();
    let nn = n as i32;
    if 0 <= current && current < nn {
        let k = rng_range(&mut rng, 0, nn - 1);
        assert(skip_index(k as int, current as int) == (if k >= current { k + 1 } else { k as int }));
        if k >= current {
            (k + 1) as usize
        } else {
            k as usize
        }
    } else {
        rng_range(&mut rng, 0, nn) as usize
    }
}

/// The goal entries after picking up the package at `at` and putting the next
/// one at `p` for opponent `k`, shown in colour `color`.
pub open spec fn goals_after_pickup(
    entries: Seq<((i32, i32), (usize, Rgb8))>,
    at: (i32, i32),
    p: (i32, i32),
    k: usize,
    color: Rgb8,
) -> Seq<((i32, i32), (usize, Rgb8))> {
    assoc_remove(assoc_insert(entries, p, (k, color)), at)
}

/// The human stands on the package at `at`.  When there is one, the opponent
/// it is for becomes the recipient, the log says so in the package's colour,
/// a new package is put on a random platform (see `random_platform`) for a
/// random one of the `n_opponents` opponents, and the game goes on; in any
/// case the package at `at` is then taken away (see `remove_goal_if_reached`).
pub fn process_got_package(
    goals: &mut GoalTable,
    obs: &ObstacleTable,
    viewer: &mut MainViewer,
    flow: &mut GameFlow,
    recipient: &mut i32,
    n_opponents: usize,
    at: (i32, i32),
)
    requires
        old(goals).wf(),
        obs.platform_list().len() < i32::MAX,
        assoc_get(old(goals).goal_entries(), at) is Some ==> 1 <= n_opponents <= i32::MAX,
    ensures
        final(goals).wf(),
        match assoc_get(old(goals).goal_entries(), at) {
            None => {
                &&& final(goals).goal_entries() == old(goals).goal_entries()
                &&& *final(recipient) == *old(recipient)
                &&& *final(viewer) == *old(viewer)
                &&& final(flow)@ == old(flow)@
            },
            Some((idx, color)) => {
                &&& *final(recipient) == idx as i32
                &&& final(viewer).log_capacity() == old(viewer).log_capacity()
                &&& final(viewer).log() == (if old(viewer).log().len() + 1 > old(viewer).log_capacity() {
                    old(viewer).log().push((pickup_message(), color)).skip(1)
                } else {
                    old(viewer).log().push((pickup_message(), color))
                })
                &&& final(flow)@ == flow_set(old(flow)@, ProcState::Playing)
                &&& exists|p: (i32, i32), k: usize|
                    {
                        &&& k < n_opponents
                        &&& (obs.platform_list().len() == 0 ==> p == (-1i32, -1i32))
                        &&& (obs.platform_list().len() > 0 ==> obs.platform_list().contains(p))
                        &&& final(goals).goal_entries() == goals_after_pickup(old(goals).goal_entries(), at, p, k, color)
                    }
            },
        },
{
    if let Some(idx_color) = goals.get(at) {
        let mut rng = rng_new();
        *recipient = idx_color.0 as i32;
        viewer.add_string(String::from_str("Picked up package, find the skater wearing this color shirt"), idx_color.1);
        let p = random_platform(obs);
        let k = rng_range(&mut rng, 0, n_opponents as i32) as usize;
        goals.add_goal(p, (k, idx_color.1));
        flow.set_state(ProcState::Playing);
        goals.remove_goal_if_reached(at);
        assert(goals.goal_entries() == goals_after_pickup(old(goals).goal_entries(), at, p, k, idx_color.1));
    } else {
        goals.remove_goal_if_reached(at);
        assert(assoc_remove(old(goals).goal_entries(), at) == old(goals).goal_entries());
    }
}

/// The human delivered a package: a new recipient is drawn among the
/// `n_opponents` opponents, never the last one (see `pick_recipient`), and a
/// new package for it, in a random colour of `colors`, is put on open ground
/// dug at a random cell (see `tunnel_spawn`).
pub fn process_delivered(
    goals: &mut GoalTable,
    obs: &mut ObstacleTable,
    recipient: &mut i32,
    n_opponents: usize,
    colors: &Vec<Rgb8>,
    turns1: &Vec<i32>,
    turns2: &Vec<i32>,
)
    requires
        old(goals).wf(),
        old(obs).wf(),
        old(obs).width_of() >= 2,
        old(obs).height_of() >= 4,
        turns1.len() >= scan_limit(old(obs).width_of(), old(obs).height_of()) / 8,
        turns2.len() >= scan_limit(old(obs).width_of(), old(obs).height_of()) / 8,
        1 <= n_opponents <= i32::MAX,
        !(n_opponents == 1 && *old(recipient) == 0),
        1 <= colors.len() <= i32::MAX,
    ensures
        final(goals).wf(),
        final(obs).wf(),
        final(obs).same_but_grid(old(obs)),
        0 <= *final(recipient) < n_opponents,
        0 <= *old(recipient) < n_opponents ==> *final(recipient) != *old(recipient),
        exists|p: (i32, i32), c: int|
            {
                &&& 0 <= c < colors.len()
                &&& in_spawn_range(p, old(obs).width_of(), old(obs).height_of())
                &&& tunnel_outcome(
                    with_platform(old(obs)@, p),
                    final(obs)@,
                    old(obs).width_of(),
                    old(obs).height_of(),
                    p,
                    turns1@,
                    turns2@,
                )
                &&& final(goals).goal_entries() == assoc_insert(
                    old(goals).goal_entries(),
                    p,
                    ((*final(recipient)) as usize, colors@[c]),
                )
            },
{
    let aiidx = pick_recipient(n_opponents, *recipient);
    *recipient = aiidx as i32;
    let mut rng = rng_new();
    let coloridx = rng_range(&mut rng, 0, colors.len() as i32) as usize;
    let p = tunnel_spawn(obs, turns1, turns2);
    goals.add_goal(p, (aiidx, colors[coloridx]));
    assert(((*recipient) as usize) == aiidx);
}

/// After the human picks up the package at `at`, no package lies there, even
/// when the next package was drawn onto that very cell.
pub proof fn lemma_picked_package_is_gone(
    entries: Seq<((i32, i32), (usize, Rgb8))>,
    at: (i32, i32),
    p: (i32, i32),
    k: usize,
    color: Rgb8,
)
    requires
        keys_unique(entries),
    ensures
        assoc_get(goals_after_pickup(entries, at, p, k, color), at) is None,
{
    lemma_insert_keeps_unique(entries, p, (k, color));
    lemma_removed_goal_is_gone(assoc_insert(entries, p, (k, color)), at);
}

} // verus!
