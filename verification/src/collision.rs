use vstd::prelude::*;
use std::collections::HashSet;
use crate::obstacle_table::ObstacleTable;

verus! {

broadcast use vstd::std_specs::hash::group_hash_axioms;

/// The cells taken after listing the human at `human` and then the first `k`
/// opponents of `ai` that are not `dead`, each cell once, in the order first taken.
pub open spec fn blocked_after(human: (i32, i32), ai: Seq<(i32, i32)>, dead: Set<u32>, k: nat) -> Seq<(i32, i32)>
    decreases k,
{
    if k == 0 {
        seq![human]
    } else {
        let before = blocked_after(human, ai, dead, (k - 1) as nat);
        let p = ai[k - 1];
        if dead.contains(((k - 1) as int) as u32) || before.contains(p) {
            before
        } else {
            before.push(p)
        }
    }
}

/// No cell is listed twice.
pub open spec fn no_repeats(l: Seq<(i32, i32)>) -> bool {
    forall|i: int, j: int| 0 <= i < j < l.len() ==> l[i] != l[j]
}

/// `blocked_after` lists the human's cell and those of the living opponents,
/// each once.
pub proof fn lemma_blocked_after_cells(human: (i32, i32), ai: Seq<(i32, i32)>, dead: Set<u32>, k: nat)
    requires
        k <= ai.len(),
    ensures
        no_repeats(blocked_after(human, ai, dead, k)),
        forall|p: (i32, i32)|
            #![trigger blocked_after(human, ai, dead, k).contains(p)]
            blocked_after(human, ai, dead, k).contains(p) <==> (p == human || exists|i: int|
                0 <= i < k && !dead.contains(i as u32) && ai[i] == p),
    decreases k,
{
    if k > 0 {
        lemma_blocked_after_cells(human, ai, dead, (k - 1) as nat);
        let before = blocked_after(human, ai, dead, (k - 1) as nat);
        let now = blocked_after(human, ai, dead, k);
        assert forall|p: (i32, i32)|
            now.contains(p) <==> (p == human || exists|i: int| 0 <= i < k && !dead.contains(i as u32) && ai[i] == p) by {
            if now.contains(p) && p != human {
                if before.contains(p) {
                    let i = choose|i: int| 0 <= i < k - 1 && !dead.contains(i as u32) && ai[i] == p;
                    assert(0 <= i < k && !dead.contains(i as u32) && ai[i] == p);
                } else {
                    assert(p == ai[k - 1]);
                    assert(!dead.contains((k - 1) as u32));
                }
            }
            if p != human && exists|i: int| 0 <= i < k && !dead.contains(i as u32) && ai[i] == p {
                let i = choose|i: int| 0 <= i < k && !dead.contains(i as u32) && ai[i] == p;
                if i < k - 1 {
                    assert(before.contains(p));
                    if !now.contains(p) {
                        assert(now == before || now == before.push(ai[k - 1]));
                        let j = choose|j: int| 0 <= j < before.len() && before[j] == p;
                        assert(now[j] == p);
                    }
                } else {
                    if !before.contains(p) {
                        assert(now == before.push(p));
                        assert(now[now.len() - 1] == p);
                    }
                }
            }
            if p == human {
                assert(before.contains(human));
                let j = choose|j: int| 0 <= j < before.len() && before[j] == human;
                assert(now[j] == human);
            }
        }
    } else {
        assert(blocked_after(human, ai, dead, 0)[0] == human);
    }
}

/// Record where skaters stand: the human at `human` and every opponent of `ai`
/// whose index is not in `dead`, each cell once.
pub fn update_blocked(table: &mut ObstacleTable, human: (i32, i32), ai: &Vec<(i32, i32)>, dead: &HashSet<u32>)
    ensures
        final(table).blocked_list() == blocked_after(human, ai@, dead@, ai.len() as nat),
        no_repeats(final(table).blocked_list()),
        forall|p: (i32, i32)|
            #![trigger final(table).blocked_list().contains(p)]
            final(table).blocked_list().contains(p) <==> (p == human || exists|i: int|
                0 <= i < ai.len() && !dead@.contains(i as u32) && ai@[i] == p),
        final(table).same_but_blocked(old(table)),
{
    table.clear_blocked();
    table.block(human);
    assert(table.blocked_list() =~= blocked_after(human, ai@, dead@, 0));
    let mut i: usize = 0;
    while i < ai.len()
        invariant
            i <= ai.len(),
            table.blocked_list() == blocked_after(human, ai@, dead@, i as nat),
            table.same_but_blocked(old(table)),
        decreases ai.len() - i,
    {
        let idx = i as u32;
        if !dead.contains(&idx) {
            table.block(ai[i]);
        }
        i += 1;
    }
    proof {
        lemma_blocked_after_cells(human, ai@, dead@, ai.len() as nat);
    }
}

} // verus!
