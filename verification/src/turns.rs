use vstd::prelude::*;
use crate::heap::{extract_spec, insert_spec, items_of, lemma_extract_removes_root, lemma_insert_adds_item, Heap};
use crate::player::PlayerType;
use crate::player_event::PlayerEvent;

verus! {

/// The index the human skater is filed under in the turn order.
pub open spec fn human_index() -> usize {
    999
}

/// The heap of a turn after filing the human under `human_key` and the first
/// `k` opponents, opponent `i` under `ai_keys[i]`.
pub open spec fn turn_heap(human_key: u32, ai_keys: Seq<u32>, k: nat) -> Seq<(u32, (usize, PlayerType))>
    decreases k,
{
    if k == 0 {
        insert_spec(Seq::empty(), human_key, (human_index(), PlayerType::Human))
    } else {
        insert_spec(turn_heap(human_key, ai_keys, (k - 1) as nat), ai_keys[k - 1], (((k - 1) as int) as usize, PlayerType::AI))
    }
}

/// The entries filed for a turn: the human, then each opponent.
pub open spec fn turn_entries(human_key: u32, ai_keys: Seq<u32>, k: nat) -> Seq<(u32, (usize, PlayerType))>
    decreases k,
{
    if k == 0 {
        seq![(human_key, (human_index(), PlayerType::Human))]
    } else {
        turn_entries(human_key, ai_keys, (k - 1) as nat).push((ai_keys[k - 1], (((k - 1) as int) as usize, PlayerType::AI)))
    }
}

/// The entries `extract_min` takes out of the store `s`, one after the other,
/// at most `fuel` of them, until the heap is empty.
pub open spec fn drain_entries<T>(s: Seq<(u32, T)>, fuel: nat) -> Seq<(u32, T)>
    decreases fuel,
{
    if fuel == 0 || s.len() < 2 {
        Seq::empty()
    } else {
        seq![s[1]] + drain_entries(extract_spec(s), (fuel - 1) as nat)
    }
}

/// The payloads of heap entries.
pub open spec fn payloads<T>(s: Seq<(u32, T)>) -> Seq<T> {
    s.map_values(|e: (u32, T)| e.1)
}

proof fn lemma_turn_heap_items(human_key: u32, ai_keys: Seq<u32>, k: nat)
    requires
        k <= ai_keys.len(),
    ensures
        items_of(turn_heap(human_key, ai_keys, k)).to_multiset() == turn_entries(human_key, ai_keys, k).to_multiset(),
        turn_heap(human_key, ai_keys, k).len() == k + 2,
    decreases k,
{
    broadcast use vstd::seq_lib::group_to_multiset_ensures;

    if k == 0 {
        lemma_insert_adds_item(Seq::<(u32, (usize, PlayerType))>::empty(), human_key, (human_index(), PlayerType::Human));
        assert(items_of(Seq::<(u32, (usize, PlayerType))>::empty()) =~= Seq::empty());
        assert(seq![(human_key, (human_index(), PlayerType::Human))] =~= Seq::empty().push((human_key, (human_index(), PlayerType::Human))));
    } else {
        let prev = turn_heap(human_key, ai_keys, (k - 1) as nat);
        lemma_turn_heap_items(human_key, ai_keys, (k - 1) as nat);
        lemma_insert_adds_item(prev, ai_keys[k - 1], (((k - 1) as int) as usize, PlayerType::AI));
    }
}

proof fn lemma_drain_entries<T>(s: Seq<(u32, T)>, fuel: nat)
    requires
        fuel + 1 >= s.len(),
    ensures
        drain_entries(s, fuel).to_multiset() == items_of(s).to_multiset(),
        drain_entries(s, fuel).len() == items_of(s).len(),
    decreases fuel,
{
    broadcast use vstd::seq_lib::group_to_multiset_ensures;
    broadcast use vstd::multiset::group_multiset_axioms;

    if fuel == 0 || s.len() < 2 {
        assert(items_of(s) =~= Seq::<(u32, T)>::empty());
        assert(drain_entries(s, fuel) =~= Seq::<(u32, T)>::empty());
    } else {
        let e = extract_spec(s);
        lemma_extract_removes_root(s);
        lemma_drain_entries(e, (fuel - 1) as nat);
        let rest = drain_entries(e, (fuel - 1) as nat);
        let m = items_of(s).to_multiset();
        assert(items_of(s)[0] == s[1]);
        assert(m.count(s[1]) > 0) by {
            assert(items_of(s).contains(s[1]));
        }
        assert(seq![s[1]] + rest =~= rest.insert(0, s[1]));
        assert(m.remove(s[1]).insert(s[1]) =~= m);
    }
}

/// The order in which the skaters move in a turn: the human, filed under
/// `human_key`, and opponent `i`, filed under `ai_keys[i]`, go into a heap and
/// come out one by one (see `drain_entries`).  Each result is an opponent's
/// index with `PlayerType::AI`, or 999 with `PlayerType::Human`.
pub fn turn_order(human_key: u32, ai_keys: &Vec<u32>) -> (order: Vec<(usize, PlayerType)>)
    ensures
        order@ == payloads(drain_entries(turn_heap(human_key, ai_keys@, ai_keys.len() as nat), ai_keys.len() as nat + 1)),
{
    let mut heap: Heap<(usize, PlayerType)> = Heap::new();
    heap.insert(human_key, (999, PlayerType::Human));
    let mut i: usize = 0;
    while i < ai_keys.len()
        invariant
            i <= ai_keys.len(),
            heap@ == turn_heap(human_key, ai_keys@, i as nat),
        decreases ai_keys.len() - i,
    {
        heap.insert(ai_keys[i], (i, PlayerType::AI));
        i += 1;
    }
    proof {
        lemma_turn_heap_items(human_key, ai_keys@, ai_keys.len() as nat);
    }
    let ghost start = heap@;
    let ghost total = ai_keys.len() as nat + 1;
    let mut order: Vec<(usize, PlayerType)> = Vec::new();
    let ghost mut taken: nat = 0;
    while !heap.empty()
        invariant
            taken <= total,
            heap@.len() + taken == start.len(),
            start.len() == total + 1,
            payloads(drain_entries(start, total)) == order@ + payloads(drain_entries(heap@, (total - taken) as nat)),
        decreases heap@.len(),
    {
        let ghost before = heap@;
        proof {
            lemma_extract_removes_root(before);
            assert(drain_entries(before, (total - taken) as nat) == seq![before[1]] + drain_entries(extract_spec(before), (total - taken - 1) as nat));
            assert(payloads(seq![before[1]] + drain_entries(extract_spec(before), (total - taken - 1) as nat)) =~= seq![before[1].1] + payloads(drain_entries(extract_spec(before), (total - taken - 1) as nat)));
        }
        let next = heap.extract_min();
        order.push(next);
        proof {
            taken = taken + 1;
        }
        assert(order@ + payloads(drain_entries(heap@, (total - taken) as nat)) =~= order@.drop_last() + (seq![next] + payloads(drain_entries(heap@, (total - taken) as nat))));
    }
    assert(drain_entries(heap@, (total - taken) as nat) =~= Seq::<(u32, (usize, PlayerType))>::empty());
    assert(order@ + payloads(Seq::<(u32, (usize, PlayerType))>::empty()) =~= order@);
    order
}

/// Every skater moves exactly once in a turn: the entries the turn order takes
/// out of its heap are exactly the human's and each opponent's.
pub proof fn lemma_each_skater_moves_once(human_key: u32, ai_keys: Seq<u32>)
    ensures
        drain_entries(turn_heap(human_key, ai_keys, ai_keys.len()), ai_keys.len() + 1).to_multiset()
            == turn_entries(human_key, ai_keys, ai_keys.len()).to_multiset(),
        drain_entries(turn_heap(human_key, ai_keys, ai_keys.len()), ai_keys.len() + 1).len() == ai_keys.len() + 1,
{
    lemma_turn_heap_items(human_key, ai_keys, ai_keys.len());
    lemma_drain_entries(turn_heap(human_key, ai_keys, ai_keys.len()), ai_keys.len() + 1);
    broadcast use vstd::seq_lib::group_to_multiset_ensures;
    assert(turn_entries(human_key, ai_keys, ai_keys.len()).len() == ai_keys.len() + 1) by {
        lemma_turn_entries_len(human_key, ai_keys, ai_keys.len());
    }
}

proof fn lemma_turn_entries_len(human_key: u32, ai_keys: Seq<u32>, k: nat)
    ensures
        turn_entries(human_key, ai_keys, k).len() == k + 1,
    decreases k,
{
    if k > 0 {
        lemma_turn_entries_len(human_key, ai_keys, (k - 1) as nat);
    }
}

/// What becomes of an opponent after its move.
#[derive(Clone, Copy, PartialEq, Eq, Structural, Debug)]
pub enum AiOutcome {
    /// It picks a new goal and its patience starts again.
    NewGoal,
    /// It waits to come back at a free platform.
    Respawn,
    /// It goes on towards its goal.
    Carry,
}

/// An opponent's patience after a move: one turn less when it did not move.
pub open spec fn patience_after(moved: bool, turns_left: u32) -> int {
    if moved {
        turns_left as int
    } else {
        turns_left - 1
    }
}

/// The outcome of an opponent's move and its patience afterwards: when it
/// reached its goal or ran out of patience it picks a new goal with
/// `giveup_turns` of patience; else when its game is over, or it fell
/// `max_falls` times, it waits to respawn.
pub open spec fn ai_outcome(
    moved: bool,
    reached: bool,
    turns_left: u32,
    event: PlayerEvent,
    n_falls: i32,
    max_falls: u32,
    giveup_turns: u32,
) -> (AiOutcome, u32) {
    let left = patience_after(moved, turns_left);
    if reached || left <= 0 {
        (AiOutcome::NewGoal, giveup_turns)
    } else if event is GameOver {
        (AiOutcome::Respawn, left as u32)
    } else if n_falls >= max_falls as i32 {
        (AiOutcome::Respawn, left as u32)
    } else {
        (AiOutcome::Carry, left as u32)
    }
}

/// Decide what becomes of an opponent after its move (see `ai_outcome`):
/// `moved` tells whether it left its cell, `reached` whether it is within
/// reach of its goal, `turns_left` its patience before the move.  A patience
/// of 0 cannot go down further, hence an opponent out of patience must have moved.
pub fn ai_turn_outcome(
    moved: bool,
    reached: bool,
    turns_left: u32,
    event: PlayerEvent,
    n_falls: i32,
    max_falls: u32,
    giveup_turns: u32,
) -> (r: (AiOutcome, u32))
    requires
        moved || turns_left > 0,
    ensures
        r == ai_outcome(moved, reached, turns_left, event, n_falls, max_falls, giveup_turns),
{
    let mut left = turns_left;
    if !moved {
        left = left - 1;
    }
    if reached || left == 0 {
        (AiOutcome::NewGoal, giveup_turns)
    } else if let PlayerEvent::GameOver(_) = event {
        (AiOutcome::Respawn, left)
    } else if n_falls >= max_falls as i32 {
        (AiOutcome::Respawn, left)
    } else {
        (AiOutcome::Carry, left)
    }
}

} // verus!
