use vstd::prelude::*;
use crate::text::{config_text_check, config_text_ok, read_settings, settings_after, split_lines, views};

verus! {

/// The word `max_falls`.
pub open spec fn max_falls_word() -> Seq<u8> {
    seq![('m' as u8), ('a' as u8), ('x' as u8), ('_' as u8), ('f' as u8), ('a' as u8), ('l' as u8), ('l' as u8), ('s' as u8)]
}

/// The word `opponents`.
pub open spec fn opponents_word() -> Seq<u8> {
    seq![('o' as u8), ('p' as u8), ('p' as u8), ('o' as u8), ('n' as u8), ('e' as u8), ('n' as u8), ('t' as u8), ('s' as u8)]
}

/// The word `ai_sight_radius`.
pub open spec fn ai_sight_radius_word() -> Seq<u8> {
    seq![
        ('a' as u8), ('i' as u8), ('_' as u8), ('s' as u8), ('i' as u8), ('g' as u8), ('h' as u8), ('t' as u8),
        ('_' as u8), ('r' as u8), ('a' as u8), ('d' as u8), ('i' as u8), ('u' as u8), ('s' as u8),
    ]
}

/// The word `giveup_turns`.
pub open spec fn giveup_turns_word() -> Seq<u8> {
    seq![
        ('g' as u8), ('i' as u8), ('v' as u8), ('e' as u8), ('u' as u8), ('p' as u8), ('_' as u8), ('t' as u8),
        ('u' as u8), ('r' as u8), ('n' as u8), ('s' as u8),
    ]
}

/// The keys of the game's settings file, in the order of `GameSettings::values`.
pub open spec fn game_keys() -> Seq<Seq<u8>> {
    seq![max_falls_word(), opponents_word(), ai_sight_radius_word(), giveup_turns_word()]
}

fn game_keys_exec() -> (keys: Vec<Vec<u8>>)
    ensures
        views(keys@) == game_keys(),
        keys.len() == 4,
{
    let k0: Vec<u8> = vec![('m' as u8), ('a' as u8), ('x' as u8), ('_' as u8), ('f' as u8), ('a' as u8), ('l' as u8), ('l' as u8), ('s' as u8)];
    let k1: Vec<u8> = vec![('o' as u8), ('p' as u8), ('p' as u8), ('o' as u8), ('n' as u8), ('e' as u8), ('n' as u8), ('t' as u8), ('s' as u8)];
    let k2: Vec<u8> = vec![
        ('a' as u8), ('i' as u8), ('_' as u8), ('s' as u8), ('i' as u8), ('g' as u8), ('h' as u8), ('t' as u8),
        ('_' as u8), ('r' as u8), ('a' as u8), ('d' as u8), ('i' as u8), ('u' as u8), ('s' as u8),
    ];
    let k3: Vec<u8> = vec![
        ('g' as u8), ('i' as u8), ('v' as u8), ('e' as u8), ('u' as u8), ('p' as u8), ('_' as u8), ('t' as u8),
        ('u' as u8), ('r' as u8), ('n' as u8), ('s' as u8),
    ];
    assert(k0@ =~= max_falls_word());
    assert(k1@ =~= opponents_word());
    assert(k2@ =~= ai_sight_radius_word());
    assert(k3@ =~= giveup_turns_word());
    let keys = vec![k0, k1, k2, k3];
    assert(views(keys@) =~= game_keys());
    keys
}

/// The tunable numbers of a game: how many falls end a life, how many
/// opponents skate, how far they look, and how many turns an opponent that
/// does not move keeps its goal.
pub struct GameSettings {
    pub max_falls: u32,
    pub n_opponents: u32,
    pub ai_sight_radius: u32,
    pub giveup_turns: u32,
}

impl GameSettings {
    /// The settings as the sequence `max_falls, n_opponents, ai_sight_radius, giveup_turns`.
    pub open spec fn values(&self) -> Seq<u32> {
        seq![self.max_falls, self.n_opponents, self.ai_sight_radius, self.giveup_turns]
    }

    /// The defaults: 4 falls, 2 opponents, a sight radius of 8, 3 turns.
    pub fn new() -> (s: Self)
        ensures
            s.max_falls == 4,
            s.n_opponents == 2,
            s.ai_sight_radius == 8,
            s.giveup_turns == 3,
    {
        GameSettings { max_falls: 4, n_opponents: 2, ai_sight_radius: 8, giveup_turns: 3 }
    }

    /// Whether a settings text can be read without failing: each line that is
    /// not empty or a comment holds a word, and a line naming a setting holds
    /// its value after it.
    pub fn settings_text_ok(contents: &[u8]) -> (ok: bool)
        ensures
            ok == config_text_ok(contents@, game_keys()),
    {
        let keys = game_keys_exec();
        config_text_check(contents, &keys)
    }

    /// Read the settings text: each line `max_falls N`, `opponents N`,
    /// `ai_sight_radius N` or `giveup_turns N` whose `N` is a `u32` sets that
    /// setting, the last such line winning; every other line is skipped.
    pub fn properties_from_contents(&mut self, contents: &[u8])
        requires
            config_text_ok(contents@, game_keys()),
        ensures
            final(self).values() == settings_after(
                old(self).values(),
                game_keys(),
                split_lines(contents@),
                split_lines(contents@).len(),
            ),
    {
        let keys = game_keys_exec();
        let mut vals: Vec<u32> = vec![self.max_falls, self.n_opponents, self.ai_sight_radius, self.giveup_turns];
        assert(vals@ =~= old(self).values());
        read_settings(contents, &keys, &mut vals);
        self.max_falls = vals[0];
        self.n_opponents = vals[1];
        self.ai_sight_radius = vals[2];
        self.giveup_turns = vals[3];
        assert(self.values() =~= vals@);
    }
}

} // verus!
