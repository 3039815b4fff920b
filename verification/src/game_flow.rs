use vstd::prelude::*;
use crate::look_mode::look_directions;
use crate::state::ProcState;

verus! {

/// A key press as the game reads it: a character key (letters in lower case,
/// digits, `;`, `.`, tab), escape, return, or any other key.
#[derive(Clone, Copy, PartialEq, Eq, Structural, Debug)]
pub enum Key {
    Char(char),
    Escape,
    Return,
    Other,
}

/// What the game has to do after a key press, besides the change of screen.
#[derive(Clone, Copy, PartialEq, Eq, Structural, Debug)]
pub enum FlowAction {
    /// Nothing more.
    Idle,
    /// Leave the game.
    Quit,
    /// Make a new game (the game-over screen does this once).
    ResetGame,
    /// Make a new game and empty the message log.
    Restart,
    /// Ask where to look.
    LookPrompt,
    /// Let everybody skate a turn, the human with this key.
    TakeTurns(char),
    /// Describe what lies in the direction of this key.
    Describe(char),
    /// The human reached the package at this cell.
    PickUp(i32, i32),
    /// The human delivered a package.
    Deliver,
    /// Reshape the map by one step of the cellular automaton.
    ApplyAutomaton,
}

/// The screen, the screen before it, whether the screen must be drawn again,
/// and whether the game-over screen already made a new game.
pub type FlowView = (ProcState, ProcState, bool, bool);

/// `f` after moving to screen `s`.
pub open spec fn flow_set(f: FlowView, s: ProcState) -> FlowView {
    (s, f.0, true, f.3)
}

/// A key of the skating and looking keys (see `look_directions`).
pub open spec fn direction_key(c: char) -> bool {
    look_directions().dom().contains(c)
}

/// One step of the game's screens on the key press `key` (none when no key
/// was pressed): the next screens and what the game has to do.
pub open spec fn flow_step(f: FlowView, key: Option<Key>) -> (FlowView, FlowAction) {
    match f.0 {
        ProcState::MainMenu => match key {
            Some(Key::Char(c)) => if c == 'q' {
                (f, FlowAction::Quit)
            } else if c == '0' {
                (flow_set(f, ProcState::Help), FlowAction::Idle)
            } else if c == '1' {
                (flow_set(f, if f.1 == ProcState::LookMode { ProcState::LookMode } else { ProcState::Playing }), FlowAction::Idle)
            } else {
                (f, FlowAction::Idle)
            },
            Some(Key::Escape) => (flow_set(f, if f.1 == ProcState::LookMode { ProcState::LookMode } else { ProcState::Playing }), FlowAction::Idle),
            _ => (f, FlowAction::Idle),
        },
        ProcState::Help => match key {
            Some(Key::Escape) => (flow_set(f, ProcState::MainMenu), FlowAction::Idle),
            _ => (f, FlowAction::Idle),
        },
        ProcState::GameOver => {
            let action = if f.3 { FlowAction::Idle } else { FlowAction::ResetGame };
            let g = (f.0, f.1, f.2, true);
            match key {
                Some(Key::Char(c)) => if c == 'r' {
                    let h = flow_set(g, ProcState::Playing);
                    ((h.0, h.1, h.2, false), action)
                } else {
                    (g, action)
                },
                Some(Key::Escape) => (flow_set(g, ProcState::MainMenu), action),
                _ => (g, action),
            }
        },
        ProcState::Playing => match key {
            Some(Key::Escape) => (flow_set(f, ProcState::MainMenu), FlowAction::Idle),
            Some(Key::Char(c)) => if c == ';' {
                (flow_set(f, ProcState::LookMode), FlowAction::LookPrompt)
            } else if direction_key(c) {
                (f, FlowAction::TakeTurns(c))
            } else if c == 'g' {
                ((f.0, f.1, true, f.3), FlowAction::ApplyAutomaton)
            } else {
                (f, FlowAction::Idle)
            },
            Some(Key::Return) => (flow_set(f, ProcState::Restart), FlowAction::Idle),
            _ => (f, FlowAction::Idle),
        },
        ProcState::PostMove => (flow_set(f, ProcState::Playing), FlowAction::Idle),
        ProcState::Restart => (flow_set(f, ProcState::Playing), FlowAction::Restart),
        ProcState::LookMode => match key {
            Some(Key::Escape) => (flow_set(f, ProcState::MainMenu), FlowAction::Idle),
            Some(Key::Char(c)) => if direction_key(c) {
                (flow_set(f, ProcState::Playing), FlowAction::Describe(c))
            } else {
                (f, FlowAction::Idle)
            },
            _ => (f, FlowAction::Idle),
        },
        ProcState::GotPackage(x, y) => (f, FlowAction::PickUp(x, y)),
        ProcState::DeliveredPackage => (f, FlowAction::Deliver),
        ProcState::Chat => (f, FlowAction::Idle),
    }
}

fn is_direction_key(c: char) -> (b: bool)
    ensures
        b == direction_key(c),
{
    c == 'h' || c == 'a' || c == 'l' || c == 'd' || c == 'k' || c == 'w' || c == 'j' || c == 's' || c == 'u'
        || c == 'e' || c == 'y' || c == 'q' || c == 'b' || c == 'z' || c == 'n' || c == 'c' || c == '.' || c == '\t'
}

/// What the screen shows.
#[derive(Clone, Copy, PartialEq, Eq, Structural, Debug)]
pub enum Screen {
    MainMenu,
    Help,
    /// The game-over screen; showing it empties the message log.
    GameOver,
    /// The map with the skaters, the message log and the speed gauge.
    Game,
}

/// The screen drawn for each state of the game.
pub open spec fn screen_of(s: ProcState) -> Screen {
    match s {
        ProcState::MainMenu => Screen::MainMenu,
        ProcState::Help => Screen::Help,
        ProcState::GameOver => Screen::GameOver,
        _ => Screen::Game,
    }
}

/// The screen drawn in state `s` (see `screen_of`).
pub fn screen_for(s: ProcState) -> (r: Screen)
    ensures
        r == screen_of(s),
{
    match s {
        ProcState::MainMenu => Screen::MainMenu,
        ProcState::Help => Screen::Help,
        ProcState::GameOver => Screen::GameOver,
        _ => Screen::Game,
    }
}

/// The screens of the game and the moves between them.
pub struct GameFlow {
    state: ProcState,
    last_state: ProcState,
    redraw: bool,
    gameover_done: bool,
}

impl View for GameFlow {
    type V = FlowView;

    closed spec fn view(&self) -> FlowView {
        (self.state, self.last_state, self.redraw, self.gameover_done)
    }
}

impl GameFlow {
    /// The game starts at the main menu, to be drawn.
    pub fn new() -> (f: Self)
        ensures
            f@ == (ProcState::MainMenu, ProcState::MainMenu, true, false),
    {
        GameFlow { state: ProcState::MainMenu, last_state: ProcState::MainMenu, redraw: true, gameover_done: false }
    }

    /// The current screen.
    pub fn state(&self) -> (s: ProcState)
        ensures
            s == self@.0,
    {
        self.state
    }

    /// The screen before the current one.
    pub fn last_state(&self) -> (s: ProcState)
        ensures
            s == self@.1,
    {
        self.last_state
    }

    /// Whether the screen must be drawn again.
    pub fn redraw(&self) -> (b: bool)
        ensures
            b == self@.2,
    {
        self.redraw
    }

    /// Ask for the screen to be drawn again, or not.
    pub fn set_redraw(&mut self, b: bool)
        ensures
            final(self)@ == (old(self)@.0, old(self)@.1, b, old(self)@.3),
    {
        self.redraw = b;
    }

    /// Move to screen `s`; the current one becomes the last one.
    pub fn set_state(&mut self, s: ProcState)
        ensures
            final(self)@ == flow_set(old(self)@, s),
    {
        self.last_state = self.state;
        self.state = s;
        self.redraw = true;
    }

    /// Move on after the human's move (see `after_move_flow`): `at_goal`
    /// tells whether the human stands on a package at `pos`, `out` whether the
    /// human fell too often and must respawn.  The result is `out`.
    pub fn after_human_move(&mut self, at_goal: bool, pos: (i32, i32), out: bool) -> (respawn: bool)
        ensures
            final(self)@ == after_move_flow(old(self)@, at_goal, pos, out),
            respawn == out,
    {
        if at_goal {
            self.set_state(ProcState::GotPackage(pos.0, pos.1));
        }
        if out {
            return true;
        }
        let next = match self.state {
            ProcState::GotPackage(x, y) => ProcState::GotPackage(x, y),
            _ => ProcState::PostMove,
        };
        self.set_state(next);
        false
    }

    /// React to the key press `key` (see `flow_step`).
    pub fn on_key(&mut self, key: Option<Key>) -> (a: FlowAction)
        ensures
            (final(self)@, a) == flow_step(old(self)@, key),
    {
        match self.state {
            ProcState::MainMenu => match key {
                Some(Key::Char(c)) => {
                    if c == 'q' {
                        FlowAction::Quit
                    } else if c == '0' {
                        self.set_state(ProcState::Help);
                        FlowAction::Idle
                    } else if c == '1' {
                        let next = if self.last_state == ProcState::LookMode {
                            ProcState::LookMode
                        } else {
                            ProcState::Playing
                        };
                        self.set_state(next);
                        FlowAction::Idle
                    } else {
                        FlowAction::Idle
                    }
                },
                Some(Key::Escape) => {
                    let next = if self.last_state == ProcState::LookMode {
                        ProcState::LookMode
                    } else {
                        ProcState::Playing
                    };
                    self.set_state(next);
                    FlowAction::Idle
                },
                _ => FlowAction::Idle,
            },
            ProcState::Help => {
                if let Some(Key::Escape) = key {
                    self.set_state(ProcState::MainMenu);
                }
                FlowAction::Idle
            },
            ProcState::GameOver => {
                let action = if self.gameover_done {
                    FlowAction::Idle
                } else {
                    FlowAction::ResetGame
                };
                self.gameover_done = true;
                match key {
                    Some(Key::Char(c)) => {
                        if c == 'r' {
                            self.set_state(ProcState::Playing);
                            self.gameover_done = false;
                        }
                    },
                    Some(Key::Escape) => {
                        self.set_state(ProcState::MainMenu);
                    },
                    _ => {},
                }
                action
            },
            ProcState::Playing => match key {
                Some(Key::Escape) => {
                    self.set_state(ProcState::MainMenu);
                    FlowAction::Idle
                },
                Some(Key::Char(c)) => {
                    if c == ';' {
                        self.set_state(ProcState::LookMode);
                        FlowAction::LookPrompt
                    } else if is_direction_key(c) {
                        FlowAction::TakeTurns(c)
                    } else if c == 'g' {
                        self.redraw = true;
                        FlowAction::ApplyAutomaton
                    } else {
                        FlowAction::Idle
                    }
                },
                Some(Key::Return) => {
                    self.set_state(ProcState::Restart);
                    FlowAction::Idle
                },
                _ => FlowAction::Idle,
            },
            ProcState::PostMove => {
                self.set_state(ProcState::Playing);
                FlowAction::Idle
            },
            ProcState::Restart => {
                self.set_state(ProcState::Playing);
                FlowAction::Restart
            },
            ProcState::LookMode => match key {
                Some(Key::Escape) => {
                    self.set_state(ProcState::MainMenu);
                    FlowAction::Idle
                },
                Some(Key::Char(c)) => {
                    if is_direction_key(c) {
                        self.set_state(ProcState::Playing);
                        FlowAction::Describe(c)
                    } else {
                        FlowAction::Idle
                    }
                },
                _ => FlowAction::Idle,
            },
            ProcState::GotPackage(x, y) => FlowAction::PickUp(x, y),
            ProcState::DeliveredPackage => FlowAction::Deliver,
            ProcState::Chat => FlowAction::Idle,
        }
    }
}

/// The screens after the human's move: to the package screen when the human
/// stands on a package; then, unless the human is out (and respawns without a
/// change of screen), to the package screen again or else to the screen after
/// a move.
pub open spec fn after_move_flow(f: FlowView, at_goal: bool, pos: (i32, i32), out: bool) -> FlowView {
    let g = if at_goal {
        flow_set(f, ProcState::GotPackage(pos.0, pos.1))
    } else {
        f
    };
    if out {
        g
    } else {
        flow_set(
            g,
            match g.0 {
                ProcState::GotPackage(x, y) => ProcState::GotPackage(x, y),
                _ => ProcState::PostMove,
            },
        )
    }
}

/// Escape leads from the game, from looking around and from the help screen
/// back to the main menu, and from the main menu back to the game (or to
/// looking around, when that was the screen before).
pub proof fn lemma_escape_toggles_menu(f: FlowView)
    ensures
        (f.0 == ProcState::Playing || f.0 == ProcState::LookMode || f.0 == ProcState::Help) ==> flow_step(f, Some(Key::Escape)).0.0 == ProcState::MainMenu,
        f.0 == ProcState::MainMenu ==> flow_step(f, Some(Key::Escape)).0.0 == (if f.1 == ProcState::LookMode {
            ProcState::LookMode
        } else {
            ProcState::Playing
        }),
{
}

/// Only `q` at the main menu quits.
pub proof fn lemma_only_menu_q_quits(f: FlowView, key: Option<Key>)
    ensures
        flow_step(f, key).1 == FlowAction::Quit <==> (f.0 == ProcState::MainMenu && key == Some(Key::Char('q'))),
{
}

/// The game-over screen makes a new game once per visit: the first step there
/// asks for it, and while the game stays on that screen the next step does not.
pub proof fn lemma_game_over_resets_once(f: FlowView, k1: Option<Key>, k2: Option<Key>)
    requires
        f.0 == ProcState::GameOver,
        !f.3,
    ensures
        flow_step(f, k1).1 == FlowAction::ResetGame,
        flow_step(f, k1).0.0 == ProcState::GameOver ==> flow_step(flow_step(f, k1).0, k2).1 == FlowAction::Idle,
{
}

} // verus!
