use vstd::prelude::*;
use crate::goal_table::Rgb8;
use crate::map_gen::clamp_int;
use crate::obstacle::Obstacle;
use crate::obstacle_table::ObstacleTable;
use crate::player_event::PlayerEvent;

verus! {

/// What `rltk::to_cp437` gives for a character.
pub uninterp spec fn cp437_code(c: char) -> u16;

/// `rltk::to_cp437`: the code page 437 glyph of `c`, 0 for a character the code
/// page lacks.  Its source maps each printable ASCII character to its ASCII code;
/// that is stated, the rest of its table is only named.
#[verifier::external_body]
fn to_cp437(c: char) -> (g: u16)
    ensures
        g == cp437_code(c),
        ' ' <= c <= '~' ==> g == c as u16,
{
    rltk::to_cp437(c)
}

/// The character the map shows for an obstacle: `x` a pit, `.` a platform, `#`
/// a wall, and for a rail an arrow-like sign of its direction; a rail of any
/// other direction has none.
pub open spec fn obstacle_symbol(o: Obstacle) -> Option<char> {
    match o {
        Obstacle::Pit => Some('x'),
        Obstacle::Platform => Some('.'),
        Obstacle::Wall => Some('#'),
        Obstacle::Rail(x, y) => if x == 0 && y == 0 {
            Some('_')
        } else if x == 1 && y == 0 {
            Some('>')
        } else if x == -1 && y == 0 {
            Some('<')
        } else if x == 0 && y == -1 {
            Some('^')
        } else if x == 0 && y == 1 {
            Some('v')
        } else if x == 1 && y == -1 {
            Some('/')
        } else if x == -1 && y == 1 {
            Some('d')
        } else if x == 1 && y == 1 {
            Some('\\')
        } else if x == -1 && y == -1 {
            Some('u')
        } else {
            None
        },
    }
}

/// The name of a direction: `Down` or `Up` for its vertical part, then `Right`
/// or `Left` for its horizontal part.
pub open spec fn direction_name(d: (i32, i32)) -> Seq<char> {
    (if d.1 == 1 {
        "Down"@
    } else if d.1 == -1 {
        "Up"@
    } else {
        Seq::empty()
    }) + (if d.0 == 1 {
        "Right"@
    } else if d.0 == -1 {
        "Left"@
    } else {
        Seq::empty()
    })
}

/// White, as `rltk` names it.
pub open spec fn white() -> Rgb8 {
    (255, 255, 255)
}

/// Red, as `rltk` names it.
pub open spec fn red() -> Rgb8 {
    (255, 0, 0)
}

/// Cyan, as `rltk` names it.
pub open spec fn cyan() -> Rgb8 {
    (0, 255, 255)
}

/// Magenta, as `rltk` names it.
pub open spec fn magenta() -> Rgb8 {
    (255, 0, 255)
}

/// The message logged after a turn that ended with `event` on a cell holding
/// `o`, with its colour.
pub open spec fn event_message(event: PlayerEvent, o: Obstacle) -> (Seq<char>, Rgb8) {
    match event {
        PlayerEvent::Move | PlayerEvent::OnRail => match o {
            Obstacle::Platform => ("On Platform"@, white()),
            Obstacle::Pit => ("Restart"@, red()),
            Obstacle::Rail(x, y) => ("Grinding "@ + direction_name((x, y)), cyan()),
            Obstacle::Wall => (Seq::empty(), white()),
        },
        PlayerEvent::Wait => match o {
            Obstacle::Platform => ("Waiting"@, white()),
            Obstacle::Pit => ("Restart"@, red()),
            Obstacle::Rail(x, y) => ("Stalled "@ + direction_name((x, y)), magenta()),
            Obstacle::Wall => (Seq::empty(), white()),
        },
        PlayerEvent::FallOver => match o {
            Obstacle::Platform => ("Fell over"@, red()),
            Obstacle::Pit => ("Restart"@, white()),
            Obstacle::Rail(_, _) => ("Fell over"@, red()),
            Obstacle::Wall => (Seq::empty(), white()),
        },
        PlayerEvent::OffRail => match o {
            Obstacle::Platform => ("On Platform"@, white()),
            Obstacle::Pit => ("Restart"@, white()),
            Obstacle::Rail(x, y) => ("Grinding "@ + direction_name((x, y)), cyan()),
            Obstacle::Wall => (Seq::empty(), white()),
        },
        PlayerEvent::GameOver(_) => ("Restart"@, red()),
    }
}

/// The views of log entries.
pub open spec fn entry_views(l: Seq<(String, Rgb8)>) -> Seq<(Seq<char>, Rgb8)> {
    l.map_values(|e: (String, Rgb8)| (e.0@, e.1))
}

/// One axis of the part of the map shown around `m`, as its first and last
/// cell: `min(size, n)` cells of the row `0..n`, starting `size / 2` cells
/// before `m` unless that would leave the row, in which case the window is
/// slid back inside it.
pub open spec fn window_axis(m: int, size: nat, n: nat) -> (int, int) {
    let len: int = if size < n { size as int } else { n as int };
    let tl = clamp_int(m - size / 2, 0, n - len);
    (tl, tl + len - 1)
}

/// The glyph a visible cell shows: the obstacle's symbol; `$` where a package
/// waits; unless the cell is a pit, `@` for a skater standing there (`!` when
/// it fell over), the human over an opponent.
pub open spec fn cell_glyph_char(o: Obstacle, goal_here: bool, ai_here: Option<PlayerEvent>, player_here: Option<PlayerEvent>) -> char {
    let base = if goal_here {
        '$'
    } else {
        obstacle_symbol(o).unwrap()
    };
    if o == Obstacle::Pit {
        base
    } else {
        match player_here {
            Some(e) => if e == PlayerEvent::FallOver {
                '!'
            } else {
                '@'
            },
            None => match ai_here {
                Some(e) => if e == PlayerEvent::FallOver {
                    '!'
                } else {
                    '@'
                },
                None => base,
            },
        }
    }
}

/// The window shown around a cell `m` of a row of `n` cells is exactly
/// `min(size, n)` cells long, stays inside the row and, for a screen at least
/// one cell wide, holds `m`; where the row leaves room on both sides, `m` is
/// its middle cell (`size / 2` cells from its start).
pub proof fn lemma_window_holds_middle(m: int, size: nat, n: nat)
    requires
        0 <= m < n,
    ensures
        window_axis(m, size, n).1 - window_axis(m, size, n).0 + 1 == (if size < n { size as int } else { n as int }),
        0 <= window_axis(m, size, n).0,
        window_axis(m, size, n).1 <= n - 1,
        size >= 1 ==> window_axis(m, size, n).0 <= m <= window_axis(m, size, n).1,
        size / 2 <= m && m - size / 2 + size <= n ==> window_axis(m, size, n).0 == m - size / 2,
{
}

pub(crate) fn clamp_i32(v: i32, lo: i32, hi: i32) -> (r: i32)
    requires
        lo <= hi,
    ensures
        r == clamp_int(v as int, lo as int, hi as int),
{
    if v < lo {
        lo
    } else if v > hi {
        hi
    } else {
        v
    }
}

fn axis_window(m: i32, size: u32, n: u32) -> (r: (i32, i32))
    requires
        0 <= m < n <= i32::MAX,
    ensures
        (r.0 as int, r.1 as int) == window_axis(m as int, size as nat, n as nat),
{
    let len: i32 = if size < n {
        size as i32
    } else {
        n as i32
    };
    let half = (size / 2) as i32;
    let tl = clamp_i32(m - half, 0, n as i32 - len);
    (tl, tl + len - 1)
}

/// The main game screen: the glyphs of the map and a log of the latest messages.
pub struct MainViewer {
    symbol_map: Vec<(Obstacle, u16)>,
    message_log: Vec<(String, Rgb8)>,
    log_length: usize,
    _max_message_length: u32,
}

impl MainViewer {
    /// The messages in the log, oldest first.
    pub closed spec fn log(&self) -> Seq<(Seq<char>, Rgb8)> {
        entry_views(self.message_log@)
    }

    /// How many messages the log keeps.
    pub closed spec fn log_capacity(&self) -> nat {
        self.log_length as nat
    }

    /// The symbol map holds the glyph of every obstacle that has a symbol.
    pub closed spec fn wf(&self) -> bool {
        &&& forall|i: int|
            0 <= i < self.symbol_map@.len() ==> (obstacle_symbol(#[trigger] self.symbol_map@[i].0) matches Some(c)
                && self.symbol_map@[i].1 == c as u16)
        &&& forall|o: Obstacle|
            #![trigger obstacle_symbol(o)]
            obstacle_symbol(o) is Some ==> exists|i: int| 0 <= i < self.symbol_map@.len() && self.symbol_map@[i].0 == o
    }

    /// A screen whose log keeps the latest `log_length` messages, empty.
    pub fn new(log_length: usize) -> (v: Self)
        ensures
            v.wf(),
            v.log() == Seq::<(Seq<char>, Rgb8)>::empty(),
            v.log_capacity() == log_length,
    {
        let mut symbol_map: Vec<(Obstacle, u16)> = Vec::new();
        symbol_map.push((Obstacle::Pit, to_cp437('x')));
        symbol_map.push((Obstacle::Platform, to_cp437('.')));
        symbol_map.push((Obstacle::Wall, to_cp437('#')));
        symbol_map.push((Obstacle::Rail(0, 0), to_cp437('_')));
        symbol_map.push((Obstacle::Rail(1, 0), to_cp437('>')));
        symbol_map.push((Obstacle::Rail(-1, 0), to_cp437('<')));
        symbol_map.push((Obstacle::Rail(0, -1), to_cp437('^')));
        symbol_map.push((Obstacle::Rail(0, 1), to_cp437('v')));
        symbol_map.push((Obstacle::Rail(1, -1), to_cp437('/')));
        symbol_map.push((Obstacle::Rail(-1, 1), to_cp437('d')));
        symbol_map.push((Obstacle::Rail(1, 1), to_cp437('\\')));
        symbol_map.push((Obstacle::Rail(-1, -1), to_cp437('u')));
        let v = MainViewer { symbol_map, message_log: Vec::new(), log_length, _max_message_length: 16 };
        proof {
            let l = v.symbol_map@;
            assert(l.len() == 12);
            assert forall|o: Obstacle| #[trigger] obstacle_symbol(o) is Some implies exists|i: int|
                0 <= i < l.len() && l[i].0 == o by {
                match o {
                    Obstacle::Pit => assert(l[0].0 == o),
                    Obstacle::Platform => assert(l[1].0 == o),
                    Obstacle::Wall => assert(l[2].0 == o),
                    Obstacle::Rail(x, y) => {
                        if x == 0 && y == 0 { assert(l[3].0 == o); }
                        else if x == 1 && y == 0 { assert(l[4].0 == o); }
                        else if x == -1 && y == 0 { assert(l[5].0 == o); }
                        else if x == 0 && y == -1 { assert(l[6].0 == o); }
                        else if x == 0 && y == 1 { assert(l[7].0 == o); }
                        else if x == 1 && y == -1 { assert(l[8].0 == o); }
                        else if x == -1 && y == 1 { assert(l[9].0 == o); }
                        else if x == 1 && y == 1 { assert(l[10].0 == o); }
                        else { assert(l[11].0 == o); }
                    },
                }
            }
            assert(v.log() =~= Seq::<(Seq<char>, Rgb8)>::empty());
        }
        v
    }

    /// The code page 437 glyph of the symbol of `o`, if it has one.
    pub fn symbol(&self, o: Obstacle) -> (g: Option<u16>)
        requires
            self.wf(),
        ensures
            g == (match obstacle_symbol(o) {
                Some(c) => Some(c as u16),
                None => None::<u16>,
            }),
    {
        let mut i: usize = 0;
        while i < self.symbol_map.len()
            invariant
                i <= self.symbol_map@.len(),
                self.wf(),
                forall|j: int| 0 <= j < i ==> self.symbol_map@[j].0 != o,
            decreases self.symbol_map@.len() - i,
        {
            if self.symbol_map[i].0 == o {
                assert(obstacle_symbol(self.symbol_map@[i as int].0) is Some);
                return Some(self.symbol_map[i].1);
            }
            i += 1;
        }
        proof {
            if obstacle_symbol(o) is Some {
                assert(exists|i: int| 0 <= i < self.symbol_map@.len() && self.symbol_map@[i].0 == o);
            }
        }
        None
    }

    /// The name of direction `d` (see `direction_name`).
    pub fn direction_string(d: (i32, i32)) -> (s: String)
        ensures
            s@ == direction_name(d),
    {
        let (xdir, ydir) = d;
        let mut s = String::new();
        if ydir == 1 {
            s.append("Down");
        } else if ydir == -1 {
            s.append("Up");
        }
        if xdir == 1 {
            s.append("Right");
        } else if xdir == -1 {
            s.append("Left");
        }
        assert(s@ =~= direction_name(d));
        s
    }

    /// Log `s` in colour `c`; when the log then holds more than its capacity,
    /// the oldest message goes.
    pub fn add_string(&mut self, s: String, c: Rgb8)
        ensures
            final(self).wf() == old(self).wf(),
            final(self).log_capacity() == old(self).log_capacity(),
            final(self).log() == (if old(self).log().len() + 1 > old(self).log_capacity() {
                old(self).log().push((s@, c)).skip(1)
            } else {
                old(self).log().push((s@, c))
            }),
            old(self).log().len() <= old(self).log_capacity() ==> final(self).log().len() <= final(self).log_capacity(),
    {
        let ghost before = self.message_log@;
        let ghost sv = s@;
        self.message_log.push((s, c));
        assert(entry_views(self.message_log@) =~= entry_views(before).push((sv, c)));
        if self.message_log.len() > self.log_length {
            let ghost pushed = self.message_log@;
            self.message_log.remove(0);
            assert(entry_views(self.message_log@) =~= entry_views(pushed).skip(1));
        }
    }

    /// Log the message for a turn that ended with `event` at `player` (see
    /// `event_message`); when the log then holds its capacity or more, the
    /// oldest message goes.
    pub fn add_message(&mut self, table: &ObstacleTable, player: (i32, i32), event: PlayerEvent)
        requires
            table.wf(),
            !(event is GameOver) ==> table.has_cell(player),
        ensures
            final(self).wf() == old(self).wf(),
            final(self).log_capacity() == old(self).log_capacity(),
            ({
                let m = if event is GameOver {
                    event_message(event, Obstacle::Platform)
                } else {
                    event_message(event, table.at(player))
                };
                let pushed = old(self).log().push(m);
                final(self).log() == (if pushed.len() >= old(self).log_capacity() {
                    pushed.skip(1)
                } else {
                    pushed
                })
            }),
            old(self).log().len() <= old(self).log_capacity() ==> final(self).log().len() <= final(self).log_capacity(),
    {
        let mut message = String::new();
        let mut color: Rgb8 = (255, 255, 255);
        match event {
            PlayerEvent::Move | PlayerEvent::OnRail => match table.get_obstacle(player.0, player.1) {
                Obstacle::Platform => message.append("On Platform"),
                Obstacle::Pit => {
                    message.append("Restart");
                    color = (255, 0, 0);
                },
                Obstacle::Rail(xdir, ydir) => {
                    message.append("Grinding ");
                    message.append(MainViewer::direction_string((xdir, ydir)).as_str());
                    color = (0, 255, 255);
                },
                _ => {},
            },
            PlayerEvent::Wait => match table.get_obstacle(player.0, player.1) {
                Obstacle::Platform => message.append("Waiting"),
                Obstacle::Pit => {
                    message.append("Restart");
                    color = (255, 0, 0);
                },
                Obstacle::Rail(xdir, ydir) => {
                    message.append("Stalled ");
                    message.append(MainViewer::direction_string((xdir, ydir)).as_str());
                    color = (255, 0, 255);
                },
                _ => {},
            },
            PlayerEvent::FallOver => match table.get_obstacle(player.0, player.1) {
                Obstacle::Platform => {
                    message.append("Fell over");
                    color = (255, 0, 0);
                },
                Obstacle::Pit => {
                    message.append("Restart");
                },
                Obstacle::Rail(_, _) => {
                    message.append("Fell over");
                    color = (255, 0, 0);
                },
                _ => {},
            },
            PlayerEvent::OffRail => match table.get_obstacle(player.0, player.1) {
                Obstacle::Platform => message.append("On Platform"),
                Obstacle::Pit => {
                    message.append("Restart");
                },
                Obstacle::Rail(xdir, ydir) => {
                    message.append("Grinding ");
                    message.append(MainViewer::direction_string((xdir, ydir)).as_str());
                    color = (0, 255, 255);
                },
                _ => {},
            },
            PlayerEvent::GameOver(_) => {
                message.append("Restart");
                color = (255, 0, 0);
            },
        }
        let ghost m = (message@, color);
        let ghost before = self.message_log@;
        self.message_log.push((message, color));
        assert(entry_views(self.message_log@) =~= entry_views(before).push(m));
        if self.message_log.len() >= self.log_length {
            let ghost pushed = self.message_log@;
            self.message_log.remove(0);
            assert(entry_views(self.message_log@) =~= entry_views(pushed).skip(1));
        }
    }

    /// Empty the log.
    pub fn clear_log(&mut self)
        ensures
            final(self).wf() == old(self).wf(),
            final(self).log_capacity() == old(self).log_capacity(),
            final(self).log() == Seq::<(Seq<char>, Rgb8)>::empty(),
    {
        self.message_log.clear();
        assert(entry_views(self.message_log@) =~= Seq::<(Seq<char>, Rgb8)>::empty());
    }

    /// The part of a `table_w` by `table_h` map that a `width` by `height`
    /// screen shows around `middle`, as its top-left and bottom-right cells
    /// (see `window_axis`).
    pub fn table_window(middle: (i32, i32), width: u32, height: u32, table_w: u32, table_h: u32) -> (r: (
        (i32, i32),
        (i32, i32),
    ))
        requires
            0 <= middle.0 < table_w <= i32::MAX,
            0 <= middle.1 < table_h <= i32::MAX,
        ensures
            (r.0.0 as int, r.1.0 as int) == window_axis(middle.0 as int, width as nat, table_w as nat),
            (r.0.1 as int, r.1.1 as int) == window_axis(middle.1 as int, height as nat, table_h as nat),
    {
        let (tl_x, br_x) = axis_window(middle.0, width, table_w);
        let (tl_y, br_y) = axis_window(middle.1, height, table_h);
        ((tl_x, tl_y), (br_x, br_y))
    }

    /// The glyph a visible cell shows (see `cell_glyph_char`), as a code page
    /// 437 code.
    pub fn cell_glyph(
        &self,
        o: Obstacle,
        goal_here: bool,
        ai_here: Option<PlayerEvent>,
        player_here: Option<PlayerEvent>,
    ) -> (g: u16)
        requires
            self.wf(),
            obstacle_symbol(o) is Some,
        ensures
            g == cell_glyph_char(o, goal_here, ai_here, player_here) as u16,
    {
        let mut g = match self.symbol(o) {
            Some(g) => g,
            None => 0,
        };
        if goal_here {
            g = to_cp437('$');
        }
        match o {
            Obstacle::Pit => {},
            _ => {
                if let Some(e) = ai_here {
                    match e {
                        PlayerEvent::FallOver => {
                            g = to_cp437('!');
                        },
                        _ => {
                            g = to_cp437('@');
                        },
                    }
                }
                if let Some(e) = player_here {
                    match e {
                        PlayerEvent::FallOver => {
                            g = to_cp437('!');
                        },
                        _ => {
                            g = to_cp437('@');
                        },
                    }
                }
            },
        }
        g
    }

    /// The messages in the log, oldest first.
    pub fn messages(&self) -> (l: &Vec<(String, Rgb8)>)
        ensures
            entry_views(l@) == self.log(),
    {
        &self.message_log
    }
}

} // verus!
