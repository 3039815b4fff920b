use vstd::prelude::*;
use crate::obstacle::Obstacle;
use crate::obstacle_table::ObstacleTable;

verus! {

/// The keys of look mode and the direction each looks in: `h`/`a` left,
/// `l`/`d` right, `k`/`w` up, `j`/`s` down, `u`/`e` up right, `y`/`q` up left,
/// `b`/`z` down left, `n`/`c` down right, and `.` or tab at the skater's own cell.
pub open spec fn look_directions() -> Map<char, (i32, i32)> {
    map![
        'h' => (-1i32, 0i32), 'a' => (-1i32, 0i32),
        'l' => (1i32, 0i32), 'd' => (1i32, 0i32),
        'k' => (0i32, -1i32), 'w' => (0i32, -1i32),
        'j' => (0i32, 1i32), 's' => (0i32, 1i32),
        'u' => (1i32, -1i32), 'e' => (1i32, -1i32),
        'y' => (-1i32, -1i32), 'q' => (-1i32, -1i32),
        'b' => (-1i32, 1i32), 'z' => (-1i32, 1i32),
        'n' => (1i32, 1i32), 'c' => (1i32, 1i32),
        '.' => (0i32, 0i32), '\t' => (0i32, 0i32)
    ]
}

/// The name of a rail running in direction `(x, y)`; empty for a direction that is no unit step.
pub open spec fn rail_name(x: i32, y: i32) -> Seq<char> {
    if x == 0 && y == -1 {
        "Up Rail"@
    } else if x == 0 && y == 1 {
        "Down Rail"@
    } else if x == 1 && y == -1 {
        "UpRight Rail"@
    } else if x == 1 && y == 0 {
        "Right Rail"@
    } else if x == 1 && y == 1 {
        "DownRight Rail"@
    } else if x == -1 && y == -1 {
        "UpLeft Rail"@
    } else if x == -1 && y == 0 {
        "Left Rail"@
    } else if x == -1 && y == 1 {
        "DownLeft Rail"@
    } else {
        Seq::empty()
    }
}

/// How look mode describes an obstacle.
pub open spec fn obstacle_description(o: Obstacle) -> Seq<char> {
    match o {
        Obstacle::Wall => "Wall "@,
        Obstacle::Platform => "Platform "@,
        Obstacle::Pit => "Bottomless Pit "@,
        Obstacle::Rail(x, y) => rail_name(x, y),
    }
}

/// The cell `d` away from `p`.
pub open spec fn step_from(p: (i32, i32), d: (i32, i32)) -> (int, int) {
    (p.0 + d.0, p.1 + d.1)
}

/// Looking around: each look key names a direction from the skater.
pub struct LookMode {
    key_map: Vec<(char, (i32, i32))>,
}

impl LookMode {
    /// The keys and their directions.
    pub closed spec fn directions(&self) -> Map<char, (i32, i32)> {
        Map::new(
            |k: char| exists|i: int| 0 <= i < self.key_map@.len() && self.key_map@[i].0 == k,
            |k: char| self.key_map@[choose|i: int| 0 <= i < self.key_map@.len() && self.key_map@[i].0 == k].1,
        )
    }

    /// No key is listed twice.
    pub closed spec fn wf(&self) -> bool {
        forall|i: int, j: int|
            0 <= i < j < self.key_map@.len() ==> self.key_map@[i].0 != self.key_map@[j].0
    }

    /// Look mode with the keys of `look_directions`.
    pub fn new() -> (lm: Self)
        ensures
            lm.wf(),
            lm.directions() == look_directions(),
    {
        let key_map: Vec<(char, (i32, i32))> = vec![
            ('h', (-1, 0)), ('a', (-1, 0)),
            ('l', (1, 0)), ('d', (1, 0)),
            ('k', (0, -1)), ('w', (0, -1)),
            ('j', (0, 1)), ('s', (0, 1)),
            ('u', (1, -1)), ('e', (1, -1)),
            ('y', (-1, -1)), ('q', (-1, -1)),
            ('b', (-1, 1)), ('z', (-1, 1)),
            ('n', (1, 1)), ('c', (1, 1)),
            ('.', (0, 0)), ('\t', (0, 0)),
        ];
        let lm = LookMode { key_map };
        proof {
            let m = lm.directions();
            let l = lm.key_map@;
            assert(l.len() == 18);
            assert forall|k: char| #[trigger] m.dom().contains(k) <==> look_directions().dom().contains(k) by {
                if look_directions().dom().contains(k) {
                    assert(exists|i: int| 0 <= i < l.len() && l[i].0 == k) by {
                        if k == 'h' { assert(l[0].0 == k); }
                        else if k == 'a' { assert(l[1].0 == k); }
                        else if k == 'l' { assert(l[2].0 == k); }
                        else if k == 'd' { assert(l[3].0 == k); }
                        else if k == 'k' { assert(l[4].0 == k); }
                        else if k == 'w' { assert(l[5].0 == k); }
                        else if k == 'j' { assert(l[6].0 == k); }
                        else if k == 's' { assert(l[7].0 == k); }
                        else if k == 'u' { assert(l[8].0 == k); }
                        else if k == 'e' { assert(l[9].0 == k); }
                        else if k == 'y' { assert(l[10].0 == k); }
                        else if k == 'q' { assert(l[11].0 == k); }
                        else if k == 'b' { assert(l[12].0 == k); }
                        else if k == 'z' { assert(l[13].0 == k); }
                        else if k == 'n' { assert(l[14].0 == k); }
                        else if k == 'c' { assert(l[15].0 == k); }
                        else if k == '.' { assert(l[16].0 == k); }
                        else { assert(l[17].0 == k); }
                    }
                }
            }
            assert forall|k: char| #[trigger] m.dom().contains(k) implies m[k] == look_directions()[k] by {
                let i = choose|i: int| 0 <= i < l.len() && l[i].0 == k;
                assert(0 <= i < 18);
            }
            assert(m =~= look_directions());
        }
        lm
    }

    /// The look keys, each once.
    pub fn get_keys(&self) -> (keys: Vec<char>)
        requires
            self.wf(),
        ensures
            keys@.to_set() == self.directions().dom(),
            keys@.no_duplicates(),
    {
        let mut keys: Vec<char> = Vec::new();
        let mut i: usize = 0;
        while i < self.key_map.len()
            invariant
                i <= self.key_map@.len(),
                self.wf(),
                keys@.len() == i,
                forall|j: int| 0 <= j < i ==> keys@[j] == self.key_map@[j].0,
            decreases self.key_map@.len() - i,
        {
            keys.push(self.key_map[i].0);
            i += 1;
        }
        proof {
            assert forall|k: char| keys@.to_set().contains(k) <==> self.directions().dom().contains(k) by {
                if keys@.to_set().contains(k) {
                    let j = choose|j: int| 0 <= j < keys@.len() && keys@[j] == k;
                    assert(self.key_map@[j].0 == k);
                }
                if self.directions().dom().contains(k) {
                    let j = choose|j: int| 0 <= j < self.key_map@.len() && self.key_map@[j].0 == k;
                    assert(keys@[j] == k);
                }
            }
            assert(keys@.to_set() =~= self.directions().dom());
        }
        keys
    }

    /// The direction `key` looks in, if it is a look key.
    pub fn get_direction(&self, key: char) -> (d: Option<(i32, i32)>)
        requires
            self.wf(),
        ensures
            d == (if self.directions().dom().contains(key) {
                Some(self.directions()[key])
            } else {
                None::<(i32, i32)>
            }),
    {
        let mut i: usize = 0;
        while i < self.key_map.len()
            invariant
                i <= self.key_map@.len(),
                self.wf(),
                forall|j: int| 0 <= j < i ==> self.key_map@[j].0 != key,
            decreases self.key_map@.len() - i,
        {
            if self.key_map[i].0 == key {
                proof {
                    let c = choose|c: int| 0 <= c < self.key_map@.len() && self.key_map@[c].0 == key;
                    assert(c == i as int);
                }
                return Some(self.key_map[i].1);
            }
            i += 1;
        }
        None
    }

    /// Describe what lies in the direction of `key` from the skater at
    /// `player`: the obstacle's name (see `obstacle_description`), or nothing
    /// when `key` is not a look key.
    pub fn describe_direction(&self, table: &ObstacleTable, player: (i32, i32), key: char) -> (s: String)
        requires
            self.wf(),
            table.wf(),
            self.directions().dom().contains(key) ==> {
                let q = step_from(player, self.directions()[key]);
                0 <= q.0 < table.width_of() && 0 <= q.1 < table.height_of()
            },
        ensures
            s@ == (if self.directions().dom().contains(key) {
                let q = step_from(player, self.directions()[key]);
                obstacle_description(table.at((q.0 as i32, q.1 as i32)))
            } else {
                Seq::<char>::empty()
            }),
    {
        match self.get_direction(key) {
            None => String::new(),
            Some(direction) => {
                let x = player.0 + direction.0;
                let y = player.1 + direction.1;
                match table.get_obstacle(x, y) {
                    Obstacle::Wall => String::from_str("Wall "),
                    Obstacle::Platform => String::from_str("Platform "),
                    Obstacle::Pit => String::from_str("Bottomless Pit "),
                    Obstacle::Rail(x_dir, y_dir) => {
                        if x_dir == 0 && y_dir == -1 {
                            String::from_str("Up Rail")
                        } else if x_dir == 0 && y_dir == 1 {
                            String::from_str("Down Rail")
                        } else if x_dir == 1 && y_dir == -1 {
                            String::from_str("UpRight Rail")
                        } else if x_dir == 1 && y_dir == 0 {
                            String::from_str("Right Rail")
                        } else if x_dir == 1 && y_dir == 1 {
                            String::from_str("DownRight Rail")
                        } else if x_dir == -1 && y_dir == -1 {
                            String::from_str("UpLeft Rail")
                        } else if x_dir == -1 && y_dir == 0 {
                            String::from_str("Left Rail")
                        } else if x_dir == -1 && y_dir == 1 {
                            String::from_str("DownLeft Rail")
                        } else {
                            String::new()
                        }
                    },
                }
            },
        }
    }
}


/// The two look keys `a` and `b` look the same way.
pub open spec fn same_look(a: char, b: char) -> bool {
    &&& look_directions().dom().contains(a)
    &&& look_directions().dom().contains(b)
    &&& look_directions()[a] == look_directions()[b]
}

/// The look keys `a` and `b` look in opposite directions.
pub open spec fn opposite_looks(a: char, b: char) -> bool {
    &&& look_directions().dom().contains(a)
    &&& look_directions().dom().contains(b)
    &&& look_directions()[a].0 == -look_directions()[b].0
    &&& look_directions()[a].1 == -look_directions()[b].1
}

/// The look keys follow the move keys: each key of the left hand looks where
/// its key of the right hand does (`a`/`h`, `d`/`l`, `w`/`k`, `s`/`j`,
/// `e`/`u`, `q`/`y`, `z`/`b`, `c`/`n`, `.`/tab); opposite move keys look in
/// opposite directions; `w` looks at the rail the map calls "Up", `d` "Right",
/// `e` "UpRight" and `q` "UpLeft" (and so `s`, `a`, `z` and `c` down, left,
/// down left and down right); `.` looks at the skater's own cell.
pub proof fn lemma_look_keys_follow_move_keys()
    ensures
        same_look('a', 'h'),
        same_look('d', 'l'),
        same_look('w', 'k'),
        same_look('s', 'j'),
        same_look('e', 'u'),
        same_look('q', 'y'),
        same_look('z', 'b'),
        same_look('c', 'n'),
        same_look('.', '\t'),
        opposite_looks('w', 's'),
        opposite_looks('a', 'd'),
        opposite_looks('q', 'c'),
        opposite_looks('e', 'z'),
        rail_name(look_directions()['w'].0, look_directions()['w'].1) == "Up Rail"@,
        rail_name(look_directions()['d'].0, look_directions()['d'].1) == "Right Rail"@,
        rail_name(look_directions()['e'].0, look_directions()['e'].1) == "UpRight Rail"@,
        rail_name(look_directions()['q'].0, look_directions()['q'].1) == "UpLeft Rail"@,
        look_directions()['.'] == (0i32, 0i32),
{
}
} // verus!
