use vstd::prelude::*;

verus! {

/// A colour as its red, green and blue bytes.
pub type Rgb8 = (u8, u8, u8);

/// The first position in `l` whose key is `k`, if any.
pub open spec fn key_index<K, V>(l: Seq<(K, V)>, k: K) -> Option<int> {
    if exists|i: int| 0 <= i < l.len() && l[i].0 == k {
        Some(choose|i: int| 0 <= i < l.len() && l[i].0 == k)
    } else {
        None
    }
}

/// No key appears twice in `l`.
pub open spec fn keys_unique<K, V>(l: Seq<(K, V)>) -> bool {
    forall|i: int, j: int| 0 <= i < l.len() && 0 <= j < l.len() && i != j ==> l[i].0 != l[j].0
}

/// The value under `k`, if any.
pub open spec fn assoc_get<K, V>(l: Seq<(K, V)>, k: K) -> Option<V> {
    match key_index(l, k) {
        Some(i) => Some(l[i].1),
        None => None,
    }
}

/// `l` with `v` under `k`: the entry for `k` is replaced, or a new one added at the end.
pub open spec fn assoc_insert<K, V>(l: Seq<(K, V)>, k: K, v: V) -> Seq<(K, V)> {
    match key_index(l, k) {
        Some(i) => l.update(i, (k, v)),
        None => l.push((k, v)),
    }
}

/// `l` without the entry for `k`.
pub open spec fn assoc_remove<K, V>(l: Seq<(K, V)>, k: K) -> Seq<(K, V)> {
    match key_index(l, k) {
        Some(i) => l.remove(i),
        None => l,
    }
}

/// The positions of goal entries.
pub open spec fn goal_positions(l: Seq<((i32, i32), (usize, Rgb8))>) -> Seq<(i32, i32)> {
    l.map_values(|e: ((i32, i32), (usize, Rgb8))| e.0)
}

/// The goals of the game: the position of each package with the index of the
/// skater to deliver it to and the colour shown, and for each skater index the
/// position of its package.
pub struct GoalTable {
    goals: Vec<((i32, i32), (usize, Rgb8))>,
    index_map: Vec<(usize, (i32, i32))>,
}

fn find_position(l: &Vec<((i32, i32), (usize, Rgb8))>, k: (i32, i32)) -> (r: Option<usize>)
    requires
        keys_unique(l@),
    ensures
        r.is_some() == key_index(l@, k).is_some(),
        r matches Some(i) ==> key_index(l@, k) == Some(i as int),
{
    let mut i: usize = 0;
    while i < l.len()
        invariant
            i <= l.len(),
            keys_unique(l@),
            forall|j: int| 0 <= j < i ==> l@[j].0 != k,
        decreases l.len() - i,
    {
        let key = l[i].0;
        if key.0 == k.0 && key.1 == k.1 {
            proof {
                let c = choose|j: int| 0 <= j < l@.len() && l@[j].0 == k;
                assert(c == i);
            }
            return Some(i);
        }
        i += 1;
    }
    None
}

fn find_index(l: &Vec<(usize, (i32, i32))>, k: usize) -> (r: Option<usize>)
    requires
        keys_unique(l@),
    ensures
        r.is_some() == key_index(l@, k).is_some(),
        r matches Some(i) ==> key_index(l@, k) == Some(i as int),
{
    let mut i: usize = 0;
    while i < l.len()
        invariant
            i <= l.len(),
            keys_unique(l@),
            forall|j: int| 0 <= j < i ==> l@[j].0 != k,
        decreases l.len() - i,
    {
        if l[i].0 == k {
            proof {
                let c = choose|j: int| 0 <= j < l@.len() && l@[j].0 == k;
                assert(c == i);
            }
            return Some(i);
        }
        i += 1;
    }
    None
}

/// Putting an entry in keeps every key at most once.
pub proof fn lemma_insert_keeps_unique<K, V>(l: Seq<(K, V)>, k: K, v: V)
    requires
        keys_unique(l),
    ensures
        keys_unique(assoc_insert(l, k, v)),
{
    let n = assoc_insert(l, k, v);
    match key_index(l, k) {
        Some(i) => {
            assert forall|a: int, b: int| 0 <= a < n.len() && 0 <= b < n.len() && a != b implies n[a].0
                != n[b].0 by {
                if a == i {
                    assert(l[i].0 == k);
                } else if b == i {
                    assert(l[i].0 == k);
                }
            }
        },
        None => {
            assert forall|a: int, b: int| 0 <= a < n.len() && 0 <= b < n.len() && a != b implies n[a].0
                != n[b].0 by {
                if a == l.len() {
                    assert(!(0 <= b < l.len() && l[b].0 == k));
                } else if b == l.len() {
                    assert(!(0 <= a < l.len() && l[a].0 == k));
                }
            }
        },
    }
}

/// Taking an entry out keeps every key at most once.
pub proof fn lemma_remove_keeps_unique<K, V>(l: Seq<(K, V)>, k: K)
    requires
        keys_unique(l),
    ensures
        keys_unique(assoc_remove(l, k)),
{
    let n = assoc_remove(l, k);
    match key_index(l, k) {
        Some(i) => {
            assert forall|a: int, b: int| 0 <= a < n.len() && 0 <= b < n.len() && a != b implies n[a].0
                != n[b].0 by {
                let a2 = if a < i {
                    a
                } else {
                    a + 1
                };
                let b2 = if b < i {
                    b
                } else {
                    b + 1
                };
                assert(n[a] == l[a2] && n[b] == l[b2]);
            }
        },
        None => {},
    }
}

impl GoalTable {
    /// The goal entries: position, then skater index and colour.
    pub closed spec fn goal_entries(&self) -> Seq<((i32, i32), (usize, Rgb8))> {
        self.goals@
    }

    /// The skater entries: skater index, then the position of its package.
    pub closed spec fn index_entries(&self) -> Seq<(usize, (i32, i32))> {
        self.index_map@
    }

    /// No position and no skater index has two entries.
    pub open spec fn wf(&self) -> bool {
        keys_unique(self.goal_entries()) && keys_unique(self.index_entries())
    }

    pub fn new() -> (t: Self)
        ensures
            t.wf(),
            t.goal_entries() == Seq::<((i32, i32), (usize, Rgb8))>::empty(),
            t.index_entries() == Seq::<(usize, (i32, i32))>::empty(),
    {
        GoalTable { goals: Vec::new(), index_map: Vec::new() }
    }

    /// Put a package at `goal` for skater `dest.0`, shown in colour `dest.1`.
    pub fn add_goal(&mut self, goal: (i32, i32), dest: (usize, Rgb8))
        requires
            old(self).wf(),
        ensures
            final(self).wf(),
            final(self).goal_entries() == assoc_insert(old(self).goal_entries(), goal, dest),
            final(self).index_entries() == assoc_insert(old(self).index_entries(), dest.0, goal),
    {
        proof {
            lemma_insert_keeps_unique(self.goals@, goal, dest);
            lemma_insert_keeps_unique(self.index_map@, dest.0, goal);
        }
        match find_position(&self.goals, goal) {
            Some(i) => {
                self.goals.set(i, (goal, dest));
            },
            None => {
                self.goals.push((goal, dest));
            },
        }
        match find_index(&self.index_map, dest.0) {
            Some(i) => {
                self.index_map.set(i, (dest.0, goal));
            },
            None => {
                self.index_map.push((dest.0, goal));
            },
        }
    }

    /// The positions of the packages, in the order of `goal_entries`.
    pub fn goals(&self) -> (g: Vec<(i32, i32)>)
        ensures
            g@ == goal_positions(self.goal_entries()),
    {
        let mut g: Vec<(i32, i32)> = Vec::new();
        let mut i: usize = 0;
        while i < self.goals.len()
            invariant
                i <= self.goals@.len(),
                g@ == goal_positions(self.goals@.take(i as int)),
            decreases self.goals@.len() - i,
        {
            g.push(self.goals[i].0);
            assert(goal_positions(self.goals@.take(i + 1)) =~= goal_positions(self.goals@.take(i as int)).push(self.goals@[i as int].0));
            i += 1;
        }
        assert(self.goals@.take(i as int) =~= self.goals@);
        g
    }

    /// The number of packages on the map.
    pub fn count(&self) -> (n: usize)
        ensures
            n == self.goal_entries().len(),
    {
        self.goals.len()
    }

    /// Whether a package lies at `p`.
    pub fn at_goal(&self, p: (i32, i32)) -> (b: bool)
        requires
            self.wf(),
        ensures
            b == assoc_get(self.goal_entries(), p).is_some(),
    {
        find_position(&self.goals, p).is_some()
    }

    /// The skater index and colour of the package at `p`, if any.
    pub fn get(&self, p: (i32, i32)) -> (r: Option<(usize, Rgb8)>)
        requires
            self.wf(),
        ensures
            r == assoc_get(self.goal_entries(), p),
    {
        match find_position(&self.goals, p) {
            Some(i) => Some(self.goals[i].1),
            None => None,
        }
    }

    /// Take away the package of skater `index`.  The result tells whether a
    /// package was found at the position recorded for that skater.
    pub fn remove_goal_index(&mut self, index: usize) -> (b: bool)
        requires
            old(self).wf(),
        ensures
            final(self).wf(),
            final(self).index_entries() == assoc_remove(old(self).index_entries(), index),
            match assoc_get(old(self).index_entries(), index) {
                None => !b && final(self).goal_entries() == old(self).goal_entries(),
                Some(pos) => b == assoc_get(old(self).goal_entries(), pos).is_some()
                    && final(self).goal_entries() == assoc_remove(old(self).goal_entries(), pos),
            },
    {
        proof {
            lemma_remove_keeps_unique(self.index_map@, index);
        }
        if let Some(i) = find_index(&self.index_map, index) {
            let entry = self.index_map.remove(i).1;
            proof {
                lemma_remove_keeps_unique(self.goals@, entry);
            }
            match find_position(&self.goals, entry) {
                None => return false,
                Some(j) => {
                    self.goals.remove(j);
                    return true;
                },
            }
        }
        false
    }

    /// Take away the package at `p`, and the record of the skater it was for.
    /// The result tells whether both were there.
    pub fn remove_goal_if_reached(&mut self, p: (i32, i32)) -> (b: bool)
        requires
            old(self).wf(),
        ensures
            final(self).wf(),
            final(self).goal_entries() == assoc_remove(old(self).goal_entries(), p),
            match assoc_get(old(self).goal_entries(), p) {
                None => !b && final(self).index_entries() == old(self).index_entries(),
                Some(entry) => b == assoc_get(old(self).index_entries(), entry.0).is_some()
                    && final(self).index_entries() == assoc_remove(old(self).index_entries(), entry.0),
            },
    {
        proof {
            lemma_remove_keeps_unique(self.goals@, p);
        }
        match find_position(&self.goals, p) {
            None => false,
            Some(i) => {
                let entry = self.goals.remove(i).1;
                proof {
                    lemma_remove_keeps_unique(self.index_map@, entry.0);
                }
                match find_index(&self.index_map, entry.0) {
                    None => false,
                    Some(j) => {
                        self.index_map.remove(j);
                        true
                    },
                }
            },
        }
    }
}

/// After a package is put at `p`, there is a package at `p`, with what was put.
pub proof fn lemma_added_goal_is_there<V>(l: Seq<((i32, i32), V)>, p: (i32, i32), v: V)
    requires
        keys_unique(l),
    ensures
        assoc_get(assoc_insert(l, p, v), p) == Some(v),
{
    lemma_insert_keeps_unique(l, p, v);
    let n = assoc_insert(l, p, v);
    let i: int = match key_index(l, p) {
        Some(i) => i,
        None => l.len() as int,
    };
    assert(n[i].0 == p);
    let c = choose|j: int| 0 <= j < n.len() && n[j].0 == p;
    assert(c == i);
}

/// After the package at `p` is taken away there is none at `p`.
pub proof fn lemma_removed_goal_is_gone<V>(l: Seq<((i32, i32), V)>, p: (i32, i32))
    requires
        keys_unique(l),
    ensures
        assoc_get(assoc_remove(l, p), p).is_none(),
{
    let n = assoc_remove(l, p);
    match key_index(l, p) {
        Some(i) => {
            if exists|j: int| 0 <= j < n.len() && n[j].0 == p {
                let j = choose|j: int| 0 <= j < n.len() && n[j].0 == p;
                let j2 = if j < i {
                    j
                } else {
                    j + 1
                };
                assert(n[j] == l[j2]);
                assert(l[i].0 == p);
            }
        },
        None => {},
    }
}

} // verus!
