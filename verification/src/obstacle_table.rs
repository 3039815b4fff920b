use vstd::prelude::*;
use petgraph::unionfind::UnionFind;
use crate::obstacle::Obstacle;
use crate::traversability::Traversability;
use crate::union_find::{
    merge_classes, singleton_classes, uf_classes, uf_len, union_find_new, union_find_union,
};
use crate::vec_ops::{neighbor_list, neighbors};

verus! {

/// The map: a `width` by `height` grid of obstacles, with the list of its
/// platform cells, a union-find over cell numbers (`y * width + x`) that
/// `compute_unions` fills, and the cells where skaters stand.
pub struct ObstacleTable {
    width: u32,
    height: u32,
    table: Vec<Vec<Obstacle>>,
    platforms: Vec<(i32, i32)>,
    ufind: UnionFind<u32>,
    blocked: Vec<(i32, i32)>,
}

/// Every element of the union-find `uf` is in the set it belongs to.
pub open spec fn uf_reflexive(uf: UnionFind<u32>) -> bool {
    forall|i: u32| i < uf_len(uf) ==> #[trigger] uf_classes(uf).contains((i, i))
}

/// `p` is a cell of a `w` by `h` grid.
pub open spec fn in_grid(p: (i32, i32), w: nat, h: nat) -> bool {
    0 <= p.0 < w && 0 <= p.1 < h
}

/// Every cell of the `w` by `h` grid `g` is a platform.
pub open spec fn all_platform(g: Seq<Seq<Obstacle>>, w: nat, h: nat) -> bool {
    forall|x: int, y: int| 0 <= x < w && 0 <= y < h ==> #[trigger] g[x][y] == Obstacle::Platform
}

/// `a - b` is an `i32` whose absolute value is an `i32` too.
pub open spec fn diff_fits(a: i32, b: i32) -> bool {
    i32::MIN < a - b <= i32::MAX
}

/// `p` comes before `q` when cells are listed column by column.
pub open spec fn column_major_lt(p: (i32, i32), q: (i32, i32)) -> bool {
    p.0 < q.0 || (p.0 == q.0 && p.1 < q.1)
}

/// `l` lists the platform cells of the `w` by `h` grid `g`, each once, column by
/// column.
pub open spec fn lists_platforms(l: Seq<(i32, i32)>, g: Seq<Seq<Obstacle>>, w: nat, h: nat) -> bool {
    &&& forall|i: int, j: int| 0 <= i < j < l.len() ==> column_major_lt(#[trigger] l[i], #[trigger] l[j])
    &&& forall|p: (i32, i32)|
        #![trigger l.contains(p)]
        l.contains(p) <==> in_grid(p, w, h) && g[p.0 as int][p.1 as int] == Obstacle::Platform
}

/// The cell number of `p` in a grid `w` wide.
pub open spec fn cell_number(p: (i32, i32), w: nat) -> u32 {
    (p.1 * w + p.0) as u32
}

/// The unions `compute_unions` makes for the cell `c` from its first `k`
/// neighbours `nbrs`: one with each neighbour that is a platform.
pub open spec fn neighbor_pairs(
    g: Seq<Seq<Obstacle>>,
    w: nat,
    c: (i32, i32),
    nbrs: Seq<(i32, i32)>,
    k: nat,
) -> Seq<(u32, u32)>
    decreases k,
{
    if k == 0 {
        Seq::empty()
    } else {
        let rest = neighbor_pairs(g, w, c, nbrs, (k - 1) as nat);
        let n = nbrs[k - 1];
        if g[n.0 as int][n.1 as int] == Obstacle::Platform {
            rest.push((cell_number(c, w), cell_number(n, w)))
        } else {
            rest
        }
    }
}

/// The unions `compute_unions` makes for the cell `c`: none unless `c` is a
/// platform, else one with each neighbouring platform, in `neighbors` order.
pub open spec fn cell_pairs(g: Seq<Seq<Obstacle>>, w: nat, h: nat, c: (i32, i32)) -> Seq<(u32, u32)> {
    if g[c.0 as int][c.1 as int] == Obstacle::Platform {
        let nb = neighbor_list(c.0, c.1, 0, 0, (w - 1) as i32, (h - 1) as i32);
        neighbor_pairs(g, w, c, nb, nb.len())
    } else {
        Seq::empty()
    }
}

/// The unions for the first `k` cells of column `x`.
pub open spec fn column_pairs(g: Seq<Seq<Obstacle>>, w: nat, h: nat, x: int, k: nat) -> Seq<
    (u32, u32),
>
    decreases k,
{
    if k == 0 {
        Seq::empty()
    } else {
        column_pairs(g, w, h, x, (k - 1) as nat) + cell_pairs(g, w, h, (x as i32, (k - 1) as i32))
    }
}

/// The unions for the first `k` columns, in the order `compute_unions` makes them.
pub open spec fn union_pairs(g: Seq<Seq<Obstacle>>, w: nat, h: nat, k: nat) -> Seq<(u32, u32)>
    decreases k,
{
    if k == 0 {
        Seq::empty()
    } else {
        union_pairs(g, w, h, (k - 1) as nat) + column_pairs(g, w, h, k - 1, h)
    }
}

/// The sets after the unions `ps`, in order, starting from `r`.
pub open spec fn apply_merges(r: Set<(u32, u32)>, ps: Seq<(u32, u32)>) -> Set<(u32, u32)>
    decreases ps.len(),
{
    if ps.len() == 0 {
        r
    } else {
        merge_classes(apply_merges(r, ps.drop_last()), ps.last().0, ps.last().1)
    }
}

/// The exit from `(x, y)`, numbered `idx` in a grid `w` wide, to the cell
/// `(x + dx, y + dy)`, when that cell is a platform of the map.
pub open spec fn exit_to(t: &ObstacleTable, x: int, y: int, idx: int, w: int, dx: int, dy: int) -> Seq<(usize, bool)> {
    let q = ((x + dx) as i32, (y + dy) as i32);
    if 0 <= x + dx < t.width_of() && 0 <= y + dy < t.height_of() && t.at(q) == Obstacle::Platform {
        seq![((idx + dx + dy * w) as usize, dx != 0 && dy != 0)]
    } else {
        Seq::empty()
    }
}

/// The exits from `(x, y)` in the order `get_available_exits` lists them.
pub open spec fn exit_list(t: &ObstacleTable, x: int, y: int, idx: int, w: int) -> Seq<(usize, bool)> {
    exit_to(t, x, y, idx, w, -1, 0) + exit_to(t, x, y, idx, w, 1, 0) + exit_to(t, x, y, idx, w, 0, -1) + exit_to(
        t,
        x,
        y,
        idx,
        w,
        0,
        1,
    ) + exit_to(t, x, y, idx, w, -1, -1) + exit_to(t, x, y, idx, w, 1, -1) + exit_to(t, x, y, idx, w, -1, 1)
        + exit_to(t, x, y, idx, w, 1, 1)
}

proof fn lemma_exit_index(x: int, y: int, w: int, h: int, dx: int, dy: int, idx: int)
    requires
        0 <= x + dx < w,
        0 <= y + dy < h,
        0 <= y < h,
        idx == y * w + x,
        -1 <= dx <= 1,
        -1 <= dy <= 1,
    ensures
        0 <= idx + dx + dy * w < w * h,
        0 <= idx + dx < w * h,
        idx + dx + dy * w == (y + dy) * w + (x + dx),
        dy == 1 ==> idx + dx + w == idx + dx + dy * w,
        dy == -1 ==> idx + dx - w == idx + dx + dy * w,
        dy == 0 ==> idx + dx == idx + dx + dy * w,
{
    assert(0 <= y * w + (x + dx) < w * h) by (nonlinear_arith)
        requires
            0 <= x + dx < w,
            0 <= y < h,
    ;
    assert(dy == -1 ==> dy * w == -w) by (nonlinear_arith);
    assert(dy == 1 ==> dy * w == w) by (nonlinear_arith);
    assert(dy == 0 ==> dy * w == 0) by (nonlinear_arith);
    assert(idx + dx + dy * w == (y + dy) * w + (x + dx)) by (nonlinear_arith)
        requires
            idx == y * w + x,
    ;
    assert(0 <= (y + dy) * w + (x + dx) < w * h) by (nonlinear_arith)
        requires
            0 <= x + dx < w,
            0 <= y + dy < h,
    ;
}

proof fn lemma_index_cell(idx: int, w: nat, h: nat)
    requires
        0 <= idx < w * h,
        w <= i32::MAX,
        h <= i32::MAX,
    ensures
        w > 0,
        0 <= idx % (w as int) < w,
        0 <= idx / (w as int) < h,
{
    assert(w > 0) by (nonlinear_arith)
        requires
            0 <= idx < w * h,
    ;
    assert(0 <= idx % (w as int) < w) by (nonlinear_arith)
        requires
            w > 0,
    ;
    assert(0 <= idx / (w as int) < h) by (nonlinear_arith)
        requires
            w > 0,
            0 <= idx < w * h,
    ;
}

/// The absolute value of `v`.
pub fn abs_i32(v: i32) -> (r: i32)
    requires
        v > i32::MIN,
    ensures
        r == (if v < 0 {
            -v
        } else {
            v as int
        }),
{
    if v < 0 {
        -v
    } else {
        v
    }
}

impl View for ObstacleTable {
    type V = Seq<Seq<Obstacle>>;

    /// The grid, as columns: `self@[x][y]` is the obstacle at `(x, y)`.
    closed spec fn view(&self) -> Seq<Seq<Obstacle>> {
        self.table@.map_values(|c: Vec<Obstacle>| c@)
    }
}

impl ObstacleTable {
    pub closed spec fn width_of(&self) -> nat {
        self.width as nat
    }

    pub closed spec fn height_of(&self) -> nat {
        self.height as nat
    }

    /// The platform cells as last listed by `update_platforms`.
    pub closed spec fn platform_list(&self) -> Seq<(i32, i32)> {
        self.platforms@
    }

    /// The union-find over cell numbers.
    pub closed spec fn union_find(&self) -> UnionFind<u32> {
        self.ufind
    }

    /// The cells where skaters stand.
    pub closed spec fn blocked_list(&self) -> Seq<(i32, i32)> {
        self.blocked@
    }

    /// `p` is a cell of the map.
    pub open spec fn has_cell(&self, p: (i32, i32)) -> bool {
        in_grid(p, self.width_of(), self.height_of())
    }

    /// The obstacle at `p`.
    pub open spec fn at(&self, p: (i32, i32)) -> Obstacle {
        self@[p.0 as int][p.1 as int]
    }

    /// The grid has `width_of` columns of `height_of` cells, both numbers are
    /// valid `i32` coordinates, and every element of the union-find is in the
    /// set it belongs to.
    pub open spec fn wf(&self) -> bool {
        &&& self@.len() == self.width_of()
        &&& forall|x: int| 0 <= x < self.width_of() ==> (#[trigger] self@[x]).len() == self.height_of()
        &&& self.width_of() <= i32::MAX
        &&& self.height_of() <= i32::MAX
        &&& uf_reflexive(self.union_find())
    }

    /// Only the grid changed.
    pub open spec fn same_but_grid(&self, other: &Self) -> bool {
        &&& self.width_of() == other.width_of()
        &&& self.height_of() == other.height_of()
        &&& self.platform_list() == other.platform_list()
        &&& self.union_find() == other.union_find()
        &&& self.blocked_list() == other.blocked_list()
    }

    /// Only the cells where skaters stand changed.
    pub open spec fn same_but_blocked(&self, other: &Self) -> bool {
        &&& self@ == other@
        &&& self.width_of() == other.width_of()
        &&& self.height_of() == other.height_of()
        &&& self.platform_list() == other.platform_list()
        &&& self.union_find() == other.union_find()
    }

    proof fn lemma_view_column(&self, x: int)
        requires
            0 <= x < self.table@.len(),
        ensures
            self@[x] == self.table@[x]@,
            self@.len() == self.table@.len(),
    {
    }

    pub fn new(width: u32, height: u32) -> (t: Self)
        requires
            width <= i32::MAX,
            height <= i32::MAX,
            width * height <= usize::MAX,
        ensures
            t.wf(),
            t.width_of() == width,
            t.height_of() == height,
            all_platform(t@, width as nat, height as nat),
            t.platform_list() == Seq::<(i32, i32)>::empty(),
            t.blocked_list() == Seq::<(i32, i32)>::empty(),
            uf_len(t.union_find()) == width * height,
            uf_classes(t.union_find()) == singleton_classes((width * height) as nat),
    {
        let mut ct = ObstacleTable {
            width,
            height,
            table: Vec::new(),
            platforms: Vec::new(),
            ufind: union_find_new(width as usize * height as usize),
            blocked: Vec::new(),
        };
        ct.fill_platforms();
        ct.regen_table();
        ct
    }

    /// Build `width` columns of `height` platforms.
    fn fill_platforms(&mut self)
        requires
            old(self).width <= i32::MAX,
            old(self).height <= i32::MAX,
            uf_reflexive(old(self).ufind),
        ensures
            final(self).wf(),
            all_platform(final(self)@, final(self).width_of(), final(self).height_of()),
            final(self).same_but_grid(old(self)),
    {
        self.table = Vec::new();
        let w = self.width;
        let h = self.height;
        for x in 0..w
            invariant
                w == self.width,
                h == self.height,
                self.table@.len() == x,
                self.width == old(self).width,
                self.height == old(self).height,
                self.width <= i32::MAX,
                self.height <= i32::MAX,
                self.platforms == old(self).platforms,
                self.ufind == old(self).ufind,
                self.blocked == old(self).blocked,
                forall|i: int| 0 <= i < x ==> (#[trigger] self.table@[i])@.len() == self.height,
                forall|i: int, j: int|
                    0 <= i < x && 0 <= j < self.height ==> #[trigger] self.table@[i]@[j]
                        == Obstacle::Platform,
        {
            let mut column: Vec<Obstacle> = Vec::new();
            for _y in 0..h
                invariant
                    forall|j: int| 0 <= j < column@.len() ==> #[trigger] column@[j] == Obstacle::Platform,
                    column@.len() == _y,
            {
                column.push(Obstacle::Platform);
            }
            self.table.push(column);
        }
        proof {
            assert forall|x: int| 0 <= x < self.width_of() implies (#[trigger] self@[x]).len()
                == self.height_of() by {
                self.lemma_view_column(x);
            }
            assert forall|x: int, y: int|
                0 <= x < self.width_of() && 0 <= y < self.height_of() implies #[trigger] self@[x][y]
                == Obstacle::Platform by {
                self.lemma_view_column(x);
                assert(self.table@[x]@[y] == Obstacle::Platform);
            }
        }
    }

    /// The cell number of `(x, y)`: `y * width + x`.
    pub fn xy_flat(&self, x: i32, y: i32) -> (n: u32)
        requires
            0 <= x,
            0 <= y,
            y * self.width_of() + x <= u32::MAX,
        ensures
            n == y * self.width_of() + x,
    {
        assert(0 <= y * self.width <= y * self.width + x) by (nonlinear_arith)
            requires
                0 <= y,
                0 <= x,
        ;
        y as u32 * self.width + x as u32
    }

    pub fn width(&self) -> (w: u32)
        ensures
            w == self.width_of(),
    {
        self.width
    }

    pub fn height(&self) -> (h: u32)
        ensures
            h == self.height_of(),
    {
        self.height
    }

    /// The obstacle at `(x, y)`.
    pub fn get_obstacle(&self, x: i32, y: i32) -> (o: Obstacle)
        requires
            self.wf(),
            self.has_cell((x, y)),
        ensures
            o == self.at((x, y)),
    {
        proof {
            self.lemma_view_column(x as int);
        }
        self.table[x as usize][y as usize]
    }

    /// Whether a skater stands at `p`.
    pub fn is_blocked(&self, p: (i32, i32)) -> (b: bool)
        ensures
            b == self.blocked_list().contains(p),
    {
        let mut i: usize = 0;
        while i < self.blocked.len()
            invariant
                i <= self.blocked.len(),
                forall|j: int| 0 <= j < i ==> self.blocked@[j] != p,
            decreases self.blocked.len() - i,
        {
            let q = self.blocked[i];
            if q.0 == p.0 && q.1 == p.1 {
                return true;
            }
            i += 1;
        }
        false
    }

    /// Whether `(x, y)` is a cell of the map that is a platform.
    pub fn is_exit_valid(&self, x: i32, y: i32) -> (b: bool)
        requires
            self.wf(),
        ensures
            b == (self.has_cell((x, y)) && self.at((x, y)) == Obstacle::Platform),
    {
        if x < 0 || x > self.width as i32 - 1 || y < 0 || y > self.height as i32 - 1 {
            return false;
        }
        self.get_obstacle(x, y) == Obstacle::Platform
    }

    /// A skater at `from` can step to `to`: `to` is a cell of the map that
    /// touches or is `from`, is not a wall, and nobody else stands there.
    pub fn can_traverse(&self, from: (i32, i32), to: (i32, i32)) -> (b: bool)
        requires
            self.wf(),
            (self.blocked_list().contains(to) && from != to) || self.has_cell(to),
            diff_fits(to.0, from.0),
            diff_fits(to.1, from.1),
        ensures
            b == (!(self.blocked_list().contains(to) && from != to) && self.has_cell(to) && self.at(to)
                != Obstacle::Wall && -1 <= to.0 - from.0 <= 1 && -1 <= to.1 - from.1 <= 1),
    {
        let (from_x, from_y) = from;
        let (to_x, to_y) = to;
        let x_diff = to_x - from_x;
        let y_diff = to_y - from_y;

        if (self.is_blocked((to_x, to_y)) && !(from_x == to_x && from_y == to_y))
            || self.get_obstacle(to_x, to_y) == Obstacle::Wall {
            return false;
        }
        if to_x >= 0 && to_x < self.width as i32 && to_y >= 0 && to_y < self.height as i32 {
            return abs_i32(x_diff) <= 1 && abs_i32(y_diff) <= 1;
        }
        false
    }

    /// `Flat` when `to` is a cell of the map that touches or is `from`, `No`
    /// otherwise.
    pub fn traversability(&self, from: (i32, i32), to: (i32, i32)) -> (t: Traversability)
        requires
            self.wf(),
            i32::MIN <= to.0 - from.0 <= i32::MAX,
            i32::MIN <= to.1 - from.1 <= i32::MAX,
        ensures
            t == (if self.has_cell(to) && -1 <= to.0 - from.0 <= 1 && -1 <= to.1 - from.1 <= 1 {
                Traversability::Flat
            } else {
                Traversability::No
            }),
    {
        let (from_x, from_y) = from;
        let (to_x, to_y) = to;
        let x_diff = to_x - from_x;
        let y_diff = to_y - from_y;

        if to_x >= 0 && to_x < self.width as i32 && to_y >= 0 && to_y < self.height as i32
            && abs_i32(x_diff) <= 1 && abs_i32(y_diff) <= 1 {
            return Traversability::Flat;
        }
        return Traversability::No;
    }

    /// List the platform cells, column by column.
    pub fn update_platforms(&mut self)
        requires
            old(self).wf(),
        ensures
            final(self).wf(),
            final(self)@ == old(self)@,
            final(self).width_of() == old(self).width_of(),
            final(self).height_of() == old(self).height_of(),
            final(self).union_find() == old(self).union_find(),
            final(self).blocked_list() == old(self).blocked_list(),
            lists_platforms(final(self).platform_list(), final(self)@, final(self).width_of(), final(self).height_of()),
    {
        self.platforms.clear();
        let w = self.width;
        let h = self.height;
        let ghost g = self@;
        for x in 0..w
            invariant
                self.wf(),
                self@ == g,
                w == self.width_of(),
                h == self.height_of(),
                self.union_find() == old(self).union_find(),
                self.blocked_list() == old(self).blocked_list(),
                forall|i: int, j: int|
                    0 <= i < j < self.platforms@.len() ==> column_major_lt(
                        #[trigger] self.platforms@[i],
                        #[trigger] self.platforms@[j],
                    ),
                forall|i: int|
                    0 <= i < self.platforms@.len() ==> in_grid(#[trigger] self.platforms@[i], w as nat, h as nat)
                        && g[self.platforms@[i].0 as int][self.platforms@[i].1 as int] == Obstacle::Platform
                        && self.platforms@[i].0 < x,
                forall|p: (i32, i32)|
                    in_grid(p, w as nat, h as nat) && g[p.0 as int][p.1 as int] == Obstacle::Platform && p.0
                        < x ==> #[trigger] self.platforms@.contains(p),
        {
            for y in 0..h
                invariant
                    self.wf(),
                    self@ == g,
                    w == self.width_of(),
                    h == self.height_of(),
                    x < w,
                    self.union_find() == old(self).union_find(),
                    self.blocked_list() == old(self).blocked_list(),
                    forall|i: int, j: int|
                        0 <= i < j < self.platforms@.len() ==> column_major_lt(
                            #[trigger] self.platforms@[i],
                            #[trigger] self.platforms@[j],
                        ),
                    forall|i: int|
                        0 <= i < self.platforms@.len() ==> in_grid(
                            #[trigger] self.platforms@[i],
                            w as nat,
                            h as nat,
                        ) && g[self.platforms@[i].0 as int][self.platforms@[i].1 as int]
                            == Obstacle::Platform && column_major_lt(self.platforms@[i], (x as i32, y as i32)),
                    forall|p: (i32, i32)|
                        in_grid(p, w as nat, h as nat) && g[p.0 as int][p.1 as int] == Obstacle::Platform
                            && column_major_lt(p, (x as i32, y as i32)) ==> #[trigger] self.platforms@.contains(p),
            {
                if self.get_obstacle(x as i32, y as i32) == Obstacle::Platform {
                    let ghost before = self.platforms@;
                    self.platforms.push((x as i32, y as i32));
                    proof {
                        assert forall|p: (i32, i32)|
                            in_grid(p, w as nat, h as nat) && g[p.0 as int][p.1 as int] == Obstacle::Platform
                                && column_major_lt(p, (x as i32, (y + 1) as i32)) implies #[trigger] self.platforms@.contains(p) by {
                            if p == (x as i32, y as i32) {
                                assert(self.platforms@[before.len() as int] == p);
                            } else {
                                assert(before.contains(p));
                                let k = choose|k: int| 0 <= k < before.len() && before[k] == p;
                                assert(self.platforms@[k] == p);
                            }
                        }
                    }
                }
            }
        }
        proof {
            let l = self.platforms@;
            assert forall|p: (i32, i32)|
                #![trigger l.contains(p)]
                l.contains(p) <==> in_grid(p, w as nat, h as nat) && g[p.0 as int][p.1 as int] == Obstacle::Platform by {
                if l.contains(p) {
                    let k = choose|k: int| 0 <= k < l.len() && l[k] == p;
                    assert(in_grid(l[k], w as nat, h as nat));
                }
            }
        }
    }

    /// Join, in the union-find, the number of every platform cell with the
    /// numbers of the platforms around it (see `union_pairs`).
    pub fn compute_unions(&mut self)
        requires
            old(self).wf(),
            old(self).width_of() * old(self).height_of() <= uf_len(old(self).union_find()),
            old(self).width_of() * old(self).height_of() <= 0x1_0000_0000,
        ensures
            final(self).wf(),
            final(self)@ == old(self)@,
            final(self).width_of() == old(self).width_of(),
            final(self).height_of() == old(self).height_of(),
            final(self).platform_list() == old(self).platform_list(),
            final(self).blocked_list() == old(self).blocked_list(),
            uf_len(final(self).union_find()) == uf_len(old(self).union_find()),
            uf_classes(final(self).union_find()) == apply_merges(
                uf_classes(old(self).union_find()),
                union_pairs(old(self)@, old(self).width_of(), old(self).height_of(), old(self).width_of()),
            ),
            forall|pq: (u32, u32)| #[trigger] uf_classes(old(self).union_find()).contains(pq)
                ==> uf_classes(final(self).union_find()).contains(pq),
            forall|p: (i32, i32), q: (i32, i32)|
                in_grid(p, old(self).width_of(), old(self).height_of()) && in_grid(q, old(self).width_of(), old(self).height_of())
                    && crate::vec_ops::touching(p, q) && old(self).at(p) == Obstacle::Platform && old(self).at(q) == Obstacle::Platform
                    ==> #[trigger] uf_classes(final(self).union_find()).contains(
                    (cell_number(p, old(self).width_of()), cell_number(q, old(self).width_of())),
                ),
    {
        proof {
            let r = uf_classes(self.union_find());
            let ps = union_pairs(self@, self.width_of(), self.height_of(), self.width_of());
            assert forall|pq: (u32, u32)| #[trigger] r.contains(pq) implies apply_merges(r, ps).contains(pq) by {
                lemma_merges_grow(r, ps, pq);
            }
        }
        self.compute_unions_loop();
        proof {
            let w = self.width_of();
            let h = self.height_of();
            let r = uf_classes(old(self).union_find());
            assert forall|p: (i32, i32), q: (i32, i32)|
                in_grid(p, w, h) && in_grid(q, w, h) && crate::vec_ops::touching(p, q) && old(self).at(p) == Obstacle::Platform
                    && old(self).at(q) == Obstacle::Platform implies #[trigger] uf_classes(self.union_find()).contains(
                (cell_number(p, w), cell_number(q, w)),
            ) by {
                assert forall|i: u32| i < w * h implies #[trigger] r.contains((i, i)) by {}
                lemma_unions_join_touching_platforms(old(self)@, w, h, r, p, q);
            }
        }
    }

    fn compute_unions_loop(&mut self)
        requires
            old(self).wf(),
            old(self).width_of() * old(self).height_of() <= uf_len(old(self).union_find()),
            old(self).width_of() * old(self).height_of() <= 0x1_0000_0000,
        ensures
            final(self).wf(),
            final(self)@ == old(self)@,
            final(self).width_of() == old(self).width_of(),
            final(self).height_of() == old(self).height_of(),
            final(self).platform_list() == old(self).platform_list(),
            final(self).blocked_list() == old(self).blocked_list(),
            uf_len(final(self).union_find()) == uf_len(old(self).union_find()),
            uf_classes(final(self).union_find()) == apply_merges(
                uf_classes(old(self).union_find()),
                union_pairs(old(self)@, old(self).width_of(), old(self).height_of(), old(self).width_of()),
            ),
    {
        let w = self.width;
        let h = self.height;
        let ghost g = self@;
        let ghost r0 = uf_classes(self.ufind);
        let ghost n = uf_len(self.ufind);
        for x in 0..w
            invariant
                self.wf(),
                self@ == g,
                w == self.width_of(),
                h == self.height_of(),
                w * h <= n,
                w * h <= 0x1_0000_0000,
                uf_len(self.ufind) == n,
                self.platform_list() == old(self).platform_list(),
                self.blocked_list() == old(self).blocked_list(),
                uf_classes(self.ufind) == apply_merges(r0, union_pairs(g, w as nat, h as nat, x as nat)),
        {
            for y in 0..h
                invariant
                    self.wf(),
                    self@ == g,
                    w == self.width_of(),
                    h == self.height_of(),
                    x < w,
                    w * h <= n,
                    w * h <= 0x1_0000_0000,
                w * h <= 0x1_0000_0000,
                    uf_len(self.ufind) == n,
                    self.platform_list() == old(self).platform_list(),
                    self.blocked_list() == old(self).blocked_list(),
                    uf_classes(self.ufind) == apply_merges(
                        r0,
                        union_pairs(g, w as nat, h as nat, x as nat) + column_pairs(g, w as nat, h as nat, x as int, y as nat),
                    ),
            {
                let ghost done = union_pairs(g, w as nat, h as nat, x as nat) + column_pairs(
                    g,
                    w as nat,
                    h as nat,
                    x as int,
                    y as nat,
                );
                let c = (x as i32, y as i32);
                if self.get_obstacle(x as i32, y as i32) == Obstacle::Platform {
                    let nbrs = neighbors(c, (0, 0), (w as i32 - 1, h as i32 - 1));
                    proof {
                        crate::vec_ops::lemma_neighbors_exact(x as i32, y as i32, (0, 0), ((w - 1) as i32, (h - 1) as i32));
                    }
                    let mut k: usize = 0;
                    while k < nbrs.len()
                        invariant
                            self.wf(),
                            self@ == g,
                            w == self.width_of(),
                            h == self.height_of(),
                            x < w,
                            y < h,
                            c == (x as i32, y as i32),
                            w * h <= n,
                            w * h <= 0x1_0000_0000,
                    w * h <= 0x1_0000_0000,
                w * h <= 0x1_0000_0000,
                            uf_len(self.ufind) == n,
                            self.platform_list() == old(self).platform_list(),
                            self.blocked_list() == old(self).blocked_list(),
                            k <= nbrs@.len(),
                            nbrs@ == neighbor_list(x as i32, y as i32, 0, 0, (w - 1) as i32, (h - 1) as i32),
                            forall|p: (i32, i32)|
                                #![trigger nbrs@.contains(p)]
                                nbrs@.contains(p) ==> in_grid(p, w as nat, h as nat),
                            uf_classes(self.ufind) == apply_merges(
                                r0,
                                done + neighbor_pairs(g, w as nat, c, nbrs@, k as nat),
                            ),
                        decreases nbrs.len() - k,
                    {
                        let nbr = nbrs[k];
                        assert(nbrs@.contains(nbr));
                        if self.get_obstacle(nbr.0, nbr.1) == Obstacle::Platform {
                            proof {
                                assert(y * w + x < w * h) by (nonlinear_arith)
                                    requires x < w, y < h;
                                assert(nbr.1 * w + nbr.0 < w * h) by (nonlinear_arith)
                                    requires 0 <= nbr.0 < w, 0 <= nbr.1 < h;
                            }
                            let a = self.xy_flat(x as i32, y as i32);
                            let b = self.xy_flat(nbr.0, nbr.1);
                            union_find_union(&mut self.ufind, a, b);
                            proof {
                                let before = done + neighbor_pairs(g, w as nat, c, nbrs@, k as nat);
                                assert(done + neighbor_pairs(g, w as nat, c, nbrs@, (k + 1) as nat) =~= before.push((a, b)));
                                assert(before.push((a, b)).drop_last() =~= before);
                            }
                        } else {
                            assert(done + neighbor_pairs(g, w as nat, c, nbrs@, (k + 1) as nat) =~= done + neighbor_pairs(g, w as nat, c, nbrs@, k as nat));
                        }
                        k += 1;
                    }
                    assert(done + cell_pairs(g, w as nat, h as nat, c) =~= done + neighbor_pairs(g, w as nat, c, nbrs@, nbrs@.len()));
                } else {
                    assert(done + cell_pairs(g, w as nat, h as nat, c) =~= done);
                }
                assert(union_pairs(g, w as nat, h as nat, x as nat) + column_pairs(g, w as nat, h as nat, x as int, (y + 1) as nat) =~= done + cell_pairs(g, w as nat, h as nat, c));
            }
            assert(union_pairs(g, w as nat, h as nat, (x + 1) as nat) =~= union_pairs(g, w as nat, h as nat, x as nat) + column_pairs(g, w as nat, h as nat, x as int, h as nat));
        }
    }

    /// Put `obs` at `(x, y)`.
    pub fn set_obstacle(&mut self, p: (i32, i32), obs: Obstacle)
        requires
            old(self).wf(),
            old(self).has_cell(p),
        ensures
            final(self).wf(),
            final(self).same_but_grid(old(self)),
            final(self)@ == old(self)@.update(p.0 as int, old(self)@[p.0 as int].update(p.1 as int, obs)),
    {
        let (x, y) = p;
        proof {
            self.lemma_view_column(x as int);
        }
        let ghost before = self@;
        self.table[x as usize][y as usize] = obs;
        proof {
            assert(self@ =~= before.update(x as int, before[x as int].update(y as int, obs))) by {
                assert forall|i: int| 0 <= i < self@.len() implies #[trigger] self@[i] == before.update(
                    x as int,
                    before[x as int].update(y as int, obs),
                )[i] by {
                    self.lemma_view_column(i);
                }
            }
        }
    }

    /// The platform cells as last listed by `update_platforms`.
    pub fn platform_cells(&self) -> (l: &Vec<(i32, i32)>)
        ensures
            l@ == self.platform_list(),
    {
        &self.platforms
    }

    /// The union-find over cell numbers that `compute_unions` fills.
    pub fn unions(&self) -> (u: &UnionFind<u32>)
        ensures
            *u == self.union_find(),
    {
        &self.ufind
    }

    /// The cells where skaters stand.
    pub fn blocked_cells(&self) -> (l: &Vec<(i32, i32)>)
        ensures
            l@ == self.blocked_list(),
    {
        &self.blocked
    }

    /// The direction of the rail at `(x, y)`; none for any other obstacle.
    pub fn get_direction(&self, x: i32, y: i32) -> (d: Option<(i32, i32)>)
        requires
            self.wf(),
            self.has_cell((x, y)),
        ensures
            d == (match self.at((x, y)) {
                Obstacle::Rail(dx, dy) => Some((dx, dy)),
                _ => None::<(i32, i32)>,
            }),
    {
        match self.get_obstacle(x, y) {
            Obstacle::Rail(xdir, ydir) => Some((xdir, ydir)),
            _ => None,
        }
    }

    /// Whether the cell numbered `idx` (`y * width + x`) blocks the view: it
    /// is no platform, or somebody stands there.
    pub fn is_opaque(&self, idx: usize) -> (b: bool)
        requires
            self.wf(),
            idx < self.width_of() * self.height_of(),
        ensures
            ({
                let p = (((idx as int) % (self.width_of() as int)) as i32, ((idx as int) / (self.width_of() as int)) as i32);
                b == (self.at(p) != Obstacle::Platform || self.blocked_list().contains(p))
            }),
    {
        let w = self.width as usize;
        proof {
            lemma_index_cell(idx as int, self.width_of(), self.height_of());
        }
        let p = ((idx % w) as i32, (idx / w) as i32);
        self.get_obstacle(p.0, p.1) != Obstacle::Platform || self.is_blocked(p)
    }

    /// The cells a path can go to from the cell numbered `idx`, by number,
    /// each with whether the step is diagonal: left, right, up, down, then
    /// up-left, up-right, down-left, down-right, where that cell is a platform
    /// of the map.
    pub fn get_available_exits(&self, idx: usize) -> (exits: Vec<(usize, bool)>)
        requires
            self.wf(),
            idx < self.width_of() * self.height_of(),
            self.width_of() * self.height_of() <= usize::MAX,
        ensures
            ({
                let w = self.width_of() as int;
                let x = (idx as int) % w;
                let y = (idx as int) / w;
                exits@ == exit_list(self, x, y, idx as int, w)
            }),
    {
        let w = self.width as usize;
        proof {
            lemma_index_cell(idx as int, self.width_of(), self.height_of());
        }
        let x = (idx % w) as i32;
        let y = (idx / w) as i32;
        let ghost wi = w as int;
        proof {
            assert(idx as int == y as int * wi + x as int) by (nonlinear_arith)
                requires
                    x as int == idx as int % wi,
                    y as int == idx as int / wi,
                    wi > 0,
            ;
        }
        let mut exits: Vec<(usize, bool)> = Vec::new();
        self.push_exit(&mut exits, x, y, idx, -1, 0);
        self.push_exit(&mut exits, x, y, idx, 1, 0);
        self.push_exit(&mut exits, x, y, idx, 0, -1);
        self.push_exit(&mut exits, x, y, idx, 0, 1);
        self.push_exit(&mut exits, x, y, idx, -1, -1);
        self.push_exit(&mut exits, x, y, idx, 1, -1);
        self.push_exit(&mut exits, x, y, idx, -1, 1);
        self.push_exit(&mut exits, x, y, idx, 1, 1);
        assert(exits@ =~= exit_list(self, x as int, y as int, idx as int, wi));
        exits
    }

    fn push_exit(&self, exits: &mut Vec<(usize, bool)>, x: i32, y: i32, idx: usize, dx: i32, dy: i32)
        requires
            self.wf(),
            0 <= x < self.width_of(),
            0 <= y < self.height_of(),
            idx == y * self.width_of() + x,
            self.width_of() * self.height_of() <= usize::MAX,
            -1 <= dx <= 1,
            -1 <= dy <= 1,
        ensures
            final(exits)@ == old(exits)@ + exit_to(self, x as int, y as int, idx as int, self.width_of() as int, dx as int, dy as int),
    {
        if self.is_exit_valid(x + dx, y + dy) {
            let w = self.width as usize;
            proof {
                lemma_exit_index(x as int, y as int, w as int, self.height_of() as int, dx as int, dy as int, idx as int);
            }
            let mut n = idx;
            if dx == 1 {
                n = n + 1;
            } else if dx == -1 {
                n = n - 1;
            }
            assert(n == idx + dx);
            if dy == 1 {
                n = n + w;
            } else if dy == -1 {
                n = n - w;
            }
            assert(n == idx + dx + dy * w);
            exits.push((n, dx != 0 && dy != 0));
            assert(exits@ =~= old(exits)@ + exit_to(self, x as int, y as int, idx as int, self.width_of() as int, dx as int, dy as int));
        } else {
            assert(exits@ =~= old(exits)@ + exit_to(self, x as int, y as int, idx as int, self.width_of() as int, dx as int, dy as int));
        }
    }

    /// Nobody stands anywhere any more.    /// Nobody stands anywhere any more.
    pub fn clear_blocked(&mut self)
        ensures
            final(self).blocked_list() == Seq::<(i32, i32)>::empty(),
            final(self).same_but_blocked(old(self)),
    {
        self.blocked.clear();
    }

    /// Someone stands at `p`; a cell already taken is not listed twice.
    pub fn block(&mut self, p: (i32, i32))
        ensures
            final(self).blocked_list() == (if old(self).blocked_list().contains(p) {
                old(self).blocked_list()
            } else {
                old(self).blocked_list().push(p)
            }),
            final(self).same_but_blocked(old(self)),
    {
        if !self.is_blocked(p) {
            self.blocked.push(p);
        }
    }

    /// Make `(x, y)` a platform, whatever stood there.
    pub fn set_platform(&mut self, p: (i32, i32))
        requires
            old(self).wf(),
            old(self).has_cell(p),
        ensures
            final(self).wf(),
            final(self).same_but_grid(old(self)),
            final(self)@ == old(self)@.update(
                p.0 as int,
                old(self)@[p.0 as int].update(p.1 as int, Obstacle::Platform),
            ),
    {
        let (x, y) = p;
        match self.get_obstacle(x, y) {
            Obstacle::Pit => {
                self.set_obstacle((x, y), Obstacle::Platform);
            },
            _ => {
                self.set_obstacle((x, y), Obstacle::Platform);
            },
        }
    }

    /// Change the size of the map to `width` by `height`, all platforms.
    pub fn resize(&mut self, width: u32, height: u32)
        requires
            old(self).wf(),
            width <= i32::MAX,
            height <= i32::MAX,
        ensures
            final(self).wf(),
            final(self).width_of() == width,
            final(self).height_of() == height,
            all_platform(final(self)@, width as nat, height as nat),
            final(self).platform_list() == old(self).platform_list(),
            final(self).union_find() == old(self).union_find(),
            final(self).blocked_list() == old(self).blocked_list(),
    {
        self.width = width;
        self.height = height;
        self.fill_platforms();
        self.regen_table();
    }

    /// Make every cell a platform.
    pub fn regen_table(&mut self)
        requires
            old(self).wf(),
        ensures
            final(self).wf(),
            final(self).same_but_grid(old(self)),
            all_platform(final(self)@, final(self).width_of(), final(self).height_of()),
    {
        let w = self.width;
        let h = self.height;
        for x in 0..w
            invariant
                self.wf(),
                self.same_but_grid(old(self)),
                w == self.width_of(),
                h == self.height_of(),
                forall|i: int, j: int| 0 <= i < x && 0 <= j < h ==> #[trigger] self@[i][j] == Obstacle::Platform,
        {
            for y in 0..h
                invariant
                    self.wf(),
                    self.same_but_grid(old(self)),
                    w == self.width_of(),
                    h == self.height_of(),
                    x < w,
                    forall|i: int, j: int|
                        (0 <= i < x && 0 <= j < h) || (i == x && 0 <= j < y) ==> #[trigger] self@[i][j]
                            == Obstacle::Platform,
            {
                self.set_obstacle((x as i32, y as i32), Obstacle::Platform);
            }
        }
    }
}

proof fn lemma_merges_grow(r: Set<(u32, u32)>, ps: Seq<(u32, u32)>, pq: (u32, u32))
    requires
        r.contains(pq),
    ensures
        apply_merges(r, ps).contains(pq),
    decreases ps.len(),
{
    if ps.len() > 0 {
        lemma_merges_grow(r, ps.drop_last(), pq);
    }
}

proof fn lemma_merges_join(r: Set<(u32, u32)>, ps: Seq<(u32, u32)>, i: int)
    requires
        0 <= i < ps.len(),
        r.contains((ps[i].0, ps[i].0)),
        r.contains((ps[i].1, ps[i].1)),
    ensures
        apply_merges(r, ps).contains(ps[i]),
    decreases ps.len(),
{
    let last = ps.len() - 1;
    if i == last {
        let before = apply_merges(r, ps.drop_last());
        lemma_merges_grow(r, ps.drop_last(), (ps[i].0, ps[i].0));
        lemma_merges_grow(r, ps.drop_last(), (ps[i].1, ps[i].1));
        assert(before.contains((ps[i].0, ps[i].0)) && before.contains((ps[i].1, ps[i].1)));
    } else {
        lemma_merges_join(r, ps.drop_last(), i);
        assert(ps.drop_last()[i] == ps[i]);
    }
}

proof fn lemma_neighbor_pairs_has(
    g: Seq<Seq<Obstacle>>,
    w: nat,
    c: (i32, i32),
    nbrs: Seq<(i32, i32)>,
    k: nat,
    j: int,
)
    requires
        0 <= j < k <= nbrs.len(),
        g[nbrs[j].0 as int][nbrs[j].1 as int] == Obstacle::Platform,
    ensures
        neighbor_pairs(g, w, c, nbrs, k).contains((cell_number(c, w), cell_number(nbrs[j], w))),
    decreases k,
{
    let pair = (cell_number(c, w), cell_number(nbrs[j], w));
    let rest = neighbor_pairs(g, w, c, nbrs, (k - 1) as nat);
    if j == k - 1 {
        assert(rest.push(pair)[rest.len() as int] == pair);
    } else {
        lemma_neighbor_pairs_has(g, w, c, nbrs, (k - 1) as nat, j);
        let i = choose|i: int| 0 <= i < rest.len() && rest[i] == pair;
        if g[nbrs[k - 1].0 as int][nbrs[k - 1].1 as int] == Obstacle::Platform {
            assert(rest.push((cell_number(c, w), cell_number(nbrs[k - 1], w)))[i] == pair);
        }
    }
}

proof fn lemma_column_pairs_has(
    g: Seq<Seq<Obstacle>>,
    w: nat,
    h: nat,
    x: int,
    k: nat,
    y: int,
    pair: (u32, u32),
)
    requires
        0 <= y < k,
        y <= i32::MAX,
        x <= i32::MAX,
        0 <= x,
        cell_pairs(g, w, h, (x as i32, y as i32)).contains(pair),
    ensures
        column_pairs(g, w, h, x, k).contains(pair),
    decreases k,
{
    let before = column_pairs(g, w, h, x, (k - 1) as nat);
    let here = cell_pairs(g, w, h, (x as i32, (k - 1) as i32));
    if y == k - 1 {
        let i = choose|i: int| 0 <= i < here.len() && here[i] == pair;
        assert((before + here)[before.len() + i] == pair);
    } else {
        lemma_column_pairs_has(g, w, h, x, (k - 1) as nat, y, pair);
        let i = choose|i: int| 0 <= i < before.len() && before[i] == pair;
        assert((before + here)[i] == pair);
    }
}

proof fn lemma_union_pairs_has(
    g: Seq<Seq<Obstacle>>,
    w: nat,
    h: nat,
    k: nat,
    x: int,
    pair: (u32, u32),
)
    requires
        0 <= x < k,
        column_pairs(g, w, h, x, h).contains(pair),
    ensures
        union_pairs(g, w, h, k).contains(pair),
    decreases k,
{
    let before = union_pairs(g, w, h, (k - 1) as nat);
    let here = column_pairs(g, w, h, k - 1, h);
    if x == k - 1 {
        let i = choose|i: int| 0 <= i < here.len() && here[i] == pair;
        assert((before + here)[before.len() + i] == pair);
    } else {
        lemma_union_pairs_has(g, w, h, (k - 1) as nat, x, pair);
        let i = choose|i: int| 0 <= i < before.len() && before[i] == pair;
        assert((before + here)[i] == pair);
    }
}

/// After `compute_unions`, starting from sets in which every cell number is in
/// a set with itself (as in a new union-find), any two touching platform cells
/// are in one set.
pub proof fn lemma_unions_join_touching_platforms(
    g: Seq<Seq<Obstacle>>,
    w: nat,
    h: nat,
    r: Set<(u32, u32)>,
    p: (i32, i32),
    q: (i32, i32),
)
    requires
        1 <= w <= i32::MAX,
        1 <= h <= i32::MAX,
        w * h <= 0x1_0000_0000,
        forall|i: u32| i < w * h ==> #[trigger] r.contains((i, i)),
        in_grid(p, w, h),
        in_grid(q, w, h),
        crate::vec_ops::touching(p, q),
        g[p.0 as int][p.1 as int] == Obstacle::Platform,
        g[q.0 as int][q.1 as int] == Obstacle::Platform,
    ensures
        apply_merges(r, union_pairs(g, w, h, w)).contains((cell_number(p, w), cell_number(q, w))),
{
    let wi = (w - 1) as i32;
    let hi = (h - 1) as i32;
    crate::vec_ops::lemma_neighbors_exact(p.0, p.1, (0, 0), (wi, hi));
    let nb = neighbor_list(p.0, p.1, 0, 0, wi, hi);
    assert(crate::vec_ops::in_box(q, (0, 0), (wi, hi)));
    assert(crate::vec_ops::touching(q, p));
    assert(nb.contains(q));
    let j = choose|j: int| 0 <= j < nb.len() && nb[j] == q;
    lemma_neighbor_pairs_has(g, w, p, nb, nb.len(), j);
    let pair = (cell_number(p, w), cell_number(q, w));
    assert(cell_pairs(g, w, h, p).contains(pair));
    assert(p == (p.0 as int as i32, p.1 as int as i32));
    lemma_column_pairs_has(g, w, h, p.0 as int, h, p.1 as int, pair);
    lemma_union_pairs_has(g, w, h, w, p.0 as int, pair);
    let ps = union_pairs(g, w, h, w);
    let i = choose|i: int| 0 <= i < ps.len() && ps[i] == pair;
    assert(p.1 * w + p.0 < w * h) by (nonlinear_arith)
        requires
            0 <= p.0 < w,
            0 <= p.1 < h,
    ;
    assert(q.1 * w + q.0 < w * h) by (nonlinear_arith)
        requires
            0 <= q.0 < w,
            0 <= q.1 < h,
    ;
    assert(r.contains((pair.0, pair.0)));
    assert(r.contains((pair.1, pair.1)));
    lemma_merges_join(r, ps, i);
}


/// No pair of `ps` holds `a`.
pub open spec fn avoids(ps: Seq<(u32, u32)>, a: u32) -> bool {
    forall|i: int| 0 <= i < ps.len() ==> (#[trigger] ps[i]).0 != a && ps[i].1 != a
}

/// `a` is in no pair of `r` but with itself: a set of its own.
pub open spec fn isolated(r: Set<(u32, u32)>, a: u32) -> bool {
    forall|j: u32| (#[trigger] r.contains((a, j)) || r.contains((j, a))) ==> j == a
}

proof fn lemma_cell_number_injective(p: (i32, i32), q: (i32, i32), w: nat, h: nat)
    requires
        in_grid(p, w, h),
        in_grid(q, w, h),
        w * h <= 0x1_0000_0000,
        p != q,
    ensures
        cell_number(p, w) != cell_number(q, w),
{
    assert(p.1 * w + p.0 < w * h) by (nonlinear_arith)
        requires 0 <= p.0 < w, 0 <= p.1 < h;
    assert(q.1 * w + q.0 < w * h) by (nonlinear_arith)
        requires 0 <= q.0 < w, 0 <= q.1 < h;
    assert(0 <= p.1 * w + p.0) by (nonlinear_arith)
        requires 0 <= p.0 < w, 0 <= p.1 < h;
    assert(0 <= q.1 * w + q.0) by (nonlinear_arith)
        requires 0 <= q.0 < w, 0 <= q.1 < h;
    if p.1 == q.1 {
        assert(p.0 != q.0);
        assert(p.1 * w + p.0 != q.1 * w + q.0);
    } else if p.1 < q.1 {
        assert(p.1 * w + p.0 < q.1 * w + q.0) by (nonlinear_arith)
            requires 0 <= p.0 < w, 0 <= q.0, p.1 < q.1;
    } else {
        assert(q.1 * w + q.0 < p.1 * w + p.0) by (nonlinear_arith)
            requires 0 <= q.0 < w, 0 <= p.0, q.1 < p.1;
    }
}

proof fn lemma_neighbor_pairs_avoid(
    g: Seq<Seq<Obstacle>>,
    w: nat,
    h: nat,
    c: (i32, i32),
    nbrs: Seq<(i32, i32)>,
    k: nat,
    z: (i32, i32),
)
    requires
        k <= nbrs.len(),
        w * h <= 0x1_0000_0000,
        in_grid(c, w, h),
        in_grid(z, w, h),
        c != z,
        g[z.0 as int][z.1 as int] != Obstacle::Platform,
        forall|i: int| 0 <= i < nbrs.len() ==> in_grid(#[trigger] nbrs[i], w, h),
    ensures
        avoids(neighbor_pairs(g, w, c, nbrs, k), cell_number(z, w)),
    decreases k,
{
    if k > 0 {
        lemma_neighbor_pairs_avoid(g, w, h, c, nbrs, (k - 1) as nat, z);
        lemma_cell_number_injective(c, z, w, h);
        let n = nbrs[k - 1];
        if g[n.0 as int][n.1 as int] == Obstacle::Platform {
            lemma_cell_number_injective(n, z, w, h);
        }
    }
}

proof fn lemma_cell_pairs_avoid(g: Seq<Seq<Obstacle>>, w: nat, h: nat, c: (i32, i32), z: (i32, i32))
    requires
        1 <= w <= i32::MAX,
        1 <= h <= i32::MAX,
        w * h <= 0x1_0000_0000,
        in_grid(c, w, h),
        in_grid(z, w, h),
        g[z.0 as int][z.1 as int] != Obstacle::Platform,
    ensures
        avoids(cell_pairs(g, w, h, c), cell_number(z, w)),
{
    if g[c.0 as int][c.1 as int] == Obstacle::Platform {
        let wi = (w - 1) as i32;
        let hi = (h - 1) as i32;
        crate::vec_ops::lemma_neighbors_exact(c.0, c.1, (0, 0), (wi, hi));
        let nb = neighbor_list(c.0, c.1, 0, 0, wi, hi);
        assert forall|i: int| 0 <= i < nb.len() implies in_grid(#[trigger] nb[i], w, h) by {
            assert(nb.contains(nb[i]));
        }
        lemma_neighbor_pairs_avoid(g, w, h, c, nb, nb.len(), z);
    }
}

proof fn lemma_column_pairs_avoid(g: Seq<Seq<Obstacle>>, w: nat, h: nat, x: int, k: nat, z: (i32, i32))
    requires
        1 <= w <= i32::MAX,
        1 <= h <= i32::MAX,
        w * h <= 0x1_0000_0000,
        0 <= x < w,
        k <= h,
        in_grid(z, w, h),
        g[z.0 as int][z.1 as int] != Obstacle::Platform,
    ensures
        avoids(column_pairs(g, w, h, x, k), cell_number(z, w)),
    decreases k,
{
    if k > 0 {
        lemma_column_pairs_avoid(g, w, h, x, (k - 1) as nat, z);
        lemma_cell_pairs_avoid(g, w, h, (x as i32, (k - 1) as i32), z);
        let a = column_pairs(g, w, h, x, (k - 1) as nat);
        let b = cell_pairs(g, w, h, (x as i32, (k - 1) as i32));
        assert forall|i: int| 0 <= i < (a + b).len() implies (#[trigger] (a + b)[i]).0 != cell_number(z, w)
            && (a + b)[i].1 != cell_number(z, w) by {
            if i >= a.len() {
                assert((a + b)[i] == b[i - a.len()]);
            } else {
                assert((a + b)[i] == a[i]);
            }
        }
    }
}

proof fn lemma_union_pairs_avoid(g: Seq<Seq<Obstacle>>, w: nat, h: nat, k: nat, z: (i32, i32))
    requires
        1 <= w <= i32::MAX,
        1 <= h <= i32::MAX,
        w * h <= 0x1_0000_0000,
        k <= w,
        in_grid(z, w, h),
        g[z.0 as int][z.1 as int] != Obstacle::Platform,
    ensures
        avoids(union_pairs(g, w, h, k), cell_number(z, w)),
    decreases k,
{
    if k > 0 {
        lemma_union_pairs_avoid(g, w, h, (k - 1) as nat, z);
        lemma_column_pairs_avoid(g, w, h, k - 1, h, z);
        let a = union_pairs(g, w, h, (k - 1) as nat);
        let b = column_pairs(g, w, h, k - 1, h);
        assert forall|i: int| 0 <= i < (a + b).len() implies (#[trigger] (a + b)[i]).0 != cell_number(z, w)
            && (a + b)[i].1 != cell_number(z, w) by {
            if i >= a.len() {
                assert((a + b)[i] == b[i - a.len()]);
            } else {
                assert((a + b)[i] == a[i]);
            }
        }
    }
}

proof fn lemma_merges_keep_isolated(r: Set<(u32, u32)>, ps: Seq<(u32, u32)>, a: u32)
    requires
        isolated(r, a),
        avoids(ps, a),
    ensures
        isolated(apply_merges(r, ps), a),
    decreases ps.len(),
{
    if ps.len() > 0 {
        let init = ps.drop_last();
        assert forall|i: int| 0 <= i < init.len() implies (#[trigger] init[i]).0 != a && init[i].1 != a by {
            assert(init[i] == ps[i]);
        }
        lemma_merges_keep_isolated(r, init, a);
        let before = apply_merges(r, init);
        let l = ps.last();
        assert(l == ps[ps.len() - 1]);
        let after = merge_classes(before, l.0, l.1);
        assert forall|j: u32| (#[trigger] after.contains((a, j)) || after.contains((j, a))) implies j == a by {
            assert(!before.contains((a, l.0)) && !before.contains((a, l.1)));
            assert(!before.contains((l.0, a)) && !before.contains((l.1, a)));
        }
    }
}

/// After `compute_unions`, starting from sets in which every cell number is
/// alone (as in a new union-find), the number of a cell that is not a platform
/// is still in a set of its own: only platforms are ever joined.
pub proof fn lemma_unions_leave_other_cells_alone(
    g: Seq<Seq<Obstacle>>,
    w: nat,
    h: nat,
    r: Set<(u32, u32)>,
    z: (i32, i32),
)
    requires
        1 <= w <= i32::MAX,
        1 <= h <= i32::MAX,
        w * h <= 0x1_0000_0000,
        forall|pq: (u32, u32)| #[trigger] r.contains(pq) ==> pq.0 == pq.1,
        in_grid(z, w, h),
        g[z.0 as int][z.1 as int] != Obstacle::Platform,
    ensures
        isolated(apply_merges(r, union_pairs(g, w, h, w)), cell_number(z, w)),
{
    lemma_union_pairs_avoid(g, w, h, w, z);
    lemma_merges_keep_isolated(r, union_pairs(g, w, h, w), cell_number(z, w));
}
} // verus!
