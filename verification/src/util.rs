use vstd::prelude::*;

verus! {

/// The cells around `(x, y)` inside the box with corners `(tl_x, tl_y)` and
/// `(br_x, br_y)`, in the order `neighbors` lists them: the column to the left
/// (middle, above, below), the column to the right (middle, above, below), then
/// the cell above and the cell below.
pub open spec fn neighbor_list_usize(x: usize, y: usize, tl_x: usize, tl_y: usize, br_x: usize, br_y: usize) -> Seq<
    (usize, usize),
> {
    let left: Seq<(usize, usize)> = if x > tl_x {
        seq![((x - 1) as usize, y)] + (if y > tl_y {
            seq![((x - 1) as usize, (y - 1) as usize)]
        } else {
            Seq::empty()
        }) + (if y < br_y {
            seq![((x - 1) as usize, (y + 1) as usize)]
        } else {
            Seq::empty()
        })
    } else {
        Seq::empty()
    };
    let right: Seq<(usize, usize)> = if x < br_x {
        seq![((x + 1) as usize, y)] + (if y > tl_y {
            seq![((x + 1) as usize, (y - 1) as usize)]
        } else {
            Seq::empty()
        }) + (if y < br_y {
            seq![((x + 1) as usize, (y + 1) as usize)]
        } else {
            Seq::empty()
        })
    } else {
        Seq::empty()
    };
    let above: Seq<(usize, usize)> = if y > tl_y {
        seq![(x, (y - 1) as usize)]
    } else {
        Seq::empty()
    };
    let below: Seq<(usize, usize)> = if y < br_y {
        seq![(x, (y + 1) as usize)]
    } else {
        Seq::empty()
    };
    left + right + above + below
}

/// `p` lies in the box with corners `tl` and `br`.
pub open spec fn in_box_usize(p: (usize, usize), tl: (usize, usize), br: (usize, usize)) -> bool {
    tl.0 <= p.0 <= br.0 && tl.1 <= p.1 <= br.1
}

/// `p` and `q` are distinct cells that touch, also diagonally.
pub open spec fn touching_usize(p: (usize, usize), q: (usize, usize)) -> bool {
    p != q && -1 <= p.0 - q.0 <= 1 && -1 <= p.1 - q.1 <= 1
}

/// The cells around `(x, y)` that lie in the box `(tl_x, tl_y)`–`(br_x, br_y)`
/// (see `neighbor_list`).
pub fn neighbors(center: (usize, usize), top_left: (usize, usize), bottom_right: (usize, usize)) -> (v: Vec<
    (usize, usize),
>)
    ensures
        v@ == neighbor_list_usize(center.0, center.1, top_left.0, top_left.1, bottom_right.0, bottom_right.1),
{
    let (x, y) = center;
    let (tl_x, tl_y) = top_left;
    let (br_x, br_y) = bottom_right;
    let mut v = Vec::new();

    if x > tl_x {
        v.push((x - 1, y));

        if y > tl_y {
            v.push((x - 1, y - 1));
        }

        if y < br_y {
            v.push((x - 1, y + 1));
        }
    }

    if x < br_x {
        v.push((x + 1, y));

        if y > tl_y {
            v.push((x + 1, y - 1));
        }

        if y < br_y {
            v.push((x + 1, y + 1));
        }
    }

    if y > tl_y {
        v.push((x, y - 1));
    }

    if y < br_y {
        v.push((x, y + 1));
    }
    assert(v@ =~= neighbor_list_usize(x, y, tl_x, tl_y, br_x, br_y));
    v
}

/// For a cell inside a box, `neighbors` lists each cell of the box that touches
/// it exactly once, and nothing else.
pub proof fn lemma_neighbors_usize_exact(x: usize, y: usize, tl: (usize, usize), br: (usize, usize))
    requires
        in_box_usize((x, y), tl, br),
    ensures
        forall|p: (usize, usize)|
            #![trigger neighbor_list_usize(x, y, tl.0, tl.1, br.0, br.1).contains(p)]
            neighbor_list_usize(x, y, tl.0, tl.1, br.0, br.1).contains(p) <==> in_box_usize(p, tl, br) && touching_usize(
                p,
                (x, y),
            ),
        neighbor_list_usize(x, y, tl.0, tl.1, br.0, br.1).no_duplicates(),
{
    let n = neighbor_list_usize(x, y, tl.0, tl.1, br.0, br.1);
    assert forall|p: (usize, usize)| in_box_usize(p, tl, br) && touching_usize(p, (x, y)) implies n.contains(p) by {
        let dx = p.0 - x;
        let dy = p.1 - y;
        let k: int = if dx == -1 {
            if dy == 0 {
                0
            } else if dy == -1 {
                1
            } else if y > tl.1 {
                2
            } else {
                1
            }
        } else if dx == 1 {
            let base: int = if x > tl.0 {
                1 + (if y > tl.1 {
                    1int
                } else {
                    0
                }) + (if y < br.1 {
                    1int
                } else {
                    0
                })
            } else {
                0
            };
            if dy == 0 {
                base
            } else if dy == -1 {
                base + 1
            } else if y > tl.1 {
                base + 2
            } else {
                base + 1
            }
        } else {
            let l: int = if x > tl.0 {
                1 + (if y > tl.1 {
                    1int
                } else {
                    0
                }) + (if y < br.1 {
                    1int
                } else {
                    0
                })
            } else {
                0
            };
            let r: int = if x < br.0 {
                1 + (if y > tl.1 {
                    1int
                } else {
                    0
                }) + (if y < br.1 {
                    1int
                } else {
                    0
                })
            } else {
                0
            };
            if dy == -1 {
                l + r
            } else if y > tl.1 {
                l + r + 1
            } else {
                l + r
            }
        };
        assert(n[k] == p);
    }
    assert forall|i: int, j: int| 0 <= i < n.len() && 0 <= j < n.len() && i != j implies n[i]
        != n[j] by {}
}

} // verus!
