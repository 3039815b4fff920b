use vstd::prelude::*;

verus! {

/// A binary min-heap of `(key, payload)` pairs stored in a `Vec` from slot 1 on.
///
/// Slot 0 is not part of the heap: it keeps a copy of the item that started the
/// current heap.  A store with fewer than two slots holds no items.
pub struct Heap<T: Copy> {
    heap: Vec<(u32, T)>,
}

/// Exchange the entries at positions `a` and `b`.
pub open spec fn swap_spec<T>(s: Seq<(u32, T)>, a: int, b: int) -> Seq<(u32, T)> {
    s.update(a, s[b]).update(b, s[a])
}

/// The items of a heap store: every slot from 1 on, or nothing when there are
/// fewer than two slots.
pub open spec fn items_of<T>(s: Seq<(u32, T)>) -> Seq<(u32, T)> {
    if s.len() < 2 {
        Seq::empty()
    } else {
        s.subrange(1, s.len() as int)
    }
}

/// The edge from slot `j` to its parent slot `j / 2` is in order.
pub open spec fn edge_ordered<T>(s: Seq<(u32, T)>, j: int) -> bool {
    s[j / 2].0 <= s[j].0
}

/// Every slot from 2 on holds a key no smaller than the key of its parent.
pub open spec fn is_heap_ordered<T>(s: Seq<(u32, T)>) -> bool {
    forall|j: int| 2 <= j < s.len() ==> #[trigger] edge_ordered(s, j)
}

/// Moving the entry at slot `i` towards slot 1 while its parent's key is larger.
pub open spec fn sift_up<T>(s: Seq<(u32, T)>, i: int) -> Seq<(u32, T)>
    decreases i,
{
    if 1 < i < s.len() && s[i / 2].0 > s[i].0 {
        sift_up(swap_spec(s, i / 2, i), i / 2)
    } else {
        s
    }
}

/// The child that the downward pass of `extract_min` picks at slot `i`.
pub open spec fn down_child<T>(s: Seq<(u32, T)>, i: int) -> int {
    if 2 * i + 1 >= s.len() {
        2 * i
    } else if s[2 * i].0 < s[2 * i + 1].0 {
        2 * i
    } else {
        2 * i + 1
    }
}

/// The downward pass of `extract_min` from slot `i`: it stops as soon as slot `i`
/// is no larger than one of its two children, or `i` is not below half the
/// number of slots.
pub open spec fn sift_down<T>(s: Seq<(u32, T)>, i: int) -> Seq<(u32, T)>
    decreases s.len() - i,
{
    if 1 <= i && i < s.len() / 2 && !(s[i].0 <= s[2 * i].0 || s[i].0 <= s[2 * i + 1].0) {
        sift_down(swap_spec(s, i, down_child(s, i)), down_child(s, i))
    } else {
        s
    }
}

/// The slots after `insert(key, val)` on a store with slots `s`.
pub open spec fn insert_spec<T>(s: Seq<(u32, T)>, key: u32, val: T) -> Seq<(u32, T)> {
    if s.len() < 2 {
        seq![(key, val), (key, val)]
    } else {
        sift_up(s.push((key, val)), s.len() as int)
    }
}

/// The slots after `extract_min` on a store with slots `s` (at least two).
pub open spec fn extract_spec<T>(s: Seq<(u32, T)>) -> Seq<(u32, T)> {
    sift_down(swap_spec(s, 1, s.len() - 1).drop_last(), 1)
}

fn parent(index: usize) -> (r: usize)
    ensures
        r == index / 2,
{
    index / 2
}

fn left(index: usize) -> (r: usize)
    requires
        index * 2 <= usize::MAX,
    ensures
        r == index * 2,
{
    index * 2
}

fn right(index: usize) -> (r: usize)
    requires
        index * 2 + 1 <= usize::MAX,
    ensures
        r == index * 2 + 1,
{
    index * 2 + 1
}

impl<T: Copy> View for Heap<T> {
    type V = Seq<(u32, T)>;

    /// The slots of the store, slot 0 included.
    closed spec fn view(&self) -> Seq<(u32, T)> {
        self.heap@
    }
}

impl<T: Copy> Heap<T> {
    /// The items in the heap, in slot order.
    pub open spec fn items(&self) -> Seq<(u32, T)> {
        items_of(self@)
    }

    pub fn new() -> (h: Self)
        ensures
            h@ == Seq::<(u32, T)>::empty(),
            h.items() == Seq::<(u32, T)>::empty(),
    {
        Heap { heap: Vec::new() }
    }

    /// Whether the heap holds no item.
    pub fn empty(&self) -> (b: bool)
        ensures
            b == (self@.len() < 2),
            b == (self.items().len() == 0),
    {
        self.heap.len() < 2
    }

    fn swap(&mut self, l: usize, r: usize)
        requires
            l < old(self)@.len(),
            r < old(self)@.len(),
        ensures
            final(self)@ == swap_spec(old(self)@, l as int, r as int),
    {
        let temp = self.heap[l];
        let moved = self.heap[r];
        self.heap.set(l, moved);
        self.heap.set(r, temp);
    }

    /// Add `val` under `key`: it goes to the end and rises while its parent's key
    /// is larger.
    pub fn insert(&mut self, key: u32, val: T)
        ensures
            final(self)@ == insert_spec(old(self)@, key, val),
    {
        if self.heap.len() < 2 {
            if self.heap.len() == 1 {
                self.heap.remove(0);
            }
            self.heap.push((key, val));
            self.heap.push((key, val));
            assert(self@ =~= seq![(key, val), (key, val)]);
        } else {
            self.heap.push((key, val));
            let mut index = self.heap.len() - 1;
            let ghost target = sift_up(self@, index as int);
            while self.heap[parent(index)].0 > key && index > 1
                invariant
                    1 <= index < self@.len(),
                    self@[index as int].0 == key,
                    sift_up(self@, index as int) == target,
                decreases index,
            {
                let p = parent(index);
                self.swap(p, index);
                index = p;
            }
        }
    }

    /// Take out the item in slot 1 and return its payload: the last item moves to
    /// slot 1 and sinks (see `sift_down`).
    pub fn extract_min(&mut self) -> (min: T)
        requires
            old(self)@.len() >= 2,
        ensures
            min == old(self)@[1].1,
            final(self)@ == extract_spec(old(self)@),
    {
        let l: usize = 1;
        let r = self.heap.len() - 1;
        self.swap(l, r);
        let ghost swapped = self@;
        let min = self.heap.remove(r);
        assert(self@ =~= swapped.drop_last());
        let mut index: usize = 1;
        let ghost target = sift_down(self@, 1);
        while index < self.heap.len() / 2
            invariant
                1 <= index,
                sift_down(self@, index as int) == target,
            ensures
                self@ == target,
            decreases self@.len() - index,
        {
            if self.heap[index].0 <= self.heap[left(index)].0 || self.heap[index].0 <= self.heap[
                right(index)
            ].0 {
                break;
            }
            let l = index;
            let r: usize;
            if right(index) >= self.heap.len() {
                r = left(index);
            } else if self.heap[left(index)].0 < self.heap[right(index)].0 {
                r = left(index);
            } else {
                r = right(index);
            }
            self.swap(l, r);
            index = r;
        }
        min.1
    }
}


proof fn lemma_swap_keeps_items<T>(s: Seq<(u32, T)>, a: int, b: int)
    requires
        1 <= a < s.len(),
        1 <= b < s.len(),
    ensures
        items_of(swap_spec(s, a, b)).to_multiset() == items_of(s).to_multiset(),
        swap_spec(s, a, b).len() == s.len(),
{
    broadcast use vstd::seq_lib::to_multiset_update;
    broadcast use vstd::multiset::group_multiset_axioms;

    let t = items_of(s);
    assert(items_of(swap_spec(s, a, b)) =~= swap_spec(t, a - 1, b - 1));
    let x = t[b - 1];
    let y = t[a - 1];
    let m = t.to_multiset();
    let u1 = t.update(a - 1, x);
    assert(u1.to_multiset() == m.insert(x).remove(y));
    assert(u1[b - 1] == x);
    assert(swap_spec(t, a - 1, b - 1).to_multiset() == u1.to_multiset().insert(y).remove(x));
    assert(t.contains(y)) by {
        assert(t[a - 1] == y);
    }
    assert(m.count(y) > 0) by {
        vstd::seq_lib::to_multiset_contains(t, y);
    }
    assert(m.insert(x).remove(y).insert(y) =~= m.insert(x));
    assert(m.insert(x).remove(x) =~= m);
}

proof fn lemma_sift_up_keeps_items<T>(s: Seq<(u32, T)>, i: int)
    ensures
        items_of(sift_up(s, i)).to_multiset() == items_of(s).to_multiset(),
        sift_up(s, i).len() == s.len(),
    decreases i,
{
    if 1 < i < s.len() && s[i / 2].0 > s[i].0 {
        lemma_swap_keeps_items(s, i / 2, i);
        lemma_sift_up_keeps_items(swap_spec(s, i / 2, i), i / 2);
    }
}

proof fn lemma_sift_down_keeps_items<T>(s: Seq<(u32, T)>, i: int)
    ensures
        items_of(sift_down(s, i)).to_multiset() == items_of(s).to_multiset(),
        sift_down(s, i).len() == s.len(),
    decreases s.len() - i,
{
    if 1 <= i && i < s.len() / 2 && !(s[i].0 <= s[2 * i].0 || s[i].0 <= s[2 * i + 1].0) {
        let c = down_child(s, i);
        lemma_swap_keeps_items(s, i, c);
        lemma_sift_down_keeps_items(swap_spec(s, i, c), c);
    }
}

/// `insert(key, val)` adds exactly one item, `(key, val)`, and keeps all the others.
pub proof fn lemma_insert_adds_item<T>(s: Seq<(u32, T)>, key: u32, val: T)
    ensures
        items_of(insert_spec(s, key, val)).to_multiset() == items_of(s).to_multiset().insert(
            (key, val),
        ),
        insert_spec(s, key, val).len() == (if s.len() < 2 {
            2
        } else {
            s.len() + 1
        }),
{
    broadcast use vstd::seq_lib::group_to_multiset_ensures;
    broadcast use vstd::multiset::group_multiset_axioms;

    if s.len() < 2 {
        assert(items_of(insert_spec(s, key, val)) =~= seq![(key, val)]);
        assert(items_of(s) =~= Seq::<(u32, T)>::empty());
        assert(seq![(key, val)] =~= Seq::<(u32, T)>::empty().push((key, val)));
    } else {
        let t = s.push((key, val));
        lemma_sift_up_keeps_items(t, s.len() as int);
        assert(items_of(t) =~= items_of(s).push((key, val)));
    }
}

/// `extract_min` takes out exactly the item in slot 1 and keeps all the others.
pub proof fn lemma_extract_removes_root<T>(s: Seq<(u32, T)>)
    requires
        s.len() >= 2,
    ensures
        items_of(extract_spec(s)).to_multiset() == items_of(s).to_multiset().remove(s[1]),
        extract_spec(s).len() == s.len() - 1,
{
    broadcast use vstd::seq_lib::group_to_multiset_ensures;
    broadcast use vstd::multiset::group_multiset_axioms;

    let n = s.len() as int;
    let s1 = swap_spec(s, 1, n - 1);
    lemma_swap_keeps_items(s, 1, n - 1);
    let s2 = s1.drop_last();
    lemma_sift_down_keeps_items(s2, 1);
    if n == 2 {
        assert(items_of(s) =~= seq![s[1]]);
        assert(seq![s[1]] =~= Seq::<(u32, T)>::empty().push(s[1]));
        assert(items_of(s2) =~= Seq::<(u32, T)>::empty());
    } else {
        assert(items_of(s1) =~= items_of(s2).push(s[1]));
    }
}

/// Sift-up invariant: every edge is in order except the one into slot `i`, and
/// the parent of `i` is no larger than the children of `i`.
spec fn sifting_up<T>(t: Seq<(u32, T)>, i: int) -> bool {
    &&& forall|j: int| 2 <= j < t.len() && j != i ==> #[trigger] edge_ordered(t, j)
    &&& i > 1 ==> forall|c: int|
        #![trigger t[c]]
        (c == 2 * i || c == 2 * i + 1) && c < t.len() ==> t[i / 2].0 <= t[c].0
}

proof fn lemma_sift_up_orders<T>(t: Seq<(u32, T)>, i: int)
    requires
        1 <= i < t.len(),
        sifting_up(t, i),
    ensures
        is_heap_ordered(sift_up(t, i)),
    decreases i,
{
    if 1 < i && t[i / 2].0 > t[i].0 {
        let p = i / 2;
        let u = swap_spec(t, p, i);
        assert forall|j: int| 2 <= j < u.len() && j != p implies #[trigger] edge_ordered(u, j) by {
            assert(edge_ordered(t, j) || j == i);
            if j == i {
            } else if j / 2 == p {
                assert(edge_ordered(t, j));
            } else if j / 2 == i {
                assert(t[i / 2].0 <= t[j].0);
            } else {
                assert(edge_ordered(t, j));
            }
        }
        if p > 1 {
            assert(edge_ordered(t, p));
            assert forall|c: int|
                (c == 2 * p || c == 2 * p + 1) && c < u.len() implies u[p / 2].0 <= #[trigger] u[c].0 by {
                if c != i {
                    assert(edge_ordered(t, c));
                }
            }
        }
        lemma_sift_up_orders(u, p);
    } else {
        assert forall|j: int| 2 <= j < t.len() implies #[trigger] edge_ordered(t, j) by {
            if j != i {
            }
        }
    }
}

/// Inserting into a heap-ordered store leaves it heap-ordered; a new heap is
/// heap-ordered.
pub proof fn lemma_insert_keeps_order<T>(s: Seq<(u32, T)>, key: u32, val: T)
    requires
        is_heap_ordered(s),
    ensures
        is_heap_ordered(insert_spec(s, key, val)),
        is_heap_ordered(Seq::<(u32, T)>::empty()),
{
    if s.len() < 2 {
        let u = insert_spec(s, key, val);
        assert forall|j: int| 2 <= j < u.len() implies #[trigger] edge_ordered(u, j) by {}
    } else {
        let n = s.len() as int;
        let t = s.push((key, val));
        assert forall|j: int| 2 <= j < t.len() && j != n implies #[trigger] edge_ordered(t, j) by {
            assert(edge_ordered(s, j));
        }
        lemma_sift_up_orders(t, n);
    }
}

proof fn lemma_root_below<T>(s: Seq<(u32, T)>, j: int)
    requires
        is_heap_ordered(s),
        1 <= j < s.len(),
    ensures
        s[1].0 <= s[j].0,
    decreases j,
{
    if j > 1 {
        assert(edge_ordered(s, j));
        lemma_root_below(s, j / 2);
    }
}

/// In a heap-ordered store the item that `extract_min` returns has a key no
/// larger than that of any item in the heap.
pub proof fn lemma_ordered_root_is_min<T>(s: Seq<(u32, T)>)
    requires
        is_heap_ordered(s),
        s.len() >= 2,
    ensures
        forall|i: int| 0 <= i < items_of(s).len() ==> s[1].0 <= #[trigger] items_of(s)[i].0,
{
    assert forall|i: int| 0 <= i < items_of(s).len() implies s[1].0 <= #[trigger] items_of(
        s,
    )[i].0 by {
        lemma_root_below(s, i + 1);
    }
}


/// The slots after the calls `ops` in order, starting from the slots `s`:
/// `Some((key, val))` is `insert(key, val)`, `None` is `extract_min` (left out
/// when there is no item).
pub open spec fn heap_after<T>(s: Seq<(u32, T)>, ops: Seq<Option<(u32, T)>>) -> Seq<(u32, T)>
    decreases ops.len(),
{
    if ops.len() == 0 {
        s
    } else {
        let t = heap_after(s, ops.drop_last());
        match ops.last() {
            Some(kv) => insert_spec(t, kv.0, kv.1),
            None => if t.len() >= 2 {
                extract_spec(t)
            } else {
                t
            },
        }
    }
}

/// How many of the calls `ops` are inserts.
pub open spec fn count_inserts<T>(ops: Seq<Option<(u32, T)>>) -> nat
    decreases ops.len(),
{
    if ops.len() == 0 {
        0
    } else {
        count_inserts(ops.drop_last()) + if ops.last() is Some { 1nat } else { 0nat }
    }
}

/// How many of the calls `ops` are extractions.
pub open spec fn count_extracts<T>(ops: Seq<Option<(u32, T)>>) -> nat
    decreases ops.len(),
{
    if ops.len() == 0 {
        0
    } else {
        count_extracts(ops.drop_last()) + if ops.last() is None { 1nat } else { 0nat }
    }
}

/// Every extraction among the calls `ops`, starting from the slots `s`, is
/// made on a heap that is not empty.
pub open spec fn extracts_on_items<T>(s: Seq<(u32, T)>, ops: Seq<Option<(u32, T)>>) -> bool {
    forall|i: int| 0 <= i < ops.len() && ops[i] is None ==> #[trigger] heap_after(s, ops.take(i)).len() >= 2
}

proof fn lemma_item_count<T>(s: Seq<(u32, T)>, ops: Seq<Option<(u32, T)>>)
    requires
        extracts_on_items(s, ops),
    ensures
        items_of(heap_after(s, ops)).len() + count_extracts(ops) == items_of(s).len() + count_inserts(ops),
    decreases ops.len(),
{
    if ops.len() > 0 {
        let init = ops.drop_last();
        assert forall|i: int| 0 <= i < init.len() && init[i] is None implies #[trigger] heap_after(s, init.take(i)).len() >= 2 by {
            assert(init.take(i) =~= ops.take(i));
            assert(ops[i] is None);
        }
        lemma_item_count(s, init);
        let t = heap_after(s, init);
        match ops.last() {
            Some(kv) => {
                lemma_insert_adds_item(t, kv.0, kv.1);
            },
            None => {
                assert(ops.take(ops.len() - 1) =~= init);
                assert(ops[ops.len() - 1] is None);
                lemma_extract_removes_root(t);
            },
        }
    }
}

/// Starting from a new heap, after any sequence of inserts and extractions
/// (each extraction made while the heap is not empty), the heap holds as many
/// items as there were inserts less extractions, and so `empty` holds exactly
/// when there were as many extractions as inserts.
pub proof fn lemma_empty_after_calls<T>(ops: Seq<Option<(u32, T)>>)
    requires
        extracts_on_items(Seq::empty(), ops),
    ensures
        items_of(heap_after(Seq::empty(), ops)).len() == count_inserts(ops) - count_extracts(ops),
        (heap_after(Seq::<(u32, T)>::empty(), ops).len() < 2) == (count_inserts(ops) == count_extracts(ops)),
{
    lemma_item_count(Seq::<(u32, T)>::empty(), ops);
}

proof fn lemma_sift_down_keeps_root<T>(s: Seq<(u32, T)>, i: int)
    requires
        i >= 2,
        s.len() >= 2,
    ensures
        sift_down(s, i).len() == s.len(),
        sift_down(s, i)[1] == s[1],
    decreases s.len() - i,
{
    if 1 <= i && i < s.len() / 2 && !(s[i].0 <= s[2 * i].0 || s[i].0 <= s[2 * i + 1].0) {
        let c = down_child(s, i);
        lemma_sift_down_keeps_root(swap_spec(s, i, c), c);
    }
}

/// When the item that `extract_min` moves from the last slot to the root is
/// larger than both children of the root (and the heap holds at least four
/// items), the new root is the child with the smaller key: the next item
/// taken out has a key no larger than either of them.
pub proof fn lemma_extract_raises_smaller_child<T>(s: Seq<(u32, T)>)
    requires
        s.len() >= 5,
        s[s.len() - 1].0 > s[2].0,
        s[s.len() - 1].0 > s[3].0,
    ensures
        extract_spec(s)[1] == s[2] || extract_spec(s)[1] == s[3],
        extract_spec(s)[1].0 <= s[2].0,
        extract_spec(s)[1].0 <= s[3].0,
{
    let n = s.len() as int;
    let t = swap_spec(s, 1, n - 1).drop_last();
    assert(t[1] == s[n - 1] && t[2] == s[2] && t[3] == s[3]);
    let c = down_child(t, 1);
    assert(c == 2 || c == 3);
    let u = swap_spec(t, 1, c);
    assert(u[1] == t[c]);
    lemma_sift_down_keeps_root(u, c);
}
} // verus!
