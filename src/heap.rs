//! Binary heap over values compared by an integer rank, kept in a `Vec` with
//! the root at index 0 and the children of `i` at `2i + 1` and `2i + 2`.
use vstd::prelude::*;

verus! {

/// Values that compare through an integer rank.
pub trait Ranked: Copy {
    spec fn rank(&self) -> int;

    fn lt(&self, other: &Self) -> (r: bool)
        ensures
            r == (self.rank() < other.rank()),
    ;
}

impl Ranked for i32 {
    open spec fn rank(&self) -> int {
        *self as int
    }

    fn lt(&self, other: &i32) -> (r: bool) {
        *self < *other
    }
}

impl Ranked for i64 {
    open spec fn rank(&self) -> int {
        *self as int
    }

    fn lt(&self, other: &i64) -> (r: bool) {
        *self < *other
    }
}

impl Ranked for u32 {
    open spec fn rank(&self) -> int {
        *self as int
    }

    fn lt(&self, other: &u32) -> (r: bool) {
        *self < *other
    }
}

impl Ranked for u64 {
    open spec fn rank(&self) -> int {
        *self as int
    }

    fn lt(&self, other: &u64) -> (r: bool) {
        *self < *other
    }
}

impl Ranked for usize {
    open spec fn rank(&self) -> int {
        *self as int
    }

    fn lt(&self, other: &usize) -> (r: bool) {
        *self < *other
    }
}

/// Which end of the rank order leaves the heap first.
#[derive(Clone, Copy, Debug)]
pub enum Order {
    Min,
    Max,
}

/// Priority of `x` under `order`: lower leaves first.
pub open spec fn prio<T: Ranked>(order: Order, x: T) -> int {
    match order {
        Order::Min => x.rank(),
        Order::Max => -x.rank(),
    }
}

/// Index of the parent of index `i`.
pub open spec fn parent(i: int) -> int {
    (i - 1) / 2
}

/// Every element has a priority no lower than its parent's.
pub open spec fn is_heap<T: Ranked>(order: Order, s: Seq<T>) -> bool {
    forall|i: int| 0 < i < s.len() ==> prio(order, s[parent(i)]) <= prio(order, #[trigger] s[i])
}

/// `x` has the lowest priority of all of `s`: the value a heap hands out next.
pub open spec fn is_top<T: Ranked>(order: Order, s: Seq<T>, x: T) -> bool {
    forall|i: int| 0 <= i < s.len() ==> prio(order, x) <= prio(order, #[trigger] s[i])
}

/// The root of a heap has the lowest priority.
proof fn lemma_root_is_top<T: Ranked>(order: Order, s: Seq<T>, i: int)
    requires
        is_heap(order, s),
        0 <= i < s.len(),
    ensures
        prio(order, s[0]) <= prio(order, s[i]),
    decreases i,
{
    if i > 0 {
        lemma_root_is_top(order, s, parent(i));
    }
}

/// A binary heap; `comparator` decides which end of the rank order is on top.
pub struct Heap<T> {
    count: usize,
    items: Vec<T>,
    comparator: Order,
}

impl<T: Ranked> View for Heap<T> {
    type V = Seq<T>;

    closed spec fn view(&self) -> Seq<T> {
        self.items@
    }
}

impl<T: Ranked> Heap<T> {
    /// The count matches the items, which are in heap order.
    pub closed spec fn wf(&self) -> bool {
        &&& self.count as nat == self.items@.len()
        &&& self.items@.len() <= usize::MAX / 2
        &&& is_heap(self.comparator, self.items@)
    }

    /// The direction this heap was made with.
    pub closed spec fn order(&self) -> Order {
        self.comparator
    }

    /// An empty heap that hands out values in `comparator`'s direction.
    pub fn new(comparator: Order) -> (r: Self)
        ensures
            r.wf(),
            r@ == Seq::<T>::empty(),
            r.order() == comparator,
    {
        let r = Heap { count: 0, items: Vec::new(), comparator };
        assert(r@ =~= Seq::<T>::empty());
        r
    }

    /// A heap that hands out the lowest rank first.
    pub fn new_min() -> (r: Self)
        ensures
            r.wf(),
            r@ == Seq::<T>::empty(),
            r.order() == Order::Min,
    {
        Self::new(Order::Min)
    }

    /// A heap that hands out the highest rank first.
    pub fn new_max() -> (r: Self)
        ensures
            r.wf(),
            r@ == Seq::<T>::empty(),
            r.order() == Order::Max,
    {
        Self::new(Order::Max)
    }

    pub fn len(&self) -> (r: usize)
        requires
            self.wf(),
        ensures
            r as nat == self@.len(),
    {
        self.count
    }

    pub fn is_empty(&self) -> (r: bool)
        requires
            self.wf(),
        ensures
            r == (self@.len() == 0),
    {
        self.len() == 0
    }

    /// True when `a` leaves the heap strictly before `b`.
    fn compare(&self, a: &T, b: &T) -> (r: bool)
        ensures
            r == (prio(self.comparator, *a) < prio(self.comparator, *b)),
    {
        match self.comparator {
            Order::Min => a.lt(b),
            Order::Max => b.lt(a),
        }
    }

    fn parent_idx(&self, idx: usize) -> (r: usize)
        requires
            idx > 0,
        ensures
            r == parent(idx as int),
    {
        (idx - 1) / 2
    }

    fn left_child_idx(&self, idx: usize) -> (r: usize)
        requires
            idx < usize::MAX / 2,
        ensures
            r == 2 * idx + 1,
    {
        2 * idx + 1
    }

    fn right_child_idx(&self, idx: usize) -> (r: usize)
        requires
            idx < usize::MAX / 2,
        ensures
            r == 2 * idx + 2,
    {
        self.left_child_idx(idx) + 1
    }

    fn children_present(&self, idx: usize) -> (r: bool)
        requires
            idx < usize::MAX / 2,
        ensures
            r == (2 * idx + 1 < self.count),
    {
        self.left_child_idx(idx) < self.count
    }

    /// The child of `idx` that leaves first; the right one on a tie.
    fn smallest_child_idx(&self, idx: usize) -> (r: usize)
        requires
            self.count as nat == self.items@.len(),
            idx < usize::MAX / 2,
            2 * idx + 1 < self.count,
        ensures
            r == 2 * idx + 1 || r == 2 * idx + 2,
            r < self.count,
            prio(self.comparator, self.items@[r as int]) <= prio(self.comparator, self.items@[2 * idx + 1]),
            2 * idx + 2 < self.count ==> prio(self.comparator, self.items@[r as int]) <= prio(
                self.comparator,
                self.items@[2 * idx + 2],
            ),
    {
        let left = self.left_child_idx(idx);
        let right = self.right_child_idx(idx);
        if right >= self.count {
            left
        } else if self.compare(&self.items[left], &self.items[right]) {
            left
        } else {
            right
        }
    }

    /// Exchanges the elements at `i` and `j`.
    fn swap_items(&mut self, i: usize, j: usize)
        requires
            i < old(self).items@.len(),
            j < old(self).items@.len(),
        ensures
            final(self).items@ == old(self).items@.update(i as int, old(self).items@[j as int]).update(
                j as int,
                old(self).items@[i as int],
            ),
            final(self).items@.to_multiset() == old(self).items@.to_multiset(),
            final(self).count == old(self).count,
            final(self).comparator == old(self).comparator,
    {
        broadcast use vstd::seq_lib::group_to_multiset_ensures, vstd::multiset::group_multiset_axioms;

        let ghost s = self.items@;
        let a = self.items[i];
        let b = self.items[j];
        self.items[i] = b;
        self.items[j] = a;
        proof {
            let s1 = s.update(i as int, s[j as int]);
            assert(s1.to_multiset() == s.to_multiset().insert(s[j as int]).remove(s[i as int]));
            assert(self.items@ == s1.update(j as int, s[i as int]));
            assert(self.items@.to_multiset() == s1.to_multiset().insert(s[i as int]).remove(s1[j as int]));
            assert(self.items@.to_multiset() =~= s.to_multiset());
        }
    }
}

/// A heap but possibly at `k`, which may rank below its parent; the parent
/// of `k` still ranks no lower than `k`'s children.
spec fn heap_but_up<T: Ranked>(order: Order, s: Seq<T>, k: int) -> bool {
    &&& forall|i: int|
        0 < i < s.len() && i != k ==> prio(order, s[parent(i)]) <= prio(order, #[trigger] s[i])
    &&& k > 0 ==> forall|i: int|
        0 < i < s.len() && parent(i) == k ==> prio(order, s[parent(k)]) <= prio(order, #[trigger] s[i])
}

/// A heap but possibly below `k`, whose children may rank below it; the
/// parent of `k` still ranks no lower than `k`'s children.
spec fn heap_but_down<T: Ranked>(order: Order, s: Seq<T>, k: int) -> bool {
    &&& forall|i: int|
        0 < i < s.len() && parent(i) != k ==> prio(order, s[parent(i)]) <= prio(order, #[trigger] s[i])
    &&& k > 0 ==> forall|i: int|
        0 < i < s.len() && parent(i) == k ==> prio(order, s[parent(k)]) <= prio(order, #[trigger] s[i])
}

impl<T: Ranked> Heap<T> {
    /// Moves the element at `idx` up until its parent leaves no later than it.
    fn heapify_up(&mut self, idx: usize)
        requires
            old(self).count as nat == old(self).items@.len(),
            old(self).items@.len() <= usize::MAX / 2,
            idx < old(self).items@.len(),
            heap_but_up(old(self).comparator, old(self).items@, idx as int),
        ensures
            final(self).wf(),
            final(self).items@.to_multiset() == old(self).items@.to_multiset(),
            final(self).items@.len() == old(self).items@.len(),
            final(self).comparator == old(self).comparator,
    {
        let mut idx = idx;
        loop
            invariant
                self.count as nat == self.items@.len(),
                self.items@.len() == old(self).items@.len(),
                self.items@.len() <= usize::MAX / 2,
                self.comparator == old(self).comparator,
                self.items@.to_multiset() == old(self).items@.to_multiset(),
                idx < self.items@.len(),
                heap_but_up(self.comparator, self.items@, idx as int),
            ensures
                self.wf(),
                self.items@.len() == old(self).items@.len(),
                self.comparator == old(self).comparator,
                self.items@.to_multiset() == old(self).items@.to_multiset(),
            decreases idx,
        {
            if idx == 0 {
                break;
            }
            let p = self.parent_idx(idx);
            if !self.compare(&self.items[idx], &self.items[p]) {
                break;
            }
            let ghost s = self.items@;
            let ghost o = self.comparator;
            self.swap_items(idx, p);
            proof {
                let t = self.items@;
                assert forall|i: int| 0 < i < t.len() && i != p implies prio(o, t[parent(i)]) <= prio(o, #[trigger] t[i]) by {
                    if parent(i) == idx as int {
                        assert(s[parent(i)] == t[p as int]);
                    } else if i != idx as int && parent(i) == p as int {
                        assert(prio(o, s[p as int]) <= prio(o, s[i]));
                    }
                }
                if p > 0 {
                    assert forall|i: int| 0 < i < t.len() && parent(i) == p as int implies prio(o, t[parent(p as int)]) <= prio(o, #[trigger] t[i]) by {
                        assert(prio(o, s[parent(p as int)]) <= prio(o, s[p as int]));
                        if i != idx as int {
                            assert(prio(o, s[p as int]) <= prio(o, s[i]));
                        }
                    }
                }
            }
            idx = p;
        }
    }

    /// Adds `value`, keeping the heap order.
    pub fn add(&mut self, value: T)
        requires
            old(self).wf(),
            old(self)@.len() < usize::MAX / 2,
        ensures
            final(self).wf(),
            final(self)@.to_multiset() == old(self)@.to_multiset().insert(value),
            final(self)@.len() == old(self)@.len() + 1,
            final(self).order() == old(self).order(),
    {
        broadcast use vstd::seq_lib::group_to_multiset_ensures;

        self.count = self.count + 1;
        self.items.push(value);
        let ghost s = self.items@;
        assert forall|i: int| 0 < i < s.len() && parent(i) == s.len() - 1 implies false by {}
        self.heapify_up(self.count - 1);
    }

    /// Moves the element at `idx` down until no child leaves before it.
    fn heapify_down(&mut self, idx: usize)
        requires
            old(self).count as nat == old(self).items@.len(),
            old(self).items@.len() <= usize::MAX / 2,
            idx < old(self).items@.len(),
            heap_but_down(old(self).comparator, old(self).items@, idx as int),
        ensures
            final(self).wf(),
            final(self).items@.to_multiset() == old(self).items@.to_multiset(),
            final(self).items@.len() == old(self).items@.len(),
            final(self).comparator == old(self).comparator,
    {
        let mut idx = idx;
        loop
            invariant
                self.count as nat == self.items@.len(),
                self.items@.len() == old(self).items@.len(),
                self.items@.len() <= usize::MAX / 2,
                self.comparator == old(self).comparator,
                self.items@.to_multiset() == old(self).items@.to_multiset(),
                idx < self.items@.len(),
                heap_but_down(self.comparator, self.items@, idx as int),
            ensures
                self.wf(),
                self.items@.len() == old(self).items@.len(),
                self.comparator == old(self).comparator,
                self.items@.to_multiset() == old(self).items@.to_multiset(),
            decreases self.items@.len() - idx,
        {
            if !self.children_present(idx) {
                let ghost s = self.items@;
                assert forall|i: int| 0 < i < s.len() implies prio(self.comparator, s[parent(i)]) <= prio(self.comparator, #[trigger] s[i]) by {
                    if parent(i) == idx as int {
                        assert(i >= 2 * idx + 1);
                    }
                }
                break;
            }
            let swap = self.smallest_child_idx(idx);
            if !self.compare(&self.items[swap], &self.items[idx]) {
                let ghost s = self.items@;
                assert forall|i: int| 0 < i < s.len() implies prio(self.comparator, s[parent(i)]) <= prio(self.comparator, #[trigger] s[i]) by {
                    if parent(i) == idx as int {
                        assert(i == 2 * idx + 1 || i == 2 * idx + 2);
                    }
                }
                break;
            }
            let ghost s = self.items@;
            let ghost o = self.comparator;
            self.swap_items(idx, swap);
            proof {
                let t = self.items@;
                assert(parent(swap as int) == idx as int);
                assert forall|i: int| 0 < i < t.len() && parent(i) != swap as int implies prio(o, t[parent(i)]) <= prio(o, #[trigger] t[i]) by {
                    if parent(i) == idx as int {
                        assert(i == 2 * idx + 1 || i == 2 * idx + 2);
                    } else if i == idx as int {
                        assert(prio(o, s[parent(i)]) <= prio(o, s[swap as int]));
                    }
                }
                assert forall|i: int| 0 < i < t.len() && parent(i) == swap as int implies prio(o, t[parent(swap as int)]) <= prio(o, #[trigger] t[i]) by {
                    assert(i != idx as int);
                    assert(prio(o, s[swap as int]) <= prio(o, s[i]));
                }
            }
            idx = swap;
        }
    }

    /// Removes and returns the element that leaves first: the lowest rank
    /// for a min-heap, the highest for a max-heap. `None` when empty.
    pub fn next(&mut self) -> (r: Option<T>)
        requires
            old(self).wf(),
        ensures
            final(self).wf(),
            final(self).order() == old(self).order(),
            old(self)@.len() == 0 ==> r is None && final(self)@ == old(self)@,
            old(self)@.len() > 0 ==> (r matches Some(x) && old(self)@.to_multiset().count(x) > 0
                && is_top(old(self).order(), old(self)@, x)
                && final(self)@.to_multiset() == old(self)@.to_multiset().remove(x)),
            final(self)@.len() == if old(self)@.len() == 0 { 0 } else { old(self)@.len() - 1 },
    {
        broadcast use vstd::seq_lib::group_to_multiset_ensures, vstd::multiset::group_multiset_axioms;

        if self.is_empty() {
            return None;
        }
        let ghost s = self.items@;
        let ghost o = self.comparator;
        proof {
            assert forall|i: int| 0 <= i < s.len() implies prio(o, s[0]) <= prio(o, #[trigger] s[i]) by {
                lemma_root_is_top(o, s, i);
            }
            assert(s.contains(s[0]));
        }
        let last = self.items.pop().unwrap();
        self.count = self.count - 1;
        proof {
            assert(s =~= self.items@.push(last));
        }
        if self.is_empty() {
            proof {
                assert(self.items@.push(last).to_multiset() == self.items@.to_multiset().insert(last));
                assert(self.items@.to_multiset() =~= s.to_multiset().remove(last));
            }
            return Some(last);
        }
        let top = self.items[0];
        self.items[0] = last;
        proof {
            let s1 = s.drop_last();
            assert(s1 =~= s.take(s.len() - 1));
            assert(s =~= s1.push(last));
            assert(s.to_multiset() == s1.to_multiset().insert(last));
            assert(self.items@ == s1.update(0, last));
            assert(self.items@.to_multiset() == s1.to_multiset().insert(last).remove(s1[0]));
            assert(self.items@.to_multiset() =~= s.to_multiset().remove(top));
            let t = self.items@;
            assert forall|i: int| 0 < i < t.len() && parent(i) != 0 implies prio(o, t[parent(i)]) <= prio(o, #[trigger] t[i]) by {
                assert(t[i] == s[i]);
                assert(t[parent(i)] == s[parent(i)]);
            }
        }
        self.heapify_down(0);
        Some(top)
    }
}

/// Makes heaps that hand out the lowest rank first.
pub struct MinHeap;

impl MinHeap {
    pub fn new<T: Ranked>() -> (r: Heap<T>)
        ensures
            r.wf(),
            r@ == Seq::<T>::empty(),
            r.order() == Order::Min,
    {
        Heap::new(Order::Min)
    }
}

/// Makes heaps that hand out the highest rank first.
pub struct MaxHeap;

impl MaxHeap {
    pub fn new<T: Ranked>() -> (r: Heap<T>)
        ensures
            r.wf(),
            r@ == Seq::<T>::empty(),
            r.order() == Order::Max,
    {
        Heap::new(Order::Max)
    }
}

} // verus!
