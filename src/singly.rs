//! Singly linked list whose nodes live in an arena and link to each other by slot.
use vstd::prelude::*;

verus! {

/// One arena cell: a value and the slot of the node that follows it.
pub struct Node<T> {
    pub val: T,
    pub next: Option<usize>,
}

impl<T> Node<T> {
    pub fn new(t: T) -> (r: Node<T>)
        ensures
            r.val == t,
            r.next is None,
    {
        Node { val: t, next: None }
    }
}

/// A singly linked list. `chain` lists, from head to tail, the arena slots that
/// hold the list's nodes; slots outside it are dead and never reached.
pub struct LinkedList<T> {
    length: u32,
    start: Option<usize>,
    end: Option<usize>,
    nodes: Vec<Node<T>>,
    chain: Ghost<Seq<usize>>,
}

impl<T> View for LinkedList<T> {
    type V = Seq<T>;

    closed spec fn view(&self) -> Seq<T> {
        self.chain@.map_values(|s: usize| self.nodes@[s as int].val)
    }
}

impl<T> LinkedList<T> {
    /// The slot that follows position `k` of the chain, if any.
    closed spec fn succ(&self, k: int) -> Option<usize> {
        if k + 1 < self.chain@.len() {
            Some(self.chain@[k + 1])
        } else {
            None
        }
    }

    /// The length counts the chain; head and tail are its ends; every slot
    /// of the chain is a distinct arena cell linked to its neighbours.
    pub closed spec fn wf(&self) -> bool {
        let c = self.chain@;
        &&& c.len() == self.length as nat
        &&& c.no_duplicates()
        &&& forall|k: int| 0 <= k < c.len() ==> #[trigger] c[k] < self.nodes@.len()
        &&& forall|k: int|
            0 <= k < c.len() ==> self.nodes@[#[trigger] c[k] as int].next == self.succ(k)
        &&& self.start == if c.len() == 0 {
            None::<usize>
        } else {
            Some(c[0])
        }
        &&& self.end == if c.len() == 0 {
            None::<usize>
        } else {
            Some(c[c.len() - 1])
        }
    }

    /// The arena slot of the node at position `i`.
    pub closed spec fn slot_at(&self, i: int) -> usize {
        self.chain@[i]
    }

    /// An empty list.
    pub fn new() -> (r: Self)
        ensures
            r.wf(),
            r@ == Seq::<T>::empty(),
    {
        let r = LinkedList { length: 0, start: None, end: None, nodes: Vec::new(), chain: Ghost(Seq::empty()) };
        assert(r@ =~= Seq::<T>::empty());
        r
    }

    /// Number of nodes in the list.
    pub fn len(&self) -> (r: u32)
        requires
            self.wf(),
        ensures
            r as nat == self@.len(),
    {
        self.length
    }

    /// Appends `obj` after the tail.
    pub fn add(&mut self, obj: T)
        requires
            old(self).wf(),
            old(self)@.len() < u32::MAX,
        ensures
            final(self).wf(),
            final(self)@ == old(self)@.push(obj),
    {
        self.push_back(Node::new(obj));
    }

    /// Links `node` after the tail; whatever link it carried is dropped.
    pub fn push_back(&mut self, node: Node<T>)
        requires
            old(self).wf(),
            old(self)@.len() < u32::MAX,
        ensures
            final(self).wf(),
            final(self)@ == old(self)@.push(node.val),
    {
        let ghost c = self.chain@;
        let ghost nodes0 = self.nodes@;
        let slot = self.nodes.len();
        self.nodes.push(Node { val: node.val, next: None });
        match self.end {
            None => {
                self.start = Some(slot);
            },
            Some(e) => {
                self.nodes[e].next = Some(slot);
            },
        }
        self.end = Some(slot);
        self.length = self.length + 1;
        self.chain = Ghost(c.push(slot));
        proof {
            let c2 = self.chain@;
            assert forall|k: int| 0 <= k < c2.len() implies #[trigger] c2[k] < self.nodes@.len() by {
                if k < c.len() {
                    assert(c[k] < nodes0.len());
                }
            }
            assert forall|k: int| 0 <= k < c.len() implies self.nodes@[#[trigger] c[k] as int]
                == if k == c.len() - 1 { Node { val: nodes0[c[k] as int].val, next: Some(slot) } }
                   else { nodes0[c[k] as int] } by {
                assert(c[k] < nodes0.len());
                if k < c.len() - 1 {
                    assert(c[k] != c[c.len() - 1]);
                }
            }
            assert forall|k: int| 0 <= k < c2.len() implies self.nodes@[#[trigger] c2[k] as int].next == self.succ(k) by {
                if k < c.len() {
                    assert(c2[k] == c[k]);
                    assert(nodes0[c[k] as int].next == if k + 1 < c.len() { Some(c[k + 1]) } else { None });
                }
            }
            assert(c2.no_duplicates()) by {
                assert forall|i: int, j: int| 0 <= i < c2.len() && 0 <= j < c2.len() && i != j implies c2[i] != c2[j] by {
                    if i < c.len() {
                        assert(c[i] < nodes0.len());
                    }
                    if j < c.len() {
                        assert(c[j] < nodes0.len());
                    }
                }
            }
            assert(self@ =~= old(self)@.push(node.val));
        }
    }

    /// Links `node` before the head.
    pub fn push_front(&mut self, node: Node<T>)
        requires
            old(self).wf(),
            old(self)@.len() < u32::MAX,
        ensures
            final(self).wf(),
            final(self)@ == seq![node.val] + old(self)@,
    {
        let ghost c = self.chain@;
        let ghost nodes0 = self.nodes@;
        let slot = self.nodes.len();
        self.nodes.push(Node { val: node.val, next: self.start });
        if self.end.is_none() {
            self.end = Some(slot);
        }
        self.start = Some(slot);
        self.length = self.length + 1;
        self.chain = Ghost(seq![slot] + c);
        proof {
            let c2 = self.chain@;
            assert forall|k: int| 0 <= k < c2.len() implies #[trigger] c2[k] < self.nodes@.len() by {
                if k > 0 {
                    assert(c2[k] == c[k - 1]);
                    assert(c[k - 1] < nodes0.len());
                }
            }
            assert forall|k: int| 0 <= k < c2.len() implies self.nodes@[#[trigger] c2[k] as int].next == self.succ(k) by {
                if k > 0 {
                    assert(c2[k] == c[k - 1]);
                    assert(c[k - 1] < nodes0.len());
                    assert(nodes0[c[k - 1] as int].next == if k < c.len() { Some(c[k]) } else { None });
                }
            }
            assert(c2.no_duplicates()) by {
                assert forall|i: int, j: int| 0 <= i < c2.len() && 0 <= j < c2.len() && i != j implies c2[i] != c2[j] by {
                    if i > 0 {
                        assert(c[i - 1] < nodes0.len());
                    }
                    if j > 0 {
                        assert(c[j - 1] < nodes0.len());
                    }
                }
            }
            assert(self@ =~= seq![node.val] + old(self)@);
        }
    }

    /// Slot of the node `index` steps after the head, walking the chain.
    fn get_ith_node_raw(&self, index: u32) -> (r: Option<usize>)
        requires
            self.wf(),
        ensures
            r == if (index as int) < self@.len() {
                Some(self.slot_at(index as int))
            } else {
                None::<usize>
            },
    {
        let mut cur = self.start;
        let mut k: u32 = 0;
        while k < index
            invariant
                self.wf(),
                k <= index,
                cur == if (k as int) < self.chain@.len() {
                    Some(self.chain@[k as int])
                } else {
                    None::<usize>
                },
            decreases index - k,
        {
            match cur {
                None => {
                    return None;
                },
                Some(s) => {
                    assert(self.nodes@[self.chain@[k as int] as int].next == self.succ(k as int));
                    cur = self.nodes[s].next;
                    k = k + 1;
                },
            }
        }
        cur
    }

    /// Arena slot of the node at `index`, or `None` when `index` is negative
    /// or not below the length.
    pub fn get_raw(&self, index: i32) -> (r: Option<usize>)
        requires
            self.wf(),
        ensures
            r == if 0 <= index < self@.len() {
                Some(self.slot_at(index as int))
            } else {
                None::<usize>
            },
    {
        if index < 0 {
            None
        } else {
            self.get_ith_node_raw(index as u32)
        }
    }

    /// Value at `index`, or `None` when `index` is negative or not below the length.
    pub fn get(&self, index: i32) -> (r: Option<&T>)
        requires
            self.wf(),
        ensures
            r.is_some() == (0 <= index < self@.len()),
            r.is_some() ==> *r.unwrap() == self@[index as int],
    {
        match self.get_raw(index) {
            None => None,
            Some(s) => {
                assert(self.chain@[index as int] < self.nodes@.len());
                Some(&self.nodes[s].val)
            },
        }
    }

    /// Links `node` right after the node at chain position `k`, held in slot `p`.
    #[verifier::rlimit(80)]
    #[verifier::spinoff_prover]
    fn splice_after(&mut self, p: usize, node: Node<T>, Ghost(k): Ghost<int>)
        requires
            old(self).wf(),
            old(self)@.len() < u32::MAX,
            0 <= k < old(self)@.len(),
            p == old(self).slot_at(k),
        ensures
            final(self).wf(),
            final(self)@ == old(self)@.insert(k + 1, node.val),
    {
        let ghost c = self.chain@;
        let ghost nodes0 = self.nodes@;
        let slot = self.nodes.len();
        assert(c[k] < nodes0.len());
        let after = self.nodes[p].next;
        self.nodes.push(Node { val: node.val, next: after });
        self.nodes[p].next = Some(slot);
        if self.end == Some(p) {
            self.end = Some(slot);
        }
        self.length = self.length + 1;
        self.chain = Ghost(c.insert(k + 1, slot));
        proof {
            let c2 = self.chain@;
            assert forall|i: int| 0 <= i < c.len() && i != k implies c[i] != p by {}
            assert forall|i: int| 0 <= i < c2.len() implies #[trigger] c2[i] < self.nodes@.len() by {
                if i <= k {
                    assert(c2[i] == c[i]);
                    assert(c[i] < nodes0.len());
                } else if i > k + 1 {
                    assert(c2[i] == c[i - 1]);
                    assert(c[i - 1] < nodes0.len());
                }
            }
            assert forall|i: int| 0 <= i < c2.len() implies self.nodes@[#[trigger] c2[i] as int].next == self.succ(i) by {
                if i < k {
                    assert(c2[i] == c[i]);
                    assert(c[i] < nodes0.len());
                    assert(nodes0[c[i] as int].next == if i + 1 < c.len() { Some(c[i + 1]) } else { None });
                } else if i > k + 1 {
                    assert(c2[i] == c[i - 1]);
                    assert(c[i - 1] < nodes0.len());
                    assert(c[i - 1] != p);
                    assert(nodes0[c[i - 1] as int].next == if i < c.len() { Some(c[i]) } else { None });
                } else if i == k + 1 {
                    assert(nodes0[c[k] as int].next == if k + 1 < c.len() { Some(c[k + 1]) } else { None });
                }
            }
            assert(c2.no_duplicates()) by {
                assert forall|i: int, j: int| 0 <= i < c2.len() && 0 <= j < c2.len() && i != j implies c2[i] != c2[j] by {
                    if i != k + 1 {
                        assert(c2[i] == c[if i < k + 1 { i } else { i - 1 }]);
                        assert(c[if i < k + 1 { i } else { i - 1 }] < nodes0.len());
                    }
                    if j != k + 1 {
                        assert(c2[j] == c[if j < k + 1 { j } else { j - 1 }]);
                        assert(c[if j < k + 1 { j } else { j - 1 }] < nodes0.len());
                    }
                }
            }
            if k < c.len() - 1 {
                assert(c[c.len() - 1] != p);
            }
            assert(self@ =~= old(self)@.insert(k + 1, node.val)) by {
                assert forall|i: int| 0 <= i < c2.len() && i != k + 1 implies self.nodes@[c2[i] as int].val
                    == nodes0[c2[i] as int].val by {
                    assert(c2[i] == c[if i < k + 1 { i } else { i - 1 }]);
                    assert(c[if i < k + 1 { i } else { i - 1 }] < nodes0.len());
                }
            }
        }
    }

    /// Links `node` so that it stands at position `index`. Returns false, and
    /// leaves the list unchanged, when `index` is negative or beyond the length.
    pub fn insert(&mut self, node: Node<T>, index: i32) -> (r: bool)
        requires
            old(self).wf(),
            old(self)@.len() < u32::MAX,
        ensures
            final(self).wf(),
            r == (0 <= index <= old(self)@.len()),
            r ==> final(self)@ == old(self)@.insert(index as int, node.val),
            !r ==> final(self)@ == old(self)@,
    {
        if index < 0 || index as i64 > self.length as i64 {
            false
        } else if index == 0 {
            self.push_front(node);
            assert(seq![node.val] + old(self)@ =~= old(self)@.insert(0, node.val));
            true
        } else if index as i64 == self.length as i64 {
            self.push_back(node);
            assert(old(self)@.push(node.val) =~= old(self)@.insert(index as int, node.val));
            true
        } else {
            match self.get_raw(index - 1) {
                Some(p) => {
                    self.splice_after(p, node, Ghost((index - 1) as int));
                    true
                },
                None => false,
            }
        }
    }
}

/// The view reached from `s` by appending the values of `vals` one at a
/// time, front first, as repeated calls of `add` do.
pub open spec fn appended<T>(s: Seq<T>, vals: Seq<T>) -> Seq<T>
    decreases vals.len(),
{
    if vals.len() == 0 {
        s
    } else {
        appended(s.push(vals[0]), vals.drop_first())
    }
}

proof fn lemma_appended<T>(s: Seq<T>, vals: Seq<T>)
    ensures
        appended(s, vals) == s + vals,
    decreases vals.len(),
{
    if vals.len() > 0 {
        lemma_appended(s.push(vals[0]), vals.drop_first());
        assert(s.push(vals[0]) + vals.drop_first() =~= s + vals);
    }
}

/// Appending `n` values to an empty list gives a list of length `n` whose
/// value at each index `i` is the `i`-th value appended.
pub proof fn append_in_order<T>(vals: Seq<T>)
    ensures
        appended(Seq::empty(), vals).len() == vals.len(),
        forall|i: int| 0 <= i < vals.len() ==> #[trigger] appended(Seq::empty(), vals)[i] == vals[i],
{
    lemma_appended(Seq::empty(), vals);
    assert(Seq::<T>::empty() + vals =~= vals);
}

impl LinkedList<i32> {
    /// Links `node` after every element below its value and before the
    /// first one that is not; on a sorted list the result stays sorted.
    pub fn insert_sorted(&mut self, node: Node<i32>)
        requires
            old(self).wf(),
            old(self)@.len() < u32::MAX,
        ensures
            final(self).wf(),
            final(self)@ == old(self)@.insert(crate::insert_pos(old(self)@, node.val), node.val),
            crate::sorted(old(self)@) ==> crate::sorted(final(self)@),
    {
        let ghost s = self@;
        let mut prev: Option<usize> = None;
        let mut cur = self.start;
        let mut k: u32 = 0;
        loop
            invariant
                self.wf(),
                self@ == s,
                k <= self.chain@.len(),
                cur == if (k as int) < self.chain@.len() {
                    Some(self.chain@[k as int])
                } else {
                    None::<usize>
                },
                prev == if k == 0 {
                    None::<usize>
                } else {
                    Some(self.chain@[k - 1])
                },
                forall|i: int| 0 <= i < k ==> s[i] < node.val,
            ensures
                self.wf(),
                self@ == s,
                k <= self.chain@.len(),
                prev == if k == 0 {
                    None::<usize>
                } else {
                    Some(self.chain@[k - 1])
                },
                forall|i: int| 0 <= i < k ==> s[i] < node.val,
                (k as int) < s.len() ==> s[k as int] >= node.val,
            decreases self.chain@.len() - k,
        {
            match cur {
                None => {
                    break;
                },
                Some(c) => {
                    assert(self.chain@[k as int] < self.nodes@.len());
                    if self.nodes[c].val < node.val {
                        assert(self.nodes@[self.chain@[k as int] as int].next == self.succ(k as int));
                        prev = cur;
                        cur = self.nodes[c].next;
                        k = k + 1;
                    } else {
                        break;
                    }
                },
            }
        }
        proof {
            crate::lemma_insert_pos(s, node.val, k as int);
        }
        let ghost v = node.val;
        match prev {
            None => {
                self.push_front(node);
                assert(seq![v] + s =~= s.insert(0, v));
            },
            Some(p) => {
                self.splice_after(p, node, Ghost(k - 1));
            },
        }
        proof {
            if crate::sorted(s) {
                crate::lemma_insert_keeps_sorted(s, v, k as int);
            }
        }
    }

    /// Detaches the head node and hands back its value; `None` on an empty list.
    pub fn take_first(&mut self) -> (r: Option<i32>)
        requires
            old(self).wf(),
        ensures
            final(self).wf(),
            old(self)@.len() == 0 ==> r is None && final(self)@ == old(self)@,
            old(self)@.len() > 0 ==> r == Some(old(self)@[0]) && final(self)@ == old(self)@.drop_first(),
    {
        match self.start {
            None => None,
            Some(h) => {
                let ghost c = self.chain@;
                assert(c[0] < self.nodes@.len());
                assert(self.nodes@[c[0] as int].next == self.succ(0));
                let v = self.nodes[h].val;
                self.start = self.nodes[h].next;
                if self.start.is_none() {
                    self.end = None;
                }
                self.length = self.length - 1;
                self.chain = Ghost(c.drop_first());
                proof {
                    let c2 = self.chain@;
                    assert forall|k: int| 0 <= k < c2.len() implies #[trigger] c2[k] < self.nodes@.len() by {
                        assert(c2[k] == c[k + 1]);
                    }
                    assert forall|k: int| 0 <= k < c2.len() implies self.nodes@[#[trigger] c2[k] as int].next == self.succ(k) by {
                        assert(c2[k] == c[k + 1]);
                        assert(self.nodes@[c[k + 1] as int].next == if k + 2 < c.len() { Some(c[k + 2]) } else { None });
                    }
                    assert(c2.no_duplicates()) by {
                        assert forall|i: int, j: int| 0 <= i < c2.len() && 0 <= j < c2.len() && i != j implies c2[i] != c2[j] by {
                            assert(c2[i] == c[i + 1]);
                            assert(c2[j] == c[j + 1]);
                        }
                    }
                    assert(self@ =~= old(self)@.drop_first());
                }
                Some(v)
            },
        }
    }

    /// Moves every node of `list_b`, front first, into `list_a` by sorted
    /// insertion. On a sorted `list_a` the result is the sorted union of both.
    pub fn merge(list_a: LinkedList<i32>, list_b: LinkedList<i32>) -> (r: Self)
        requires
            list_a.wf(),
            list_b.wf(),
            list_a@.len() + list_b@.len() <= u32::MAX,
        ensures
            r.wf(),
            r@.len() == list_a@.len() + list_b@.len(),
            r@.to_multiset() == list_a@.to_multiset().add(list_b@.to_multiset()),
            crate::sorted(list_a@) ==> crate::sorted(r@),
    {
        broadcast use vstd::seq_lib::group_to_multiset_ensures, vstd::multiset::group_multiset_axioms;
        let mut list_a = list_a;
        let mut list_b = list_b;
        let ghost total = list_a@.to_multiset().add(list_b@.to_multiset());
        let ghost a_sorted = crate::sorted(list_a@);
        let ghost n = list_a@.len() + list_b@.len();
        loop
            invariant
                list_a.wf(),
                list_b.wf(),
                list_a@.len() + list_b@.len() == n,
                list_a@.len() + list_b@.len() <= u32::MAX,
                list_a@.to_multiset().add(list_b@.to_multiset()) == total,
                a_sorted ==> crate::sorted(list_a@),
            ensures
                list_a.wf(),
                list_a@.len() == n,
                list_a@.to_multiset() == total,
                a_sorted ==> crate::sorted(list_a@),
            decreases list_b@.len(),
        {
            let ghost b0 = list_b@;
            let ghost a0 = list_a@;
            match list_b.take_first() {
                None => {
                    proof {
                        assert(list_b@.len() == 0);
                        list_b@.to_multiset_ensures();
                        assert forall|a: i32| list_b@.to_multiset().count(a) == 0 by {
                            assert(!list_b@.contains(a));
                        }
                        assert(list_b@.to_multiset() =~= vstd::multiset::Multiset::empty());
                        assert(list_a@.to_multiset().add(list_b@.to_multiset()) =~= list_a@.to_multiset());
                    }
                    break;
                },
                Some(v) => {
                    proof {
                        crate::lemma_insert_pos_bounds(a0, v);
                    }
                    list_a.insert_sorted(Node::new(v));
                    proof {
                        vstd::seq_lib::to_multiset_insert(a0, crate::insert_pos(a0, v), v);
                        assert(b0.drop_first() =~= b0.remove(0));
                        vstd::seq_lib::to_multiset_remove(b0, 0);
                        assert(b0.contains(v));
                        b0.to_multiset_ensures();
                        assert(b0.to_multiset().count(v) > 0);
                        assert(list_a@.to_multiset() == a0.to_multiset().insert(v));
                        assert(list_b@.to_multiset() == b0.to_multiset().remove(v));
                        assert(list_a@.to_multiset().add(list_b@.to_multiset()) =~= a0.to_multiset().add(b0.to_multiset()));
                    }
                },
            }
        }
        list_a
    }
}

} // verus!
