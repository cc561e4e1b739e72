//! Doubly linked list whose nodes live in an arena and link to each other by slot.
use vstd::prelude::*;

verus! {

/// One arena cell: a value and the slots of the nodes after and before it.
pub struct Node<T> {
    pub val: T,
    pub next: Option<usize>,
    pub prev: Option<usize>,
}

impl<T> Node<T> {
    pub fn new(t: T) -> (r: Node<T>)
        ensures
            r.val == t,
            r.next is None,
            r.prev is None,
    {
        Node { val: t, next: None, prev: None }
    }
}

/// A doubly linked list. `chain` lists, from head to tail, the arena slots that
/// hold the list's nodes; slots outside it are dead and never reached.
pub struct LinkedList<T> {
    length: u32,
    start: Option<usize>,
    end: Option<usize>,
    nodes: Vec<Node<T>>,
    chain: Ghost<Seq<usize>>,
}

/// The slot that follows position `k` of the chain `c`, if any.
spec fn succ_of(c: Seq<usize>, k: int) -> Option<usize> {
    if k + 1 < c.len() {
        Some(c[k + 1])
    } else {
        None
    }
}

/// The slot that precedes position `k` of the chain `c`, if any.
spec fn pred_of(c: Seq<usize>, k: int) -> Option<usize> {
    if k > 0 {
        Some(c[k - 1])
    } else {
        None
    }
}

/// The slots of `c` are distinct cells of `nodes`, each linked to its
/// neighbours in `c` both ways.
spec fn linked<T>(c: Seq<usize>, nodes: Seq<Node<T>>) -> bool {
    &&& c.no_duplicates()
    &&& forall|k: int| 0 <= k < c.len() ==> #[trigger] c[k] < nodes.len()
    &&& forall|k: int| 0 <= k < c.len() ==> nodes[#[trigger] c[k] as int].next == succ_of(c, k)
    &&& forall|k: int| 0 <= k < c.len() ==> nodes[#[trigger] c[k] as int].prev == pred_of(c, k)
}

/// Linking a fresh cell `slot` right after position `k` of the chain keeps it linked.
proof fn lemma_splice<T>(c: Seq<usize>, n0: Seq<Node<T>>, n1: Seq<Node<T>>, k: int, slot: usize, v: T)
    requires
        linked(c, n0),
        0 <= k < c.len(),
        slot == n0.len(),
        n1.len() == n0.len() + 1,
        n1[slot as int] == (Node { val: v, next: succ_of(c, k), prev: Some(c[k]) }),
        n1[c[k] as int] == (Node { val: n0[c[k] as int].val, next: Some(slot), prev: n0[c[k] as int].prev }),
        k + 1 < c.len() ==> n1[c[k + 1] as int] == (Node {
            val: n0[c[k + 1] as int].val,
            next: n0[c[k + 1] as int].next,
            prev: Some(slot),
        }),
        forall|x: int|
            0 <= x < n0.len() && x != c[k] && (k + 1 < c.len() ==> x != c[k + 1]) ==> #[trigger] n1[x]
                == n0[x],
    ensures
        linked(c.insert(k + 1, slot), n1),
        c.insert(k + 1, slot).map_values(|s: usize| n1[s as int].val) == c.map_values(
            |s: usize| n0[s as int].val,
        ).insert(k + 1, v),
{
    let c2 = c.insert(k + 1, slot);
    assert forall|i: int| 0 <= i < c2.len() && i != k + 1 implies c2[i] == c[if i < k + 1 { i } else { i - 1 }] && c2[i] < n0.len() by {
        assert(c[if i < k + 1 { i } else { i - 1 }] < n0.len());
    }
    assert forall|i: int| 0 <= i < c2.len() implies #[trigger] c2[i] < n1.len() by {}
    assert forall|i: int, j: int| 0 <= i < c2.len() && 0 <= j < c2.len() && i != j implies c2[i] != c2[j] by {}
    assert forall|i: int| 0 <= i < c2.len() implies n1[#[trigger] c2[i] as int].next == succ_of(c2, i) by {
        if i != k + 1 {
            let j = if i < k + 1 { i } else { i - 1 };
            assert(n0[c[j] as int].next == succ_of(c, j));
            if j != k && j != k + 1 {
                assert(n1[c[j] as int] == n0[c[j] as int]);
            }
        }
    }
    assert forall|i: int| 0 <= i < c2.len() implies n1[#[trigger] c2[i] as int].prev == pred_of(c2, i) by {
        if i != k + 1 {
            let j = if i < k + 1 { i } else { i - 1 };
            assert(n0[c[j] as int].prev == pred_of(c, j));
            if j != k && j != k + 1 {
                assert(n1[c[j] as int] == n0[c[j] as int]);
            }
        }
    }
    assert(c2.map_values(|s: usize| n1[s as int].val) =~= c.map_values(|s: usize| n0[s as int].val).insert(k + 1, v)) by {
        assert forall|i: int| 0 <= i < c2.len() && i != k + 1 implies n1[c2[i] as int].val == n0[c2[i] as int].val by {
            let j = if i < k + 1 { i } else { i - 1 };
            if j != k && j != k + 1 {
                assert(n1[c[j] as int] == n0[c[j] as int]);
            }
        }
    }
}

/// Swapping both links of every node of a linked chain links the reversed chain.
proof fn lemma_reversed<T>(c: Seq<usize>, n0: Seq<Node<T>>, n1: Seq<Node<T>>)
    requires
        linked(c, n0),
        n1.len() == n0.len(),
        forall|j: int| 0 <= j < c.len() ==> #[trigger] n1[c[j] as int] == (Node {
            val: n0[c[j] as int].val,
            next: n0[c[j] as int].prev,
            prev: n0[c[j] as int].next,
        }),
    ensures
        linked(c.reverse(), n1),
        c.reverse().map_values(|s: usize| n1[s as int].val) == c.map_values(
            |s: usize| n0[s as int].val,
        ).reverse(),
{
    let n = c.len() as int;
    let c2 = c.reverse();
    assert forall|i: int| 0 <= i < n implies #[trigger] c2[i] == c[n - 1 - i] && c[n - 1 - i] < n0.len() by {}
    assert(c2.no_duplicates()) by {
        assert forall|i: int, j: int| 0 <= i < n && 0 <= j < n && i != j implies c2[i] != c2[j] by {
            assert(c2[i] == c[n - 1 - i]);
            assert(c2[j] == c[n - 1 - j]);
        }
    }
    assert forall|i: int| 0 <= i < n implies n1[#[trigger] c2[i] as int].next == succ_of(c2, i) by {
        assert(c2[i] == c[n - 1 - i]);
        assert(n0[c[n - 1 - i] as int].prev == pred_of(c, n - 1 - i));
    }
    assert forall|i: int| 0 <= i < n implies n1[#[trigger] c2[i] as int].prev == pred_of(c2, i) by {
        assert(c2[i] == c[n - 1 - i]);
        assert(n0[c[n - 1 - i] as int].next == succ_of(c, n - 1 - i));
    }
    assert(c2.map_values(|s: usize| n1[s as int].val) =~= c.map_values(|s: usize| n0[s as int].val).reverse()) by {
        assert forall|i: int| 0 <= i < n implies n1[c2[i] as int].val == n0[c[n - 1 - i] as int].val by {
            assert(c2[i] == c[n - 1 - i]);
        }
    }
}

impl<T> View for LinkedList<T> {
    type V = Seq<T>;

    closed spec fn view(&self) -> Seq<T> {
        self.chain@.map_values(|s: usize| self.nodes@[s as int].val)
    }
}

impl<T> LinkedList<T> {
    closed spec fn succ(&self, k: int) -> Option<usize> {
        succ_of(self.chain@, k)
    }

    closed spec fn pred(&self, k: int) -> Option<usize> {
        pred_of(self.chain@, k)
    }

    /// The length counts the chain; head and tail are its ends; every slot
    /// of the chain is a distinct arena cell linked to its neighbours.
    pub closed spec fn wf(&self) -> bool {
        let c = self.chain@;
        &&& c.len() == self.length as nat
        &&& linked(c, self.nodes@)
        &&& self.start == if c.len() == 0 {
            None::<usize>
        } else {
            Some(c[0])
        }
        &&& self.end == if c.len() == 0 {
            None::<usize>
        } else {
            Some(c[c.len() - 1])
        }
    }

    /// The arena slot of the node at position `i`.
    pub closed spec fn slot_at(&self, i: int) -> usize {
        self.chain@[i]
    }

    /// An empty list.
    pub fn new() -> (r: Self)
        ensures
            r.wf(),
            r@ == Seq::<T>::empty(),
    {
        let r = LinkedList { length: 0, start: None, end: None, nodes: Vec::new(), chain: Ghost(Seq::empty()) };
        assert(r@ =~= Seq::<T>::empty());
        r
    }

    /// Number of nodes in the list.
    pub fn len(&self) -> (r: u32)
        requires
            self.wf(),
        ensures
            r as nat == self@.len(),
    {
        self.length
    }

    /// Appends `obj` after the tail.
    pub fn add(&mut self, obj: T)
        requires
            old(self).wf(),
            old(self)@.len() < u32::MAX,
        ensures
            final(self).wf(),
            final(self)@ == old(self)@.push(obj),
    {
        self.push_back(Node::new(obj));
    }

    /// Links `node` after the tail; whatever link it carried is dropped.
    pub fn push_back(&mut self, node: Node<T>)
        requires
            old(self).wf(),
            old(self)@.len() < u32::MAX,
        ensures
            final(self).wf(),
            final(self)@ == old(self)@.push(node.val),
    {
        let ghost c = self.chain@;
        let ghost nodes0 = self.nodes@;
        let slot = self.nodes.len();
        self.nodes.push(Node { val: node.val, next: None, prev: self.end });
        match self.end {
            None => {
                self.start = Some(slot);
            },
            Some(e) => {
                self.nodes[e].next = Some(slot);
            },
        }
        self.end = Some(slot);
        self.length = self.length + 1;
        self.chain = Ghost(c.push(slot));
        proof {
            let c2 = self.chain@;
            assert forall|k: int| 0 <= k < c2.len() implies #[trigger] c2[k] < self.nodes@.len() by {
                if k < c.len() {
                    assert(c[k] < nodes0.len());
                }
            }
            assert forall|k: int| 0 <= k < c.len() implies self.nodes@[#[trigger] c[k] as int]
                == if k == c.len() - 1 { Node { val: nodes0[c[k] as int].val, next: Some(slot), prev: nodes0[c[k] as int].prev } }
                   else { nodes0[c[k] as int] } by {
                assert(c[k] < nodes0.len());
                if k < c.len() - 1 {
                    assert(c[k] != c[c.len() - 1]);
                }
            }
            assert forall|k: int| 0 <= k < c2.len() implies self.nodes@[#[trigger] c2[k] as int].next == self.succ(k) by {
                if k < c.len() {
                    assert(c2[k] == c[k]);
                    assert(nodes0[c[k] as int].next == if k + 1 < c.len() { Some(c[k + 1]) } else { None });
                }
            }
            assert forall|k: int| 0 <= k < c2.len() implies self.nodes@[#[trigger] c2[k] as int].prev == self.pred(k) by {
                if k < c.len() {
                    assert(c2[k] == c[k]);
                    assert(nodes0[c[k] as int].prev == if k > 0 { Some(c[k - 1]) } else { None });
                }
            }
            assert(c2.no_duplicates()) by {
                assert forall|i: int, j: int| 0 <= i < c2.len() && 0 <= j < c2.len() && i != j implies c2[i] != c2[j] by {
                    if i < c.len() {
                        assert(c[i] < nodes0.len());
                    }
                    if j < c.len() {
                        assert(c[j] < nodes0.len());
                    }
                }
            }
            assert(self@ =~= old(self)@.push(node.val));
        }
    }

    /// Links `node` before the head.
    pub fn push_front(&mut self, node: Node<T>)
        requires
            old(self).wf(),
            old(self)@.len() < u32::MAX,
        ensures
            final(self).wf(),
            final(self)@ == seq![node.val] + old(self)@,
    {
        let ghost c = self.chain@;
        let ghost nodes0 = self.nodes@;
        let slot = self.nodes.len();
        self.nodes.push(Node { val: node.val, next: self.start, prev: None });
        match self.start {
            None => {
                self.end = Some(slot);
            },
            Some(h) => {
                assert(c[0] < nodes0.len());
                self.nodes[h].prev = Some(slot);
            },
        }
        self.start = Some(slot);
        self.length = self.length + 1;
        self.chain = Ghost(seq![slot] + c);
        proof {
            let c2 = self.chain@;
            assert forall|k: int| 0 <= k < c2.len() implies #[trigger] c2[k] < self.nodes@.len() by {
                if k > 0 {
                    assert(c2[k] == c[k - 1]);
                    assert(c[k - 1] < nodes0.len());
                }
            }
            assert forall|k: int| 0 <= k < c2.len() implies self.nodes@[#[trigger] c2[k] as int].next == self.succ(k) by {
                if k > 0 {
                    assert(c2[k] == c[k - 1]);
                    assert(c[k - 1] < nodes0.len());
                    assert(nodes0[c[k - 1] as int].next == if k < c.len() { Some(c[k]) } else { None });
                }
            }
            assert forall|k: int| 0 <= k < c2.len() implies self.nodes@[#[trigger] c2[k] as int].prev == self.pred(k) by {
                if k > 1 {
                    assert(c2[k] == c[k - 1]);
                    assert(c[k - 1] < nodes0.len());
                    assert(c[k - 1] != c[0]);
                    assert(nodes0[c[k - 1] as int].prev == Some(c[k - 2]));
                }
            }
            assert(c2.no_duplicates()) by {
                assert forall|i: int, j: int| 0 <= i < c2.len() && 0 <= j < c2.len() && i != j implies c2[i] != c2[j] by {
                    if i > 0 {
                        assert(c[i - 1] < nodes0.len());
                    }
                    if j > 0 {
                        assert(c[j - 1] < nodes0.len());
                    }
                }
            }
            assert(self@ =~= seq![node.val] + old(self)@) by {
                assert forall|i: int| 0 < i < c2.len() implies self.nodes@[c2[i] as int].val
                    == nodes0[c[i - 1] as int].val by {
                    assert(c[i - 1] < nodes0.len());
                }
            }
        }
    }

    /// Slot of the node `index` steps after the head, walking the chain.
    fn get_ith_node_raw(&self, index: u32) -> (r: Option<usize>)
        requires
            self.wf(),
        ensures
            r == if (index as int) < self@.len() {
                Some(self.slot_at(index as int))
            } else {
                None::<usize>
            },
    {
        let mut cur = self.start;
        let mut k: u32 = 0;
        while k < index
            invariant
                self.wf(),
                k <= index,
                cur == if (k as int) < self.chain@.len() {
                    Some(self.chain@[k as int])
                } else {
                    None::<usize>
                },
            decreases index - k,
        {
            match cur {
                None => {
                    return None;
                },
                Some(s) => {
                    assert(self.nodes@[self.chain@[k as int] as int].next == self.succ(k as int));
                    cur = self.nodes[s].next;
                    k = k + 1;
                },
            }
        }
        cur
    }

    /// Arena slot of the node at `index`, or `None` when `index` is negative
    /// or not below the length.
    pub fn get_raw(&self, index: i32) -> (r: Option<usize>)
        requires
            self.wf(),
        ensures
            r == if 0 <= index < self@.len() {
                Some(self.slot_at(index as int))
            } else {
                None::<usize>
            },
    {
        if index < 0 {
            None
        } else {
            self.get_ith_node_raw(index as u32)
        }
    }

    /// Value at `index`, or `None` when `index` is negative or not below the length.
    pub fn get(&self, index: i32) -> (r: Option<&T>)
        requires
            self.wf(),
        ensures
            r.is_some() == (0 <= index < self@.len()),
            r.is_some() ==> *r.unwrap() == self@[index as int],
    {
        match self.get_raw(index) {
            None => None,
            Some(s) => {
                assert(self.chain@[index as int] < self.nodes@.len());
                Some(&self.nodes[s].val)
            },
        }
    }

    /// Links `node` right after the node at chain position `k`, held in slot `p`.
    fn splice_after(&mut self, p: usize, node: Node<T>, Ghost(k): Ghost<int>)
        requires
            old(self).wf(),
            old(self)@.len() < u32::MAX,
            0 <= k < old(self)@.len(),
            p == old(self).slot_at(k),
        ensures
            final(self).wf(),
            final(self)@ == old(self)@.insert(k + 1, node.val),
    {
        let ghost c = self.chain@;
        let ghost nodes0 = self.nodes@;
        let slot = self.nodes.len();
        assert(c[k] < nodes0.len());
        let after = self.nodes[p].next;
        self.nodes.push(Node { val: node.val, next: after, prev: Some(p) });
        self.nodes[p].next = Some(slot);
        match after {
            None => {},
            Some(a) => {
                assert(c[k + 1] < nodes0.len());
                self.nodes[a].prev = Some(slot);
            },
        }
        if self.end == Some(p) {
            self.end = Some(slot);
        }
        self.length = self.length + 1;
        self.chain = Ghost(c.insert(k + 1, slot));
        proof {
            if k + 1 < c.len() {
                assert(c[k + 1] != p);
            }
            if k < c.len() - 1 {
                assert(c[c.len() - 1] != p);
            }
            lemma_splice(c, nodes0, self.nodes@, k, slot, node.val);
        }
    }

    /// Links `node` so that it stands at position `index`. Returns false, and
    /// leaves the list unchanged, when `index` is negative or beyond the length.
    pub fn insert(&mut self, node: Node<T>, index: i32) -> (r: bool)
        requires
            old(self).wf(),
            old(self)@.len() < u32::MAX,
        ensures
            final(self).wf(),
            r == (0 <= index <= old(self)@.len()),
            r ==> final(self)@ == old(self)@.insert(index as int, node.val),
            !r ==> final(self)@ == old(self)@,
    {
        if index < 0 || index as i64 > self.length as i64 {
            false
        } else if index == 0 {
            self.push_front(node);
            assert(seq![node.val] + old(self)@ =~= old(self)@.insert(0, node.val));
            true
        } else if index as i64 == self.length as i64 {
            self.push_back(node);
            assert(old(self)@.push(node.val) =~= old(self)@.insert(index as int, node.val));
            true
        } else {
            match self.get_raw(index - 1) {
                Some(p) => {
                    self.splice_after(p, node, Ghost((index - 1) as int));
                    true
                },
                None => false,
            }
        }
    }
}

impl<T> LinkedList<T> {
    /// Reverses the list in place: every node trades its forward and
    /// backward links, and head and tail trade places. Lists shorter than
    /// two nodes are left as they are.
    pub fn reverse(&mut self)
        requires
            old(self).wf(),
        ensures
            final(self).wf(),
            final(self)@ == old(self)@.reverse(),
    {
        if self.length < 2 {
            assert(self@ =~= self@.reverse());
            return;
        }
        let ghost c = self.chain@;
        let ghost nodes0 = self.nodes@;
        let ghost n = c.len();
        let first = self.start;
        let mut current = self.start;
        let mut k: u32 = 0;
        while k < self.length
            invariant
                self.chain@ == c,
                c.len() == n,
                self.end == Some(c[n - 1]),
                first == Some(c[0]),
                self.length as nat == n,
                linked(c, nodes0),
                self.nodes@.len() == nodes0.len(),
                k <= n,
                current == succ_of(c, k - 1),
                forall|j: int| 0 <= j < k ==> #[trigger] self.nodes@[c[j] as int] == (Node {
                    val: nodes0[c[j] as int].val,
                    next: nodes0[c[j] as int].prev,
                    prev: nodes0[c[j] as int].next,
                }),
                forall|j: int| k <= j < n ==> #[trigger] self.nodes@[c[j] as int] == nodes0[c[j] as int],
            decreases n - k,
        {
            let ghost before = self.nodes@;
            assert(c[k as int] < nodes0.len());
            let cur = current.unwrap();
            let next = self.nodes[cur].next;
            let prev = self.nodes[cur].prev;
            self.nodes[cur].next = prev;
            self.nodes[cur].prev = next;
            current = next;
            proof {
                assert(nodes0[c[k as int] as int].next == succ_of(c, k as int));
                assert forall|j: int| 0 <= j < n && j != k implies c[j] != c[k as int] by {}
                assert forall|j: int| 0 <= j < k + 1 implies #[trigger] self.nodes@[c[j] as int] == (Node {
                    val: nodes0[c[j] as int].val,
                    next: nodes0[c[j] as int].prev,
                    prev: nodes0[c[j] as int].next,
                }) by {
                    if j < k {
                        assert(self.nodes@[c[j] as int] == before[c[j] as int]);
                    }
                }
                assert forall|j: int| k + 1 <= j < n implies #[trigger] self.nodes@[c[j] as int] == nodes0[c[j] as int] by {
                    assert(self.nodes@[c[j] as int] == before[c[j] as int]);
                }
            }
            k = k + 1;
        }
        self.start = self.end;
        self.end = first;
        self.chain = Ghost(c.reverse());
        proof {
            lemma_reversed(c, nodes0, self.nodes@);
            assert(self@ =~= old(self)@.reverse());
        }
    }
}

/// Reversing twice gives back the original sequence, and a sequence of
/// fewer than two values is its own reverse.
pub proof fn reverse_involution<T>(s: Seq<T>)
    ensures
        s.reverse().reverse() == s,
        s.len() < 2 ==> s.reverse() == s,
{
    assert(s.reverse().reverse() =~= s);
    if s.len() < 2 {
        assert(s.reverse() =~= s);
    }
}

impl LinkedList<i32> {
    /// Links `node` after every element below its value and before the
    /// first one that is not; on a sorted list the result stays sorted.
    pub fn insert_sorted(&mut self, node: Node<i32>)
        requires
            old(self).wf(),
            old(self)@.len() < u32::MAX,
        ensures
            final(self).wf(),
            final(self)@ == old(self)@.insert(crate::insert_pos(old(self)@, node.val), node.val),
            crate::sorted(old(self)@) ==> crate::sorted(final(self)@),
    {
        let ghost s = self@;
        let mut prev: Option<usize> = None;
        let mut cur = self.start;
        let mut k: u32 = 0;
        loop
            invariant
                self.wf(),
                self@ == s,
                k <= self.chain@.len(),
                cur == if (k as int) < self.chain@.len() {
                    Some(self.chain@[k as int])
                } else {
                    None::<usize>
                },
                prev == if k == 0 {
                    None::<usize>
                } else {
                    Some(self.chain@[k - 1])
                },
                forall|i: int| 0 <= i < k ==> s[i] < node.val,
            ensures
                self.wf(),
                self@ == s,
                k <= self.chain@.len(),
                prev == if k == 0 {
                    None::<usize>
                } else {
                    Some(self.chain@[k - 1])
                },
                forall|i: int| 0 <= i < k ==> s[i] < node.val,
                (k as int) < s.len() ==> s[k as int] >= node.val,
            decreases self.chain@.len() - k,
        {
            match cur {
                None => {
                    break;
                },
                Some(c) => {
                    assert(self.chain@[k as int] < self.nodes@.len());
                    if self.nodes[c].val < node.val {
                        assert(self.nodes@[self.chain@[k as int] as int].next == self.succ(k as int));
                        prev = cur;
                        cur = self.nodes[c].next;
                        k = k + 1;
                    } else {
                        break;
                    }
                },
            }
        }
        proof {
            crate::lemma_insert_pos(s, node.val, k as int);
        }
        let ghost v = node.val;
        match prev {
            None => {
                self.push_front(node);
                assert(seq![v] + s =~= s.insert(0, v));
            },
            Some(p) => {
                self.splice_after(p, node, Ghost(k - 1));
            },
        }
        proof {
            if crate::sorted(s) {
                crate::lemma_insert_keeps_sorted(s, v, k as int);
            }
        }
    }

    /// Detaches the head node and hands back its value; `None` on an empty list.
    pub fn take_first(&mut self) -> (r: Option<i32>)
        requires
            old(self).wf(),
        ensures
            final(self).wf(),
            old(self)@.len() == 0 ==> r is None && final(self)@ == old(self)@,
            old(self)@.len() > 0 ==> r == Some(old(self)@[0]) && final(self)@ == old(self)@.drop_first(),
    {
        match self.start {
            None => None,
            Some(h) => {
                let ghost c = self.chain@;
                let ghost nodes0 = self.nodes@;
                assert(c[0] < self.nodes@.len());
                assert(self.nodes@[c[0] as int].next == self.succ(0));
                let v = self.nodes[h].val;
                self.start = self.nodes[h].next;
                match self.start {
                    None => {
                        self.end = None;
                    },
                    Some(h2) => {
                        assert(c[1] < self.nodes@.len());
                        self.nodes[h2].prev = None;
                    },
                }
                self.length = self.length - 1;
                self.chain = Ghost(c.drop_first());
                proof {
                    let c2 = self.chain@;
                    assert forall|k: int| 0 <= k < c2.len() implies #[trigger] c2[k] < self.nodes@.len() by {
                        assert(c2[k] == c[k + 1]);
                    }
                    assert forall|k: int| 0 <= k < c2.len() implies self.nodes@[#[trigger] c2[k] as int].next == self.succ(k) by {
                        assert(c2[k] == c[k + 1]);
                        assert(nodes0[c[k + 1] as int].next == if k + 2 < c.len() { Some(c[k + 2]) } else { None });
                    }
                    assert forall|k: int| 0 <= k < c2.len() implies self.nodes@[#[trigger] c2[k] as int].prev == self.pred(k) by {
                        assert(c2[k] == c[k + 1]);
                        if k > 0 {
                            assert(c[k + 1] != c[1]);
                            assert(nodes0[c[k + 1] as int].prev == Some(c[k]));
                        }
                    }
                    assert(c2.no_duplicates()) by {
                        assert forall|i: int, j: int| 0 <= i < c2.len() && 0 <= j < c2.len() && i != j implies c2[i] != c2[j] by {
                            assert(c2[i] == c[i + 1]);
                            assert(c2[j] == c[j + 1]);
                        }
                    }
                    assert(self@ =~= old(self)@.drop_first()) by {
                        assert forall|i: int| 0 <= i < c2.len() implies self.nodes@[c2[i] as int].val
                            == nodes0[c[i + 1] as int].val by {
                            assert(c[i + 1] < nodes0.len());
                        }
                    }
                }
                Some(v)
            },
        }
    }
}

} // verus!
