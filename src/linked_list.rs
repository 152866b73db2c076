use vstd::prelude::*;

use crate::model::{popped_back, popped_front, pushed_back, pushed_front};

verus! {

/// One element of the list, stored in the list's arena. `next` and `prev` are
/// arena indices of the neighbouring nodes; they never own anything.
struct Node<T> {
    element: T,
    next: Option<usize>,
    prev: Option<usize>,
}

impl<T> Node<T> {
    fn new(element: T) -> (r: Node<T>)
        ensures
            r.element == element,
            r.next is None,
            r.prev is None,
    {
        Node { element, next: None, prev: None }
    }
}

/// A doubly linked list whose nodes live in an arena owned by the list.
///
/// The arena holds exactly the live nodes: removing a node moves the last
/// arena slot into the freed one, so nothing is ever left behind.
pub struct LinkedList<T> {
    nodes: Vec<Node<T>>,
    head: Option<usize>,
    tail: Option<usize>,
    len: usize,
    /// Arena index of the node at each position, front to back.
    order: Ghost<Seq<usize>>,
    /// Position in the chain of the node at each arena index.
    pos: Ghost<Seq<int>>,
}

/// The chain `order` of arena slots is correctly linked in `nodes`, from
/// `head` to `tail`.
spec fn linked<T>(nodes: Seq<Node<T>>, order: Seq<usize>, head: Option<usize>, tail: Option<usize>) -> bool {
    &&& forall|i: int| 0 <= i < order.len() ==> (#[trigger] order[i] as int) < nodes.len()
    &&& head == (if order.len() == 0 { None } else { Some(order[0]) })
    &&& tail == (if order.len() == 0 { None } else { Some(order.last()) })
    &&& forall|i: int| 0 <= i < order.len() ==> (#[trigger] nodes[order[i] as int]).next == (
        if i + 1 < order.len() { Some(order[i + 1]) } else { None })
    &&& forall|i: int| 0 <= i < order.len() ==> (#[trigger] nodes[order[i] as int]).prev == (
        if i > 0 { Some(order[i - 1]) } else { None })
}

/// `pos` inverts `order` on every arena slot but `hole` (pass a slot at or
/// beyond the arena's end to require it on every slot).
spec fn indexed(order: Seq<usize>, pos: Seq<int>, slots: nat, hole: int) -> bool {
    &&& pos.len() == slots
    &&& forall|i: int| 0 <= i < order.len() ==> #[trigger] pos[order[i] as int] == i
    &&& forall|k: int| 0 <= k < slots && k != hole ==> 0 <= #[trigger] pos[k] < order.len()
        && order[pos[k]] == k
}

impl<T> LinkedList<T> {
    /// The elements of the list, front to back.
    pub closed spec fn view(&self) -> Seq<T> {
        Seq::new(self.order@.len(), |i: int| self.nodes@[self.order@[i] as int].element)
    }

    /// The list's invariant: a well-linked chain through every arena slot.
    pub closed spec fn wf(&self) -> bool {
        &&& linked(self.nodes@, self.order@, self.head, self.tail)
        &&& self.order@.len() == self.nodes@.len()
        &&& self.len == self.nodes@.len()
        &&& indexed(self.order@, self.pos@, self.nodes@.len(), self.nodes@.len() as int)
    }

    /// The number of nodes the list holds in its arena.
    pub closed spec fn arena_len(&self) -> nat {
        self.nodes@.len()
    }

    /// The arena slot of the node at position `i` of the chain.
    pub closed spec fn slot_at(&self, i: int) -> int {
        self.order@[i] as int
    }

    /// The position in the chain of the node in arena slot `k`.
    pub closed spec fn position_of(&self, k: int) -> int {
        self.pos@[k]
    }

    /// Every node the arena holds sits at exactly one position of the chain,
    /// and every position is held by a node of the arena: the list owns all
    /// of its nodes and nothing else, and dropping it reclaims each of them.
    pub proof fn lemma_nodes_owned(&self)
        requires
            self.wf(),
        ensures
            self.arena_len() == self@.len(),
            forall|i: int| 0 <= i < self@.len() ==> 0 <= #[trigger] self.slot_at(i) < self.arena_len(),
            forall|i: int, j: int|
                0 <= i < self@.len() && 0 <= j < self@.len() && i != j ==> #[trigger] self.slot_at(i)
                    != #[trigger] self.slot_at(j),
            forall|k: int|
                0 <= k < self.arena_len() ==> 0 <= #[trigger] self.position_of(k) < self@.len() && self.slot_at(
                    self.position_of(k),
                ) == k,
    {
        assert forall|i: int, j: int|
            0 <= i < self@.len() && 0 <= j < self@.len() && i != j implies #[trigger] self.slot_at(i)
                != #[trigger] self.slot_at(j) by {
            assert(self.pos@[self.order@[i] as int] == i);
            assert(self.pos@[self.order@[j] as int] == j);
        }
    }

    /// An empty list.
    pub fn new() -> (r: LinkedList<T>)
        ensures
            r.wf(),
            r@ == Seq::<T>::empty(),
    {
        let r = LinkedList {
            nodes: Vec::new(),
            head: None,
            tail: None,
            len: 0,
            order: Ghost(Seq::empty()),
            pos: Ghost(Seq::empty()),
        };
        assert(r@ =~= Seq::<T>::empty());
        r
    }

    /// The number of elements in the list.
    pub fn len(&self) -> (r: usize)
        requires
            self.wf(),
        ensures
            r == self@.len(),
    {
        self.len
    }

    /// Whether the list holds no element.
    pub fn is_empty(&self) -> (r: bool)
        requires
            self.wf(),
        ensures
            r == (self@.len() == 0),
    {
        self.len == 0
    }
    /// Inserts `element` before the first element.
    pub fn push_front(&mut self, element: T)
        requires
            old(self).wf(),
            old(self)@.len() < usize::MAX,
        ensures
            final(self).wf(),
            final(self)@ == pushed_front(old(self)@, element),
    {
        let ghost order = self.order@;
        let ghost pos = self.pos@;
        let k = self.nodes.len();
        let mut node = Node::new(element);
        node.next = self.head;
        self.nodes.push(node);
        match self.head {
            None => {
                self.tail = Some(k);
            },
            Some(h) => {
                self.nodes[h].prev = Some(k);
            },
        }
        self.head = Some(k);
        self.len = self.len + 1;
        self.order = Ghost(seq![k].add(order));
        self.pos = Ghost(Seq::new((k + 1) as nat, |j: int| if j == k { 0 } else { pos[j] + 1 }));
        proof {
            let o = self.order@;
            assert forall|i: int| 0 <= i < o.len() implies (#[trigger] self.nodes@[o[i] as int]).next == (
                if i + 1 < o.len() { Some(o[i + 1]) } else { None }) by {
                if i > 0 {
                    assert(o[i] == order[i - 1]);
                }
            }
            assert forall|i: int| 0 <= i < o.len() implies (#[trigger] self.nodes@[o[i] as int]).prev == (
                if i > 0 { Some(o[i - 1]) } else { None }) by {
                if i > 0 {
                    assert(o[i] == order[i - 1]);
                }
            }
            assert forall|i: int| 0 <= i < o.len() implies #[trigger] self.pos@[o[i] as int] == i by {
                if i > 0 {
                    assert(o[i] == order[i - 1]);
                }
            }
        }
        assert(self@ =~= pushed_front(old(self)@, element));
    }

    /// Inserts `element` after the last element.
    pub fn push_back(&mut self, element: T)
        requires
            old(self).wf(),
            old(self)@.len() < usize::MAX,
        ensures
            final(self).wf(),
            final(self)@ == pushed_back(old(self)@, element),
    {
        let ghost order = self.order@;
        let ghost pos = self.pos@;
        let k = self.nodes.len();
        let mut node = Node::new(element);
        node.prev = self.tail;
        self.nodes.push(node);
        match self.tail {
            None => {
                self.head = Some(k);
            },
            Some(t) => {
                self.nodes[t].next = Some(k);
            },
        }
        self.tail = Some(k);
        self.len = self.len + 1;
        self.order = Ghost(order.push(k));
        self.pos = Ghost(pos.push(k as int));
        proof {
            let o = self.order@;
            assert forall|i: int| 0 <= i < o.len() implies (#[trigger] self.nodes@[o[i] as int]).next == (
                if i + 1 < o.len() { Some(o[i + 1]) } else { None }) by {
                if i < k {
                    assert(o[i] == order[i]);
                }
            }
            assert forall|i: int| 0 <= i < o.len() implies (#[trigger] self.nodes@[o[i] as int]).prev == (
                if i > 0 { Some(o[i - 1]) } else { None }) by {
                if i < k {
                    assert(o[i] == order[i]);
                }
            }
            assert forall|i: int| 0 <= i < o.len() implies #[trigger] self.pos@[o[i] as int] == i by {
                if i < k {
                    assert(o[i] == order[i]);
                }
            }
        }
        assert(self@ =~= pushed_back(old(self)@, element));
    }
    /// Frees arena slot `h`, which the chain no longer passes through, by
    /// moving the arena's last node into it.
    fn release(&mut self, h: usize) -> (r: T)
        requires
            h < old(self).nodes@.len(),
            old(self).len == old(self).nodes@.len(),
            old(self).order@.len() + 1 == old(self).nodes@.len(),
            linked(old(self).nodes@, old(self).order@, old(self).head, old(self).tail),
            indexed(old(self).order@, old(self).pos@, old(self).nodes@.len(), h as int),
            forall|i: int| 0 <= i < old(self).order@.len() ==> #[trigger] old(self).order@[i] != h,
        ensures
            final(self).wf(),
            final(self)@ == old(self)@,
            r == old(self).nodes@[h as int].element,
    {
        let ghost order = self.order@;
        let ghost pos = self.pos@;
        let ghost nodes = self.nodes@;
        let last = self.nodes.len() - 1;
        let ghost q = pos[last as int];
        let node = self.nodes.swap_remove(h);
        if h < last {
            let p = self.nodes[h].prev;
            let n = self.nodes[h].next;
            match p {
                Some(p) => {
                    self.nodes[p].next = Some(h);
                },
                None => {
                    self.head = Some(h);
                },
            }
            match n {
                Some(n) => {
                    self.nodes[n].prev = Some(h);
                },
                None => {
                    self.tail = Some(h);
                },
            }
            self.order = Ghost(order.update(q, h));
            self.pos = Ghost(pos.update(h as int, q).drop_last());
        } else {
            self.pos = Ghost(pos.drop_last());
        }
        self.len = self.len - 1;
        proof {
            let o = self.order@;
            if h < last {
                assert(order[q] == last);
                assert forall|i: int| 0 <= i < o.len() implies (#[trigger] self.nodes@[o[i] as int]).next == (
                    if i + 1 < o.len() { Some(o[i + 1]) } else { None }) by {
                    assert(nodes[order[i] as int].next == (if i + 1 < o.len() { Some(order[i + 1]) } else { None }));
                    if i != q && i + 1 != q {
                        assert(order[i] != last);
                    }
                }
                assert forall|i: int| 0 <= i < o.len() implies (#[trigger] self.nodes@[o[i] as int]).prev == (
                    if i > 0 { Some(o[i - 1]) } else { None }) by {
                    assert(nodes[order[i] as int].prev == (if i > 0 { Some(order[i - 1]) } else { None }));
                    if i != q && i != q + 1 {
                        assert(order[i] != last);
                    }
                }
                assert forall|i: int| 0 <= i < o.len() implies #[trigger] self.pos@[o[i] as int] == i by {
                    if i != q {
                        assert(order[i] != last);
                        assert(pos[order[i] as int] == i);
                    }
                }
                assert forall|k: int| 0 <= k < self.nodes@.len() implies 0 <= #[trigger] self.pos@[k] < o.len()
                    && o[self.pos@[k]] == k by {
                    if k != h {
                        assert(pos[k] != q);
                    }
                }
            } else {
                assert forall|i: int| 0 <= i < o.len() implies (#[trigger] self.nodes@[o[i] as int]).next == (
                    if i + 1 < o.len() { Some(o[i + 1]) } else { None }) by {
                    assert(nodes[order[i] as int].next == (if i + 1 < o.len() { Some(order[i + 1]) } else { None }));
                }
                assert forall|i: int| 0 <= i < o.len() implies (#[trigger] self.nodes@[o[i] as int]).prev == (
                    if i > 0 { Some(o[i - 1]) } else { None }) by {
                    assert(nodes[order[i] as int].prev == (if i > 0 { Some(order[i - 1]) } else { None }));
                }
            }
        }
        assert(self@ =~= old(self)@);
        node.element
    }
    /// Removes and returns the first element; on an empty list, `None`
    /// and no change.
    pub fn pop_front(&mut self) -> (r: Option<T>)
        requires
            old(self).wf(),
        ensures
            final(self).wf(),
            (final(self)@, r) == popped_front(old(self)@),
    {
        match self.head {
            None => {
                assert(self@ =~= Seq::<T>::empty());
                None
            },
            Some(h) => {
                let ghost order = self.order@;
                let ghost pos = self.pos@;
                let ghost before = self@;
                let next = self.nodes[h].next;
                match next {
                    Some(n) => {
                        self.nodes[n].prev = None;
                    },
                    None => {
                        self.tail = None;
                    },
                }
                self.head = next;
                self.order = Ghost(order.drop_first());
                self.pos = Ghost(Seq::new(pos.len(), |k: int| pos[k] - 1));
                proof {
                    let o = self.order@;
                    assert forall|i: int| 0 <= i < o.len() implies #[trigger] o[i] != h by {
                        assert(pos[order[i + 1] as int] == i + 1);
                    }
                    assert forall|i: int| 0 <= i < o.len() implies (#[trigger] self.nodes@[o[i] as int]).next == (
                        if i + 1 < o.len() { Some(o[i + 1]) } else { None }) by {
                        assert(o[i] == order[i + 1]);
                    }
                    assert forall|i: int| 0 <= i < o.len() implies (#[trigger] self.nodes@[o[i] as int]).prev == (
                        if i > 0 { Some(o[i - 1]) } else { None }) by {
                        assert(o[i] == order[i + 1]);
                    }
                    assert forall|i: int| 0 <= i < o.len() implies #[trigger] self.pos@[o[i] as int] == i by {
                        assert(o[i] == order[i + 1]);
                    }
                    assert forall|k: int| 0 <= k < self.nodes@.len() && k != h implies 0 <= #[trigger] self.pos@[k]
                        < o.len() && o[self.pos@[k]] == k by {
                        assert(pos[k] != 0);
                    }
                    assert(self@ =~= before.drop_first());
                }
                let e = self.release(h);
                Some(e)
            },
        }
    }

    /// Removes and returns the last element; on an empty list, `None`
    /// and no change.
    pub fn pop_back(&mut self) -> (r: Option<T>)
        requires
            old(self).wf(),
        ensures
            final(self).wf(),
            (final(self)@, r) == popped_back(old(self)@),
    {
        match self.tail {
            None => {
                assert(self@ =~= Seq::<T>::empty());
                None
            },
            Some(t) => {
                let ghost order = self.order@;
                let ghost pos = self.pos@;
                let ghost before = self@;
                let ghost m = order.len() - 1;
                let prev = self.nodes[t].prev;
                match prev {
                    Some(p) => {
                        self.nodes[p].next = None;
                    },
                    None => {
                        self.head = None;
                    },
                }
                self.tail = prev;
                self.order = Ghost(order.drop_last());
                proof {
                    let o = self.order@;
                    assert forall|i: int| 0 <= i < o.len() implies #[trigger] o[i] != t by {
                        assert(pos[order[i] as int] == i);
                    }
                    assert forall|i: int| 0 <= i < o.len() implies (#[trigger] self.nodes@[o[i] as int]).next == (
                        if i + 1 < o.len() { Some(o[i + 1]) } else { None }) by {
                        assert(o[i] == order[i]);
                    }
                    assert forall|i: int| 0 <= i < o.len() implies (#[trigger] self.nodes@[o[i] as int]).prev == (
                        if i > 0 { Some(o[i - 1]) } else { None }) by {
                        assert(o[i] == order[i]);
                    }
                    assert forall|i: int| 0 <= i < o.len() implies #[trigger] self.pos@[o[i] as int] == i by {
                        assert(o[i] == order[i]);
                    }
                    assert forall|k: int| 0 <= k < self.nodes@.len() && k != t implies 0 <= #[trigger] self.pos@[k]
                        < o.len() && o[self.pos@[k]] == k by {
                        assert(pos[k] != m);
                    }
                    assert(self@ =~= before.drop_last());
                }
                let e = self.release(t);
                Some(e)
            },
        }
    }
    /// A cursor pair over the whole list, front to back.
    pub fn iter(&self) -> (r: Iter<'_, T>)
        requires
            self.wf(),
        ensures
            r.wf(),
            r@ == self@,
    {
        let r = Iter { list: self, head: self.head, tail: self.tail, len: self.len, start: Ghost(0) };
        assert(r@ =~= self@);
        r
    }
}

impl<T> Default for LinkedList<T> {
    fn default() -> (r: Self)
        ensures
            r.wf(),
            r@ == Seq::<T>::empty(),
    {
        Self::new()
    }
}

/// What `o` refers to, if anything.
pub open spec fn deref_opt<T>(o: Option<&T>) -> Option<T> {
    match o {
        Some(e) => Some(*e),
        None => None,
    }
}

/// A read-only cursor pair over a list, driven from either end. The list
/// cannot change while the iterator borrows it.
pub struct Iter<'a, T> {
    list: &'a LinkedList<T>,
    head: Option<usize>,
    tail: Option<usize>,
    len: usize,
    /// Position in the list of the front cursor.
    start: Ghost<int>,
}

impl<'a, T> Iter<'a, T> {
    /// The elements not yet yielded from either end, front to back.
    pub closed spec fn view(&self) -> Seq<T> {
        self.list@.subrange(self.start@, self.start@ + self.len)
    }

    /// The cursors sit on the ends of the remaining run of the list.
    pub closed spec fn wf(&self) -> bool {
        &&& self.list.wf()
        &&& 0 <= self.start@
        &&& self.start@ + self.len <= self.list@.len()
        &&& self.len > 0 ==> self.head == Some(self.list.order@[self.start@])
            && self.tail == Some(self.list.order@[self.start@ + self.len - 1])
    }

    /// Yields the front of what is left; `None` once both ends have met.
    pub fn next(&mut self) -> (r: Option<&'a T>)
        requires
            old(self).wf(),
        ensures
            final(self).wf(),
            (final(self)@, deref_opt(r)) == popped_front(old(self)@),
    {
        if self.len == 0 {
            assert(self@ =~= Seq::<T>::empty());
            None
        } else {
            let ghost before = self@;
            let list: &'a LinkedList<T> = self.list;
            let h = self.head.unwrap();
            let node = &list.nodes[h];
            self.head = node.next;
            self.len = self.len - 1;
            self.start = Ghost(self.start@ + 1);
            assert(self@ =~= before.drop_first());
            Some(&node.element)
        }
    }

    /// Yields the back of what is left; `None` once both ends have met.
    pub fn next_back(&mut self) -> (r: Option<&'a T>)
        requires
            old(self).wf(),
        ensures
            final(self).wf(),
            (final(self)@, deref_opt(r)) == popped_back(old(self)@),
    {
        if self.len == 0 {
            assert(self@ =~= Seq::<T>::empty());
            None
        } else {
            let ghost before = self@;
            let list: &'a LinkedList<T> = self.list;
            let t = self.tail.unwrap();
            let node = &list.nodes[t];
            self.tail = node.prev;
            self.len = self.len - 1;
            assert(self@ =~= before.drop_last());
            Some(&node.element)
        }
    }

    /// The exact number of elements left, as a lower and an upper bound.
    pub fn size_hint(&self) -> (r: (usize, Option<usize>))
        requires
            self.wf(),
        ensures
            r.0 == self@.len(),
            r.1 == Some(self@.len() as usize),
    {
        (self.len, Some(self.len))
    }

    /// The back element of what is left, consuming the iterator.
    pub fn last(self) -> (r: Option<&'a T>)
        requires
            self.wf(),
        ensures
            deref_opt(r) == popped_back(self@).1,
    {
        let mut it = self;
        it.next_back()
    }
}

} // verus!
