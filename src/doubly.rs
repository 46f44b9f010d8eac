use vstd::prelude::*;

verus! {

/// One element of a `List`: its value and the storage slots of its two
/// neighbours. A slot number is the identity of a node: two nodes may hold
/// equal values, never the same slot.
#[derive(Clone, Copy)]
pub struct Node {
    pub value: i64,
    prev: Option<usize>,
    next: Option<usize>,
}

/// A double-ended sequence of `i64`.
///
/// The nodes live in one slot vector owned by the list; `next` and `prev`
/// are slot numbers, so no node owns another and dropping the list frees
/// every node in one flat pass whatever its length.
pub struct List {
    nodes: Vec<Node>,
    first: Option<usize>,
    tail: Option<usize>,
    /// `order[i]` is the slot of the element at position `i`.
    order: Ghost<Seq<usize>>,
    /// `pos[s]` is the position of the element stored in slot `s`.
    pos: Ghost<Seq<int>>,
}

/// The slot that follows position `i` in `order`, if there is one.
spec fn link_after(order: Seq<usize>, i: int) -> Option<usize> {
    if i + 1 < order.len() {
        Some(order[i + 1])
    } else {
        None
    }
}

/// The slot that precedes position `i` in `order`, if there is one.
spec fn link_before(order: Seq<usize>, i: int) -> Option<usize> {
    if i > 0 {
        Some(order[i - 1])
    } else {
        None
    }
}

/// The end links and the node links chain the slots of `order`, in order.
spec fn chained(
    nodes: Seq<Node>,
    order: Seq<usize>,
    first: Option<usize>,
    tail: Option<usize>,
) -> bool {
    &&& first == (if order.len() == 0 { None } else { Some(order[0]) })
    &&& tail == (if order.len() == 0 { None } else { Some(order.last()) })
    &&& forall|i: int| 0 <= i < order.len() ==> (order[i] as int) < nodes.len()
    &&& forall|i: int| #![trigger nodes[order[i] as int]] 0 <= i < order.len() ==> {
        &&& nodes[order[i] as int].next == link_after(order, i)
        &&& nodes[order[i] as int].prev == link_before(order, i)
    }
}

/// `pos` gives back the position of every slot listed in `order`.
spec fn indexes(order: Seq<usize>, pos: Seq<int>) -> bool {
    forall|i: int|
        #![trigger order[i]]
        0 <= i < order.len() ==> (order[i] as int) < pos.len() && pos[order[i] as int] == i
}

/// Every slot but `hole` is listed in `order`, at position `pos[s]`.
spec fn covers(order: Seq<usize>, pos: Seq<int>, hole: int) -> bool {
    forall|s: int|
        #![trigger pos[s]]
        0 <= s < pos.len() && s != hole ==> 0 <= pos[s] < order.len() && order[pos[s]] == s
}

/// The nodes after the node of the last slot has moved into slot `hole`, and
/// its neighbours at positions `j - 1` and `j + 1` point at the new slot.
spec fn relinked(nodes: Seq<Node>, order: Seq<usize>, j: int, hole: int) -> Seq<Node> {
    Seq::new(
        (nodes.len() - 1) as nat,
        |s: int|
            {
                let base = if s == hole { nodes.last() } else { nodes[s] };
                if j > 0 && s == order[j - 1] {
                    Node { next: Some(hole as usize), ..base }
                } else if j + 1 < order.len() && s == order[j + 1] {
                    Node { prev: Some(hole as usize), ..base }
                } else {
                    base
                }
            },
    )
}

/// One position of the chain after `lemma_relinked`'s move.
proof fn lemma_relinked_at(
    nodes: Seq<Node>,
    order: Seq<usize>,
    pos: Seq<int>,
    first: Option<usize>,
    tail: Option<usize>,
    hole: int,
    i: int,
)
    requires
        nodes.len() == order.len() + 1,
        pos.len() == nodes.len(),
        0 <= hole < nodes.len() - 1,
        chained(nodes, order, first, tail),
        indexes(order, pos),
        covers(order, pos, hole),
        forall|k: int| 0 <= k < order.len() ==> order[k] != hole,
        0 <= i < order.len(),
    ensures
        ({
            let last = nodes.len() - 1;
            let j = pos[last];
            let order2 = order.update(j, hole as usize);
            let pos2 = pos.update(hole, j).drop_last();
            let nodes2 = relinked(nodes, order, j, hole);
            &&& (order2[i] as int) < nodes2.len()
            &&& nodes2[order2[i] as int].next == link_after(order2, i)
            &&& nodes2[order2[i] as int].prev == link_before(order2, i)
            &&& nodes2[order2[i] as int].value == nodes[order[i] as int].value
            &&& (order2[i] as int) < pos2.len() && pos2[order2[i] as int] == i
        }),
{
    let last = nodes.len() - 1;
    let j = pos[last];
    assert(order[j] == last);
    assert(pos[order[i] as int] == i);
    if i > 0 {
        assert(pos[order[i - 1] as int] == i - 1);
    }
    if i + 1 < order.len() {
        assert(pos[order[i + 1] as int] == i + 1);
    }
    if j > 0 {
        assert(pos[order[j - 1] as int] == j - 1);
    }
    if j + 1 < order.len() {
        assert(pos[order[j + 1] as int] == j + 1);
    }
}

/// Moving the node of the last slot into the free slot `hole` keeps the chain
/// and its values, with `hole` in place of the last slot.
proof fn lemma_relinked(
    nodes: Seq<Node>,
    order: Seq<usize>,
    pos: Seq<int>,
    first: Option<usize>,
    tail: Option<usize>,
    hole: int,
)
    requires
        nodes.len() == order.len() + 1,
        pos.len() == nodes.len(),
        0 <= hole < nodes.len() - 1,
        chained(nodes, order, first, tail),
        indexes(order, pos),
        covers(order, pos, hole),
        forall|i: int| 0 <= i < order.len() ==> order[i] != hole,
    ensures
        ({
            let last = nodes.len() - 1;
            let j = pos[last];
            let order2 = order.update(j, hole as usize);
            let pos2 = pos.update(hole, j).drop_last();
            let nodes2 = relinked(nodes, order, j, hole);
            let first2 = if j == 0 { Some(hole as usize) } else { first };
            let tail2 = if j == order.len() - 1 { Some(hole as usize) } else { tail };
            &&& chained(nodes2, order2, first2, tail2)
            &&& indexes(order2, pos2)
            &&& covers(order2, pos2, -1)
            &&& forall|i: int| #![trigger order2[i]] 0 <= i < order2.len()
                ==> nodes2[order2[i] as int].value == nodes[order[i] as int].value
        }),
{
    let last = nodes.len() - 1;
    let j = pos[last];
    let order2 = order.update(j, hole as usize);
    let pos2 = pos.update(hole, j).drop_last();
    let nodes2 = relinked(nodes, order, j, hole);
    assert(order[j] == last);
    assert forall|i: int| #![trigger order2[i]] 0 <= i < order2.len() implies {
        &&& (order2[i] as int) < nodes2.len()
        &&& nodes2[order2[i] as int].next == link_after(order2, i)
        &&& nodes2[order2[i] as int].prev == link_before(order2, i)
        &&& nodes2[order2[i] as int].value == nodes[order[i] as int].value
        &&& (order2[i] as int) < pos2.len() && pos2[order2[i] as int] == i
    } by {
        lemma_relinked_at(nodes, order, pos, first, tail, hole, i);
    }
    assert forall|s: int| #![trigger pos2[s]] 0 <= s < pos2.len() && s != -1 implies
        0 <= pos2[s] < order2.len() && order2[pos2[s]] == s by {
        if s != hole {
            assert(order[pos[s]] == s);
        }
    }
}

impl List {
    /// The well-formedness of a list: every slot holds exactly one element,
    /// and the links chain the elements from `first` to `tail`.
    pub closed spec fn wf(&self) -> bool {
        &&& self.order@.len() == self.nodes@.len()
        &&& self.pos@.len() == self.nodes@.len()
        &&& chained(self.nodes@, self.order@, self.first, self.tail)
        &&& indexes(self.order@, self.pos@)
        &&& covers(self.order@, self.pos@, -1)
    }

    /// The values, from the first element to the last.
    pub closed spec fn view(&self) -> Seq<i64> {
        Seq::new(self.order@.len(), |i: int| self.nodes@[self.order@[i] as int].value)
    }

    /// The list holds no node, and both of its end links are empty.
    pub closed spec fn is_fresh(&self) -> bool {
        &&& self.nodes@.len() == 0
        &&& self.first is None
        &&& self.tail is None
    }

    /// An empty list.
    pub fn new() -> (l: Self)
        ensures
            l.wf(),
            l@ == Seq::<i64>::empty(),
            l.is_fresh(),
    {
        List { nodes: Vec::new(), first: None, tail: None, order: Ghost(Seq::empty()), pos: Ghost(Seq::empty()) }
    }

    /// Points the `next` link of slot `s` at `to`.
    fn link_next(&mut self, s: usize, to: Option<usize>)
        requires
            s < old(self).nodes@.len(),
        ensures
            final(self).nodes@ == old(self).nodes@.update(s as int, Node { next: to, ..old(self).nodes@[s as int] }),
            final(self).first == old(self).first,
            final(self).tail == old(self).tail,
            final(self).order == old(self).order,
            final(self).pos == old(self).pos,
    {
        let mut node = self.nodes[s];
        node.next = to;
        self.nodes.set(s, node);
    }

    /// Points the `prev` link of slot `s` at `to`.
    fn link_prev(&mut self, s: usize, to: Option<usize>)
        requires
            s < old(self).nodes@.len(),
        ensures
            final(self).nodes@ == old(self).nodes@.update(s as int, Node { prev: to, ..old(self).nodes@[s as int] }),
            final(self).first == old(self).first,
            final(self).tail == old(self).tail,
            final(self).order == old(self).order,
            final(self).pos == old(self).pos,
    {
        let mut node = self.nodes[s];
        node.prev = to;
        self.nodes.set(s, node);
    }

    /// Adds `value` after the last element.
    pub fn append(&mut self, value: i64)
        requires
            old(self).wf(),
        ensures
            final(self).wf(),
            final(self)@ == old(self)@.push(value),
    {
        let slot = self.nodes.len();
        let ghost old_order = self.order@;
        let ghost n = old_order.len();
        match self.tail {
            None => {
                self.nodes.push(Node { value, prev: None, next: None });
                self.first = Some(slot);
            },
            Some(t) => {
                self.nodes.push(Node { value, prev: Some(t), next: None });
                self.link_next(t, Some(slot));
            },
        }
        self.tail = Some(slot);
        self.order = Ghost(old_order.push(slot));
        self.pos = Ghost(self.pos@.push(n as int));
        proof {
            let order = self.order@;
            assert forall|i: int| #![trigger order[i]] 0 <= i < order.len() implies {
                &&& (order[i] as int) < self.nodes@.len()
                &&& self.nodes@[order[i] as int].next == link_after(order, i)
                &&& self.nodes@[order[i] as int].prev == link_before(order, i)
            } by {
                if i < n {
                    assert(old_order[i] == order[i]);
                }
            }
            assert(self@ =~= old(self)@.push(value));
        }
    }
    /// Adds `value` before the first element.
    pub fn insert_first(&mut self, value: i64)
        requires
            old(self).wf(),
        ensures
            final(self).wf(),
            final(self)@ == seq![value] + old(self)@,
    {
        let slot = self.nodes.len();
        let ghost old_order = self.order@;
        let ghost old_pos = self.pos@;
        let ghost n = old_order.len();
        match self.first {
            None => {
                self.nodes.push(Node { value, prev: None, next: None });
                self.tail = Some(slot);
            },
            Some(f) => {
                self.nodes.push(Node { value, prev: None, next: Some(f) });
                self.link_prev(f, Some(slot));
            },
        }
        self.first = Some(slot);
        self.order = Ghost(seq![slot] + old_order);
        self.pos = Ghost(Seq::new(n + 1, |s: int| if s == n { 0 } else { old_pos[s] + 1 }));
        proof {
            let order = self.order@;
            let pos = self.pos@;
            assert forall|i: int| #![trigger order[i]] 0 <= i < order.len() implies {
                &&& (order[i] as int) < self.nodes@.len()
                &&& self.nodes@[order[i] as int].next == link_after(order, i)
                &&& self.nodes@[order[i] as int].prev == link_before(order, i)
                &&& (order[i] as int) < pos.len() && pos[order[i] as int] == i
            } by {
                if i > 0 {
                    assert(old_order[i - 1] == order[i]);
                    if i + 1 < order.len() {
                        assert(old_order[i] == order[i + 1]);
                    }
                    if i > 1 {
                        assert(old_order[i - 2] == order[i - 1]);
                    }
                }
            }
            assert forall|s: int| #![trigger pos[s]] 0 <= s < pos.len() && s != -1 implies
                0 <= pos[s] < order.len() && order[pos[s]] == s by {
                if s < n {
                    assert(old_order[old_pos[s]] == s);
                }
            }
            assert(self@ =~= seq![value] + old(self)@);
        }
    }

    /// Frees slot `hole`, which the chain no longer lists, by moving the node
    /// of the last slot into it and pointing its neighbours at the new slot.
    fn release(&mut self, hole: usize)
        requires
            old(self).nodes@.len() == old(self).order@.len() + 1,
            old(self).pos@.len() == old(self).nodes@.len(),
            hole < old(self).nodes@.len(),
            chained(old(self).nodes@, old(self).order@, old(self).first, old(self).tail),
            indexes(old(self).order@, old(self).pos@),
            covers(old(self).order@, old(self).pos@, hole as int),
            forall|i: int| 0 <= i < old(self).order@.len() ==> old(self).order@[i] != hole,
        ensures
            final(self).wf(),
            final(self)@ == old(self)@,
    {
        let last = self.nodes.len() - 1;
        let ghost order = self.order@;
        let ghost pos = self.pos@;
        let ghost nodes = self.nodes@;
        self.nodes.swap_remove(hole);
        if hole == last {
            self.pos = Ghost(pos.drop_last());
            proof {
                let nodes2 = self.nodes@;
                assert forall|i: int| #![trigger order[i]] 0 <= i < order.len() implies {
                    &&& (order[i] as int) < nodes2.len()
                    &&& nodes2[order[i] as int] == nodes[order[i] as int]
                } by {
                    assert(pos[order[i] as int] == i);
                }
                assert(self@ =~= old(self)@);
            }
        } else {
            let moved = self.nodes[hole];
            let ghost j = pos[last as int];
            proof {
                assert(order[j] == last);
                assert(moved.next == link_after(order, j));
                assert(moved.prev == link_before(order, j));
                if j > 0 {
                    assert(pos[order[j - 1] as int] == j - 1);
                }
                if j + 1 < order.len() {
                    assert(pos[order[j + 1] as int] == j + 1);
                }
            }
            match moved.prev {
                Some(p) => self.link_next(p, Some(hole)),
                None => self.first = Some(hole),
            }
            match moved.next {
                Some(q) => self.link_prev(q, Some(hole)),
                None => self.tail = Some(hole),
            }
            self.order = Ghost(order.update(j, hole));
            self.pos = Ghost(pos.update(hole as int, j).drop_last());
            proof {
                assert(self.nodes@ =~= relinked(nodes, order, j, hole as int));
                lemma_relinked(nodes, order, pos, old(self).first, old(self).tail, hole as int);
                assert(self@ =~= old(self)@);
            }
        }
    }

    /// Removes the last element and returns its value; `None` on an empty
    /// list, which is then left as it was.
    pub fn pop_tail(&mut self) -> (r: Option<i64>)
        requires
            old(self).wf(),
        ensures
            final(self).wf(),
            old(self)@.len() == 0 ==> r is None && final(self)@ == old(self)@,
            old(self)@.len() > 0 ==> r == Some(old(self)@.last()) && final(self)@ == old(self)@.drop_last(),
            final(self)@.len() == 0 ==> final(self).is_fresh(),
    {
        match self.tail {
            None => None,
            Some(t) => {
                let ghost order = self.order@;
                let ghost n = order.len();
                let node = self.nodes[t];
                proof {
                    assert(node.prev == link_before(order, n - 1));
                }
                match node.prev {
                    Some(p) => {
                        self.link_next(p, None);
                        self.tail = Some(p);
                    },
                    None => {
                        self.first = None;
                        self.tail = None;
                    },
                }
                self.order = Ghost(order.drop_last());
                proof {
                    let order2 = self.order@;
                    let pos = self.pos@;
                    assert forall|i: int| #![trigger order2[i]] 0 <= i < order2.len() implies
                        self.nodes@[order2[i] as int] == (if i + 2 == n {
                            Node { next: None, ..old(self).nodes@[order[i] as int] }
                        } else {
                            old(self).nodes@[order[i] as int]
                        }) by {
                        assert(order[i] == order2[i]);
                        assert(pos[order[i] as int] == i);
                        assert(pos[order[n - 2] as int] == n - 2);
                    }
                    assert forall|s: int| #![trigger pos[s]] 0 <= s < pos.len() && s != t implies
                        0 <= pos[s] < order2.len() && order2[pos[s]] == s by {
                        assert(order[pos[s]] == s);
                    }
                    assert(old(self)@.drop_last() =~= self@);
                }
                self.release(t);
                Some(node.value)
            },
        }
    }

    /// Removes the first element and returns its value; `None` on an empty
    /// list, which is then left as it was.
    pub fn pop_first(&mut self) -> (r: Option<i64>)
        requires
            old(self).wf(),
        ensures
            final(self).wf(),
            old(self)@.len() == 0 ==> r is None && final(self)@ == old(self)@,
            old(self)@.len() > 0 ==> r == Some(old(self)@[0]) && final(self)@ == old(self)@.drop_first(),
            final(self)@.len() == 0 ==> final(self).is_fresh(),
    {
        match self.first {
            None => None,
            Some(f) => {
                let ghost order = self.order@;
                let ghost pos = self.pos@;
                let ghost n = order.len();
                let node = self.nodes[f];
                proof {
                    assert(node.next == link_after(order, 0));
                }
                match node.next {
                    Some(q) => {
                        self.link_prev(q, None);
                        self.first = Some(q);
                    },
                    None => {
                        self.first = None;
                        self.tail = None;
                    },
                }
                let ghost order2 = order.drop_first();
                let ghost pos2 = Seq::new(pos.len(), |s: int| pos[s] - 1);
                self.order = Ghost(order2);
                self.pos = Ghost(pos2);
                proof {
                    assert forall|i: int| #![trigger order2[i]] 0 <= i < order2.len() implies {
                        &&& self.nodes@[order2[i] as int] == (if i == 0 {
                            Node { prev: None, ..old(self).nodes@[order[i + 1] as int] }
                        } else {
                            old(self).nodes@[order[i + 1] as int]
                        })
                        &&& (order2[i] as int) < pos2.len() && pos2[order2[i] as int] == i
                    } by {
                        assert(order[i + 1] == order2[i]);
                        assert(pos[order[i + 1] as int] == i + 1);
                        assert(pos[order[1] as int] == 1);
                    }
                    assert forall|s: int| #![trigger pos2[s]] 0 <= s < pos2.len() && s != f implies
                        0 <= pos2[s] < order2.len() && order2[pos2[s]] == s by {
                        assert(order[pos[s]] == s);
                        assert(pos[order[0] as int] == 0);
                    }
                    assert(old(self)@.drop_first() =~= self@);
                }
                self.release(f);
                Some(node.value)
            },
        }
    }
    /// A list holding the values of `v`, in order. Every node is set up with
    /// both of its links in one pass over `v`.
    pub fn from_vec(v: &[i64]) -> (l: Self)
        ensures
            l.wf(),
            l@ == v@,
    {
        let n = v.len();
        let mut nodes: Vec<Node> = Vec::with_capacity(n);
        let mut i: usize = 0;
        while i < n
            invariant
                n == v@.len(),
                0 <= i <= n,
                nodes@.len() == i,
                forall|k: int| 0 <= k < i ==> nodes@[k] == (Node {
                    value: v@[k],
                    prev: if k > 0 { Some((k - 1) as usize) } else { None },
                    next: if k + 1 < n { Some((k + 1) as usize) } else { None },
                }),
            decreases n - i,
        {
            let prev = if i > 0 { Some(i - 1) } else { None };
            let next = if i + 1 < n { Some(i + 1) } else { None };
            nodes.push(Node { value: v[i], prev, next });
            i = i + 1;
        }
        let first = if n > 0 { Some(0) } else { None };
        let tail = if n > 0 { Some(n - 1) } else { None };
        let ghost order = Seq::new(n as nat, |k: int| k as usize);
        let ghost pos = Seq::new(n as nat, |k: int| k);
        let l = List { nodes, first, tail, order: Ghost(order), pos: Ghost(pos) };
        proof {
            assert forall|k: int| #![trigger l.nodes@[order[k] as int]] 0 <= k < order.len() implies {
                &&& l.nodes@[order[k] as int].next == link_after(order, k)
                &&& l.nodes@[order[k] as int].prev == link_before(order, k)
            } by {
                assert(order[k] == k);
                if k > 0 {
                    assert(order[k - 1] == k - 1);
                }
                if k + 1 < n {
                    assert(order[k + 1] == k + 1);
                }
            }
            assert(l@ =~= v@);
        }
        l
    }

    /// A list holding the values of `v`, in order, built by appending them
    /// one at a time.
    pub fn slow_from_vec(v: &[i64]) -> (l: Self)
        ensures
            l.wf(),
            l@ == v@,
    {
        let mut l = List::new();
        let mut i: usize = 0;
        while i < v.len()
            invariant
                0 <= i <= v@.len(),
                l.wf(),
                l@ == v@.take(i as int),
            decreases v@.len() - i,
        {
            l.append(v[i]);
            i = i + 1;
            proof {
                assert(l@ =~= v@.take(i as int));
            }
        }
        proof {
            assert(v@.take(v@.len() as int) =~= v@);
        }
        l
    }

    /// Moves the elements of `other` after the last element of this list.
    /// The nodes of the shorter of the two lists are moved into the slots of
    /// the longer one, so the cost follows the shorter list.
    pub fn concat(&mut self, other: List)
        requires
            old(self).wf(),
            other.wf(),
        ensures
            final(self).wf(),
            final(self)@ == old(self)@ + other@,
    {
        if self.nodes.len() >= other.nodes.len() {
            self.append_all(&other);
        } else {
            let mut longer = other;
            longer.prepend_all(self);
            *self = longer;
        }
    }

    /// Appends the values of `other`, walking it from its first node.
    fn append_all(&mut self, other: &List)
        requires
            old(self).wf(),
            other.wf(),
        ensures
            final(self).wf(),
            final(self)@ == old(self)@ + other@,
    {
        let ghost m = other@.len();
        let mut cursor = other.first;
        let ghost mut k: int = 0;
        while cursor.is_some()
            invariant
                self.wf(),
                other.wf(),
                m == other@.len(),
                0 <= k <= m,
                self@ == old(self)@ + other@.take(k),
                cursor == (if k < m { Some(other.order@[k]) } else { None::<usize> }),
            decreases m - k,
        {
            let c = cursor.unwrap();
            let node = other.nodes[c];
            proof {
                assert(other.nodes@[other.order@[k] as int].next == link_after(other.order@, k));
            }
            self.append(node.value);
            cursor = node.next;
            proof {
                k = k + 1;
                assert(self@ =~= old(self)@ + other@.take(k));
            }
        }
        proof {
            assert(other@.take(m as int) =~= other@);
        }
    }

    /// Puts the values of `other` in front, walking it from its last node.
    fn prepend_all(&mut self, other: &List)
        requires
            old(self).wf(),
            other.wf(),
        ensures
            final(self).wf(),
            final(self)@ == other@ + old(self)@,
    {
        let ghost m = other@.len();
        let mut cursor = other.tail;
        let ghost mut k: int = m as int;
        while cursor.is_some()
            invariant
                self.wf(),
                other.wf(),
                m == other@.len(),
                0 <= k <= m,
                self@ == other@.skip(k) + old(self)@,
                cursor == (if k > 0 { Some(other.order@[k - 1]) } else { None::<usize> }),
            decreases k,
        {
            let c = cursor.unwrap();
            let node = other.nodes[c];
            proof {
                assert(other.nodes@[other.order@[k - 1] as int].prev == link_before(other.order@, k - 1));
            }
            self.insert_first(node.value);
            cursor = node.prev;
            proof {
                k = k - 1;
                assert(self@ =~= other@.skip(k) + old(self)@);
            }
        }
        proof {
            assert(other@.skip(0) =~= other@);
        }
    }

    /// The value of the first element; `None` on an empty list.
    pub fn peek_front(&self) -> (r: Option<i64>)
        requires
            self.wf(),
        ensures
            r == (if self@.len() == 0 { None } else { Some(self@[0]) }),
    {
        match self.first {
            Some(f) => Some(self.nodes[f].value),
            None => None,
        }
    }

    /// The value of the last element; `None` on an empty list.
    pub fn peek_end(&self) -> (r: Option<i64>)
        requires
            self.wf(),
        ensures
            r == (if self@.len() == 0 { None } else { Some(self@.last()) }),
    {
        match self.tail {
            Some(t) => Some(self.nodes[t].value),
            None => None,
        }
    }

    /// A cursor pair over the values, one cursor at each end.
    pub fn iter(&self) -> (it: IterList<'_>)
        requires
            self.wf(),
        ensures
            it.wf(),
            it@ == self@,
    {
        let it = IterList { list: self, cursor: self.first, revcursor: self.tail, front: Ghost(0), back: Ghost(self@.len() as int) };
        proof {
            assert(it@ =~= self@);
        }
        it
    }

    /// The values, from the first element to the last.
    pub fn to_vec(&self) -> (r: Vec<i64>)
        requires
            self.wf(),
        ensures
            r@ == self@,
    {
        let mut r: Vec<i64> = Vec::new();
        let mut it = self.iter();
        loop
            invariant
                it.wf(),
                r@ + it@ == self@,
            ensures
                r@ == self@,
            decreases it@.len(),
        {
            match it.next() {
                Some(v) => r.push(v),
                None => {
                    assert(r@ =~= r@ + it@);
                    break;
                },
            }
            proof {
                assert(r@ + it@ =~= self@);
            }
        }
        r
    }

    /// The values, from the last element to the first.
    pub fn to_vec_rev(&self) -> (r: Vec<i64>)
        requires
            self.wf(),
        ensures
            r@ == self@.reverse(),
    {
        let mut r: Vec<i64> = Vec::new();
        let mut it = self.iter();
        loop
            invariant
                it.wf(),
                it@ + r@.reverse() == self@,
            ensures
                r@.reverse() == self@,
            decreases it@.len(),
        {
            match it.next_back() {
                Some(v) => r.push(v),
                None => {
                    assert(r@.reverse() =~= it@ + r@.reverse());
                    break;
                },
            }
            proof {
                assert(it@ + r@.reverse() =~= self@);
            }
        }
        proof {
            assert(r@.reverse().reverse() =~= r@);
            assert(r@ =~= self@.reverse());
        }
        r
    }
}

impl List {
    /// The value stored in slot `s`, for writing in place.
    fn value_mut(&mut self, s: usize) -> (r: &mut i64)
        requires
            s < old(self).nodes@.len(),
        ensures
            *r == old(self).nodes@[s as int].value,
            final(self).nodes@ == old(self).nodes@.update(s as int, Node { value: *final(r), ..old(self).nodes@[s as int] }),
            final(self).first == old(self).first,
            final(self).tail == old(self).tail,
            final(self).order == old(self).order,
            final(self).pos == old(self).pos,
    {
        &mut self.nodes[s].value
    }

    /// A forward cursor that hands out each value for writing in place.
    pub fn iter_mut(&mut self) -> (it: IterListMut<'_>)
        requires
            old(self).wf(),
        ensures
            it.wf(),
            it.list_view() == old(self)@,
            it.position() == 0,
            *final(self) == *final(it.list),
    {
        let cursor = self.first;
        IterListMut { list: self, cursor, at: Ghost(0) }
    }
}

/// A forward cursor over a `List` that hands out each value behind a
/// mutable reference, from the first element to the last.
pub struct IterListMut<'a> {
    /// The list being walked.
    pub list: &'a mut List,
    /// Slot of the node that comes out next.
    pub cursor: Option<usize>,
    /// Position of the cursor.
    pub at: Ghost<int>,
}

impl<'a> IterListMut<'a> {
    pub closed spec fn wf(&self) -> bool {
        &&& self.list.wf()
        &&& 0 <= self.at@ <= self.list@.len()
        &&& self.cursor == (if self.at@ < self.list@.len() { Some(self.list.order@[self.at@]) } else { None })
    }

    /// The values of the list as they stand now.
    pub closed spec fn list_view(&self) -> Seq<i64> {
        (*self.list)@
    }

    /// How many values the cursor has handed out.
    pub closed spec fn position(&self) -> int {
        self.at@
    }

    /// The next value, for writing in place; `None` after the last one.
    pub fn next(&mut self) -> (r: Option<&mut i64>)
        requires
            old(self).wf(),
        ensures
            final(self).wf(),
            *final(final(self).list) == *final(old(self).list),
            old(self).position() == old(self).list_view().len() ==> r is None && *final(self) == *old(self),
            old(self).position() < old(self).list_view().len() ==> {
                &&& r is Some
                &&& *r.unwrap() == old(self).list_view()[old(self).position()]
                &&& final(self).position() == old(self).position() + 1
                &&& final(self).list_view() == old(self).list_view().update(old(self).position(), *final(r.unwrap()))
            },
    {
        match self.cursor {
            None => None,
            Some(c) => {
                let ghost order = self.list.order@;
                let ghost i = self.at@;
                proof {
                    assert(self.list.nodes@[order[i] as int].next == link_after(order, i));
                }
                self.cursor = self.list.nodes[c].next;
                self.at = Ghost(i + 1);
                Some(self.list.value_mut(c))
            },
        }
    }
}

/// A forward cursor and a backward cursor over a `List`. Each produces the
/// values from its end; when the two stand on the same node, that node is
/// the last one to come out from either end.
pub struct IterList<'a> {
    list: &'a List,
    cursor: Option<usize>,
    revcursor: Option<usize>,
    /// Position of the forward cursor.
    front: Ghost<int>,
    /// One past the position of the backward cursor.
    back: Ghost<int>,
}

impl<'a> IterList<'a> {
    pub closed spec fn wf(&self) -> bool {
        &&& self.list.wf()
        &&& 0 <= self.front@ <= self.back@ <= self.list@.len()
        &&& if self.front@ < self.back@ {
            &&& self.cursor == Some(self.list.order@[self.front@])
            &&& self.revcursor == Some(self.list.order@[self.back@ - 1])
        } else {
            &&& self.cursor is None
            &&& self.revcursor is None
        }
    }

    /// The values that neither cursor has produced yet, in list order.
    pub closed spec fn view(&self) -> Seq<i64> {
        self.list@.subrange(self.front@, self.back@)
    }

    /// The next value from the front; `None` once the cursors have met.
    pub fn next(&mut self) -> (r: Option<i64>)
        requires
            old(self).wf(),
        ensures
            final(self).wf(),
            old(self)@.len() == 0 ==> r is None && final(self)@ == old(self)@,
            old(self)@.len() > 0 ==> r == Some(old(self)@[0]) && final(self)@ == old(self)@.drop_first(),
    {
        match self.cursor {
            None => None,
            Some(c) => {
                let list = self.list;
                let ghost order = list.order@;
                let ghost f = self.front@;
                let node = list.nodes[c];
                proof {
                    assert(list.nodes@[order[f] as int].next == link_after(order, f));
                    assert(list.pos@[order[f] as int] == f);
                    assert(list.pos@[order[self.back@ - 1] as int] == self.back@ - 1);
                }
                let met = match self.revcursor {
                    Some(rc) => rc == c,
                    None => false,
                };
                if met {
                    self.cursor = None;
                    self.revcursor = None;
                    self.front = Ghost(self.back@);
                } else {
                    self.cursor = node.next;
                    self.front = Ghost(f + 1);
                }
                proof {
                    assert(self@ =~= old(self)@.drop_first());
                }
                Some(node.value)
            },
        }
    }

    /// The next value from the back; `None` once the cursors have met.
    pub fn next_back(&mut self) -> (r: Option<i64>)
        requires
            old(self).wf(),
        ensures
            final(self).wf(),
            old(self)@.len() == 0 ==> r is None && final(self)@ == old(self)@,
            old(self)@.len() > 0 ==> r == Some(old(self)@.last()) && final(self)@ == old(self)@.drop_last(),
    {
        match self.revcursor {
            None => None,
            Some(c) => {
                let list = self.list;
                let ghost order = list.order@;
                let ghost b = self.back@ - 1;
                let node = list.nodes[c];
                proof {
                    assert(list.nodes@[order[b] as int].prev == link_before(order, b));
                    assert(list.pos@[order[b] as int] == b);
                    assert(list.pos@[order[self.front@] as int] == self.front@);
                }
                let met = match self.cursor {
                    Some(fc) => fc == c,
                    None => false,
                };
                if met {
                    self.cursor = None;
                    self.revcursor = None;
                    self.back = Ghost(self.front@);
                } else {
                    self.revcursor = node.prev;
                    self.back = Ghost(b);
                }
                proof {
                    assert(self@ =~= old(self)@.drop_last());
                }
                Some(node.value)
            },
        }
    }
}

impl Default for List {
    /// An empty list, as `List::new` gives.
    fn default() -> (l: Self)
        ensures
            l.wf(),
            l@ == Seq::<i64>::empty(),
            l.is_fresh(),
    {
        List::new()
    }
}

/// The values of `s` after appending the values of `vs` one at a time, as
/// `List::append` does to a list's view.
pub open spec fn appended(s: Seq<i64>, vs: Seq<i64>) -> Seq<i64>
    decreases vs.len(),
{
    if vs.len() == 0 {
        s
    } else {
        appended(s.push(vs[0]), vs.drop_first())
    }
}

/// The values that popping from the front until the list is empty returns,
/// in the order they come out, as `List::pop_first` gives them.
pub open spec fn popped_front(s: Seq<i64>) -> Seq<i64>
    decreases s.len(),
{
    if s.len() == 0 {
        s
    } else {
        seq![s[0]] + popped_front(s.drop_first())
    }
}

/// The values that popping from the back until the list is empty returns,
/// in the order they come out, as `List::pop_tail` gives them.
pub open spec fn popped_back(s: Seq<i64>) -> Seq<i64>
    decreases s.len(),
{
    if s.len() == 0 {
        s
    } else {
        seq![s.last()] + popped_back(s.drop_last())
    }
}

/// A list read back gives what it was built from: forwards the values
/// themselves, backwards the same values with the last one first.
pub proof fn lemma_round_trip(s: Seq<i64>, l: &List)
    requires
        l.wf(),
        l@ == s,
    ensures
        l@ == s,
        l@.reverse() == s.reverse(),
        l@.reverse().len() == s.len(),
        forall|i: int| 0 <= i < s.len() ==> #[trigger] l@.reverse()[i] == s[s.len() - 1 - i],
{
}

/// Joining lists joins their values: the result of `concat` is the
/// concatenation of the views, whichever side is empty, and joining three
/// lists gives the same values whichever pair is joined first.
pub proof fn lemma_concat(a: Seq<i64>, b: Seq<i64>, c: Seq<i64>)
    ensures
        (a + b).len() == a.len() + b.len(),
        (a + b).subrange(0, a.len() as int) == a,
        (a + b).subrange(a.len() as int, (a.len() + b.len()) as int) == b,
        a + Seq::<i64>::empty() == a,
        Seq::<i64>::empty() + b == b,
        (a + b) + c == a + (b + c),
{
    assert((a + b).subrange(0, a.len() as int) =~= a);
    assert((a + b).subrange(a.len() as int, (a.len() + b.len()) as int) =~= b);
    assert(a + Seq::<i64>::empty() =~= a);
    assert(Seq::<i64>::empty() + b =~= b);
    assert((a + b) + c =~= a + (b + c));
}

/// Appending the values of `vs` to `s` places them after the values of `s`,
/// in order.
pub proof fn lemma_appended(s: Seq<i64>, vs: Seq<i64>)
    ensures
        appended(s, vs) == s + vs,
    decreases vs.len(),
{
    if vs.len() > 0 {
        lemma_appended(s.push(vs[0]), vs.drop_first());
        assert(s.push(vs[0]) + vs.drop_first() =~= s + vs);
    } else {
        assert(s + vs =~= s);
    }
}

/// Popping from the front gives back the values in list order.
pub proof fn lemma_popped_front(s: Seq<i64>)
    ensures
        popped_front(s) == s,
    decreases s.len(),
{
    if s.len() > 0 {
        lemma_popped_front(s.drop_first());
        assert(seq![s[0]] + s.drop_first() =~= s);
    }
}

/// Popping from the back gives back the values in reverse list order.
pub proof fn lemma_popped_back(s: Seq<i64>)
    ensures
        popped_back(s) == s.reverse(),
    decreases s.len(),
{
    if s.len() > 0 {
        lemma_popped_back(s.drop_last());
        assert(seq![s.last()] + s.drop_last().reverse() =~= s.reverse());
    } else {
        assert(s.reverse() =~= s);
    }
}

/// A list built by appending `vs` to an empty list hands the values back in
/// the order they went in when popped from the front, and in the opposite
/// order when popped from the back.
pub proof fn lemma_pop_append_duality(vs: Seq<i64>)
    ensures
        popped_front(appended(Seq::empty(), vs)) == vs,
        popped_back(appended(Seq::empty(), vs)) == vs.reverse(),
{
    lemma_appended(Seq::empty(), vs);
    assert(Seq::<i64>::empty() + vs =~= vs);
    lemma_popped_front(vs);
    lemma_popped_back(vs);
}

/// A list with no values left, whichever end they were popped from, is in
/// the state of a new list: no node stored and both end links empty.
pub proof fn lemma_drained_is_fresh(l: &List)
    requires
        l.wf(),
        l@.len() == 0,
    ensures
        l.is_fresh(),
{
}

} // verus!
