use vstd::prelude::*;

verus! {

/// A node of a singly linked chain that owns its successor.
#[derive(Debug)]
pub struct LinkedList1 {
    pub value: i64,
    pub next: Option<Box<LinkedList1>>,
}

/// The values of the chain that `link` leads to, in order.
pub open spec fn chain_view(link: Option<Box<LinkedList1>>) -> Seq<i64>
    decreases link,
{
    match link {
        Some(node) => seq![node.value] + chain_view(node.next),
        None => Seq::empty(),
    }
}

impl LinkedList1 {
    /// The values of the chain that starts at this node, in order.
    pub open spec fn view(&self) -> Seq<i64> {
        seq![self.value] + chain_view(self.next)
    }

    /// A node holding `value` in front of `next`.
    pub fn new(value: i64, next: Option<Box<LinkedList1>>) -> (r: Self)
        ensures
            r.value == value,
            r.next == next,
            r@ == seq![value] + chain_view(next),
    {
        LinkedList1 { value, next }
    }

    /// A boxed node holding `value` in front of `next`.
    pub fn new_box(value: i64, next: Option<Box<LinkedList1>>) -> (r: Box<Self>)
        ensures
            r.value == value,
            r.next == next,
            r@ == seq![value] + chain_view(next),
    {
        Box::new(LinkedList1 { value, next })
    }

    /// The value of this node.
    pub fn value(&self) -> (r: i64)
        ensures
            r == self.value,
            r == self@[0],
    {
        self.value
    }

    /// Replaces the value of this node.
    pub fn set_value(&mut self, value: i64)
        ensures
            final(self).value == value,
            final(self).next == old(self).next,
            final(self)@ == old(self)@.update(0, value),
    {
        self.value = value;
        proof {
            assert(self@ =~= old(self)@.update(0, value));
        }
    }

    /// The node after this one, if any.
    pub fn next(&self) -> (r: Option<&Self>)
        ensures
            r is Some == self.next is Some,
            r is Some ==> *r.unwrap() == *self.next.unwrap(),
            r is Some ==> r.unwrap()@ == self@.drop_first(),
    {
        match &self.next {
            Some(b) => {
                proof {
                    assert(self@.drop_first() =~= b@);
                }
                Some(&**b)
            },
            None => None,
        }
    }

    /// Puts `next` after this node and returns the chain that stood there.
    pub fn set_next(&mut self, next: Option<Box<LinkedList1>>) -> (r: Option<Box<LinkedList1>>)
        ensures
            final(self).value == old(self).value,
            final(self).next == next,
            r == old(self).next,
    {
        let mut next = next;
        std::mem::swap(&mut self.next, &mut next);
        next
    }

    /// A cursor over the values of the chain that starts at this node.
    pub fn iter(&self) -> (it: IterLinkedList1<'_>)
        ensures
            it@ == self@,
    {
        IterLinkedList1 { cursor: Some(self) }
    }

    /// The last node of the chain that starts at this node, for writing. What
    /// is written there becomes the end of this chain.
    fn tail_mut(&mut self) -> (r: &mut Self)
        ensures
            r.next is None,
            r.value == old(self)@.last(),
            final(self)@ == old(self)@.drop_last() + final(r)@,
    {
        let mut cur = self;
        let ghost mut k: int = 0;
        while cur.next.is_some()
            invariant
                0 <= k < old(self)@.len(),
                cur@ == old(self)@.skip(k),
                final(self)@ == old(self)@.take(k) + final(cur)@,
            decreases cur@.len(),
        {
            let ghost before = *cur;
            let ghost prior = *final(cur);
            cur = &mut **cur.next.as_mut().unwrap();
            proof {
                assert(cur@ =~= before@.drop_first());
                assert(old(self)@.skip(k + 1) =~= old(self)@.skip(k).drop_first());
                assert(prior@ =~= seq![before.value] + final(cur)@);
                assert(before@[0] == old(self)@.skip(k)[0]);
                assert(old(self)@.take(k + 1) =~= old(self)@.take(k) + seq![before.value]);
                k = k + 1;
            }
        }
        proof {
            assert(cur@ =~= seq![cur.value]);
            assert(old(self)@.skip(k)[0] == old(self)@[k]);
        }
        cur
    }

    /// Puts the chain `item` right after this node, ahead of the nodes that
    /// followed it.
    pub fn insert_into(&mut self, item: LinkedList1)
        ensures
            final(self)@ == seq![old(self).value] + item@ + chain_view(old(self).next),
    {
        let newnext = Box::new(item);
        self.insert(newnext);
    }

    /// Puts the chain `item` right after this node, ahead of the nodes that
    /// followed it.
    pub fn insert(&mut self, item: Box<LinkedList1>)
        ensures
            final(self)@ == seq![old(self).value] + item@ + chain_view(old(self).next),
    {
        let mut oldnext = Some(item);
        std::mem::swap(&mut self.next, &mut oldnext);
        let ghost mid = *self;
        let tail = self.tail_mut();
        tail.next = oldnext;
        proof {
            assert(mid@ =~= seq![old(self).value] + item@);
            assert(mid@.drop_last() + seq![mid@.last()] =~= mid@);
        }
    }

    /// Puts the chain `item` right after this node. Without `chain`, the
    /// nodes that followed are handed back whole. With `chain`, only the node
    /// that followed is handed back, detached, and the nodes after it go on
    /// at the end of `item`.
    pub fn replace(&mut self, item: Box<LinkedList1>, chain: bool) -> (r: Option<Box<LinkedList1>>)
        ensures
            !chain ==> r == old(self).next && final(self)@ == seq![old(self).value] + item@,
            chain && old(self)@.len() == 1 ==> r is None && final(self)@ == seq![old(self).value] + item@,
            chain && old(self)@.len() > 1 ==> {
                &&& r is Some
                &&& r.unwrap().value == old(self)@[1]
                &&& r.unwrap().next is None
                &&& final(self)@ == seq![old(self).value] + item@ + old(self)@.skip(2)
            },
    {
        let mut oldnext = Some(item);
        std::mem::swap(&mut self.next, &mut oldnext);
        proof {
            assert(self@ =~= seq![old(self).value] + item@);
        }
        if chain {
            let ghost mid = *self;
            let tail = self.tail_mut();
            match oldnext {
                Some(mut oldnext_val) => {
                    let rest = oldnext_val.next.take();
                    tail.next = rest;
                    proof {
                        assert(mid@.drop_last() + seq![mid@.last()] =~= mid@);
                        assert(old(self)@.skip(2) =~= chain_view(rest));
                    }
                    Some(oldnext_val)
                },
                None => None,
            }
        } else {
            oldnext
        }
    }

    /// Puts the chain `item` after the last node of this chain.
    pub fn append(&mut self, item: Box<LinkedList1>)
        ensures
            final(self)@ == old(self)@ + item@,
    {
        self.tail_mut().insert(item);
        proof {
            assert(old(self)@.drop_last() + seq![old(self)@.last()] =~= old(self)@);
        }
    }

    /// Detaches the node right after this one and returns it; `None` when
    /// this node is the last.
    pub fn remove_next(&mut self) -> (r: Option<Box<LinkedList1>>)
        ensures
            final(self).value == old(self).value,
            old(self)@.len() == 1 ==> r is None && final(self)@ == old(self)@,
            old(self)@.len() > 1 ==> {
                &&& r is Some
                &&& r.unwrap().value == old(self)@[1]
                &&& r.unwrap().next is None
                &&& final(self)@ == old(self)@.remove(1)
            },
    {
        let ret = self.next.take();
        match ret {
            Some(mut r) => {
                let ret_next = r.next.take();
                self.next = ret_next;
                proof {
                    assert(self@ =~= old(self)@.remove(1));
                }
                Some(r)
            },
            None => None,
        }
    }

    /// The values of the chain that starts at this node, in order.
    pub fn to_vec(&self) -> (r: Vec<i64>)
        ensures
            r@ == self@,
    {
        let mut r: Vec<i64> = Vec::new();
        let mut it = self.iter();
        loop
            invariant
                r@ + it@ == self@,
            ensures
                r@ == self@,
            decreases it@.len(),
        {
            match it.next() {
                Some(v) => r.push(v),
                None => {
                    assert(r@ =~= r@ + it@);
                    break;
                },
            }
            proof {
                assert(r@ + it@ =~= self@);
            }
        }
        r
    }

    /// The last node of the chain that starts at this node.
    pub fn tail(&self) -> (r: &Self)
        ensures
            r.next is None,
            r.value == self@.last(),
    {
        let mut cur = self;
        while cur.next.is_some()
            invariant
                self@.len() >= cur@.len(),
                self@.last() == cur@.last(),
            decreases cur@.len(),
        {
            match &cur.next {
                Some(b) => cur = &**b,
                None => {},
            }
        }
        cur
    }
}

/// A cursor over the values of a chain, from front to back.
pub struct IterLinkedList1<'a> {
    cursor: Option<&'a LinkedList1>,
}

impl<'a> IterLinkedList1<'a> {
    /// The values that have not come out yet.
    pub closed spec fn view(&self) -> Seq<i64> {
        match self.cursor {
            Some(node) => node@,
            None => Seq::empty(),
        }
    }

    /// The next value; `None` after the last one.
    pub fn next(&mut self) -> (r: Option<i64>)
        ensures
            old(self)@.len() == 0 ==> r is None && final(self)@ == old(self)@,
            old(self)@.len() > 0 ==> r == Some(old(self)@[0]) && final(self)@ == old(self)@.drop_first(),
    {
        match self.cursor {
            Some(node) => {
                self.cursor = match &node.next {
                    Some(b) => Some(&**b),
                    None => None,
                };
                proof {
                    assert(self@ =~= old(self)@.drop_first());
                }
                Some(node.value)
            },
            None => None,
        }
    }
}

/// Frees the chain after a node one node at a time: each successor is
/// detached from its own successor before it goes, so no drop recurses down
/// the chain, however long it is.
impl Drop for LinkedList1 {
    fn drop(&mut self)
        opens_invariants none
        no_unwind
    {
        let mut link: Option<Box<LinkedList1>> = None;
        std::mem::swap(&mut self.next, &mut link);
        loop
            decreases chain_view(link).len(),
        {
            let ghost len_before = chain_view(link).len();
            match link {
                Some(mut node) => {
                    let mut rest: Option<Box<LinkedList1>> = None;
                    std::mem::swap(&mut node.next, &mut rest);
                    proof {
                        assert(len_before == chain_view(rest).len() + 1);
                    }
                    link = rest;
                },
                None => break,
            }
        }
    }
}

/// A chain of boxed nodes, or nothing.
pub enum List {
    First(Box<LinkedList1>),
    Empty,
}

impl List {
    /// The values of the chain, in order; empty for `Empty`.
    pub open spec fn view(&self) -> Seq<i64> {
        match self {
            List::First(node) => node@,
            List::Empty => Seq::empty(),
        }
    }

    /// A list holding the values of `slice`, in order, built by appending
    /// them one at a time, each append walking to the end of the chain.
    pub fn new_slow(slice: &[i64]) -> (l: Self)
        ensures
            l@ == slice@,
    {
        if slice.len() == 0 {
            return List::Empty;
        }
        let mut first = LinkedList1::new_box(slice[0], None);
        let mut i: usize = 1;
        while i < slice.len()
            invariant
                1 <= i <= slice@.len(),
                first@ == slice@.take(i as int),
            decreases slice@.len() - i,
        {
            first.append(LinkedList1::new_box(slice[i], None));
            i = i + 1;
            proof {
                assert(first@ =~= slice@.take(i as int));
            }
        }
        proof {
            assert(slice@.take(i as int) =~= slice@);
        }
        List::First(first)
    }

    /// A list holding the values of `slice`, in order, built front to back
    /// with a cursor on the empty link at the end of the chain.
    pub fn new_bad(slice: &[i64]) -> (l: Self)
        ensures
            l@ == slice@,
    {
        let mut head: Option<Box<LinkedList1>> = None;
        let mut cur = &mut head;
        let mut i: usize = 0;
        while i < slice.len()
            invariant
                0 <= i <= slice@.len(),
                *cur is None,
                chain_view(after_borrow(head)) == slice@.take(i as int) + chain_view(*final(cur)),
            decreases slice@.len() - i,
        {
            *cur = Some(LinkedList1::new_box(slice[i], None));
            let ghost step = *final(cur);
            cur = &mut cur.as_mut().unwrap().next;
            proof {
                assert(chain_view(step) =~= seq![slice@[i as int]] + chain_view(*final(cur)));
                assert(slice@.take(i + 1) =~= slice@.take(i as int) + seq![slice@[i as int]]);
            }
            i = i + 1;
        }
        proof {
            assert(slice@.take(i as int) + chain_view(*final(cur)) =~= slice@);
        }
        match head {
            Some(first) => List::First(first),
            None => List::Empty,
        }
    }

    /// A list holding the values of `slice`, in order, built from the last
    /// value to the first.
    pub fn new(slice: &[i64]) -> (l: Self)
        ensures
            l@ == slice@,
    {
        let mut cur: Option<Box<LinkedList1>> = None;
        let mut i: usize = slice.len();
        while i > 0
            invariant
                0 <= i <= slice@.len(),
                chain_view(cur) == slice@.skip(i as int),
            decreases i,
        {
            i = i - 1;
            let new = LinkedList1::new_box(slice[i], cur);
            proof {
                assert(slice@.skip(i as int) =~= seq![slice@[i as int]] + slice@.skip(i + 1));
            }
            cur = Some(new);
        }
        proof {
            assert(slice@.skip(0) =~= slice@);
        }
        match cur {
            Some(list) => List::First(list),
            None => List::Empty,
        }
    }

    /// Adds `value` after the last value.
    pub fn add_item(&mut self, value: i64)
        ensures
            final(self)@ == old(self)@.push(value),
    {
        let new = LinkedList1::new_box(value, None);
        match self {
            List::First(list) => {
                let tail = list.tail_mut();
                tail.next = Some(new);
                proof {
                    assert(old(self)@.drop_last() + seq![old(self)@.last(), value] =~= old(self)@.push(value));
                }
            },
            List::Empty => {
                *self = List::First(new);
                proof {
                    assert(self@ =~= old(self)@.push(value));
                }
            },
        }
    }

    /// The last node, for writing; `None` for `Empty`. What is written there
    /// becomes the end of this list.
    pub fn tail_mut(&mut self) -> (r: Option<&mut LinkedList1>)
        ensures
            old(self)@.len() == 0 ==> r is None && *final(self) == *old(self),
            old(self)@.len() > 0 ==> {
                &&& r is Some
                &&& r.unwrap().next is None
                &&& r.unwrap().value == old(self)@.last()
                &&& final(self)@ == old(self)@.drop_last() + final(r.unwrap())@
            },
    {
        match self {
            List::First(list) => Some(list.tail_mut()),
            List::Empty => None,
        }
    }

    /// Adds copies of the values of `other` after the last value.
    pub fn concat_copy(&mut self, other: &Self)
        ensures
            final(self)@ == old(self)@ + other@,
    {
        match other {
            List::First(list) => {
                let array = list.to_vec();
                let mut cur: Option<LinkedList1> = None;
                let mut i: usize = array.len();
                while i > 0
                    invariant
                        0 <= i <= array@.len(),
                        array@ == list@,
                        match cur {
                            Some(node) => node@ == array@.skip(i as int),
                            None => i == array@.len(),
                        },
                    decreases i,
                {
                    i = i - 1;
                    let next = match cur {
                        Some(node) => Some(Box::new(node)),
                        None => None,
                    };
                    proof {
                        assert(chain_view(next) =~= array@.skip(i + 1));
                        assert(array@.skip(i as int) =~= seq![array@[i as int]] + array@.skip(i + 1));
                    }
                    cur = Some(LinkedList1::new(array[i], next));
                }
                let boxval = match cur {
                    Some(node) => Some(Box::new(node)),
                    None => None,
                };
                proof {
                    assert(array@.skip(0) =~= array@);
                    assert(chain_view(boxval) == other@);
                }
                match self {
                    List::First(self_list) => {
                        let tail = self_list.tail_mut();
                        tail.next = boxval;
                        proof {
                            assert(old(self)@.drop_last() + (seq![old(self)@.last()] + other@) =~= old(self)@ + other@);
                        }
                    },
                    List::Empty => {
                        match boxval {
                            Some(v) => {
                                *self = List::First(v);
                                proof {
                                    assert(self@ =~= old(self)@ + other@);
                                }
                            },
                            None => {},
                        }
                    },
                }
            },
            List::Empty => {
                proof {
                    assert(old(self)@ + other@ =~= old(self)@);
                }
            },
        }
    }

    /// The values, in order.
    pub fn to_vec(&self) -> (r: Vec<i64>)
        ensures
            r@ == self@,
    {
        match self {
            List::First(list) => list.to_vec(),
            List::Empty => Vec::new(),
        }
    }
}

} // verus!
