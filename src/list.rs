//! A stack of free block addresses.
//!
//! The addresses are kept in a vector that the list owns, not written into
//! the free blocks themselves, so the list never touches the memory it names.
use vstd::prelude::*;

verus! {

/// A LIFO stack of block addresses; the most recently pushed address is the head.
pub struct List {
    items: Vec<usize>,
}

/// A position reached by `IterMut`: the address found there, which can be
/// removed from the list.
pub struct Node {
    index: usize,
    curr: usize,
}

/// Walks the addresses of a list from the head down.
pub struct Iter<'a> {
    list: &'a List,
    pos: usize,
}

/// Walks the positions of a list from the head down, yielding `Node`s.
pub struct IterMut {
    pos: usize,
}

impl View for List {
    type V = Seq<usize>;

    /// The addresses from the oldest to the head.
    closed spec fn view(&self) -> Seq<usize> {
        self.items@
    }
}

impl List {
    pub fn new() -> (r: List)
        ensures
            r@ == Seq::<usize>::empty(),
    {
        List { items: Vec::new() }
    }

    pub fn is_empty(&self) -> (r: bool)
        ensures
            r == (self@.len() == 0),
    {
        self.items.len() == 0
    }

    pub fn len(&self) -> (r: usize)
        ensures
            r == self@.len(),
    {
        self.items.len()
    }

    /// Files `elm` as the new head.
    pub fn push(&mut self, elm: usize)
        ensures
            final(self)@ == old(self)@.push(elm),
    {
        self.items.push(elm);
    }

    /// Removes and returns the head, or `None` when the list is empty.
    pub fn pop(&mut self) -> (r: Option<usize>)
        ensures
            old(self)@.len() == 0 ==> r is None && final(self)@ == old(self)@,
            old(self)@.len() > 0 ==> r == Some(old(self)@.last()) && final(self)@
                == old(self)@.drop_last(),
    {
        self.items.pop()
    }

    pub fn iter(&self) -> (r: Iter)
        ensures
            r.list() == self,
            r.pos() == self@.len(),
    {
        Iter { list: self, pos: self.items.len() }
    }

    pub fn iter_mut(&mut self) -> (r: IterMut)
        ensures
            r.pos() == old(self)@.len(),
            *final(self) == *old(self),
    {
        IterMut { pos: self.items.len() }
    }

    /// Removes one occurrence of `addr`, scanning from the head; returns
    /// whether it was there.
    pub fn remove(&mut self, addr: usize) -> (r: bool)
        ensures
            r == old(self)@.contains(addr),
            r ==> exists|i: int|
                0 <= i < old(self)@.len() && old(self)@[i] == addr && final(self)@ == old(
                    self,
                )@.remove(i),
            !r ==> final(self)@ == old(self)@,
    {
        let mut it = self.iter_mut();
        loop
            invariant
                it.pos() <= self@.len(),
                self@ == old(self)@,
                forall|j: int| it.pos() <= j < self@.len() ==> self@[j] != addr,
            decreases it.pos(),
        {
            match it.next(self) {
                None => {
                    return false;
                },
                Some(node) => {
                    if node.value() == addr {
                        node.pop(self);
                        return true;
                    }
                },
            }
        }
    }
}

impl<'a> Iter<'a> {
    pub closed spec fn list(&self) -> &'a List {
        self.list
    }

    /// The number of addresses not yet visited.
    pub closed spec fn pos(&self) -> nat {
        self.pos as nat
    }

    /// Yields the next address towards the oldest, or `None` at the end.
    pub fn next(&mut self) -> (r: Option<usize>)
        requires
            old(self).pos() <= old(self).list()@.len(),
        ensures
            final(self).list() == old(self).list(),
            old(self).pos() == 0 ==> r is None && final(self).pos() == 0,
            old(self).pos() > 0 ==> r == Some(old(self).list()@[old(self).pos() - 1])
                && final(self).pos() == old(self).pos() - 1,
    {
        if self.pos == 0 {
            None
        } else {
            self.pos = self.pos - 1;
            Some(self.list.items[self.pos])
        }
    }
}

impl IterMut {
    /// The number of positions not yet visited.
    pub closed spec fn pos(&self) -> nat {
        self.pos as nat
    }

    /// Yields the next position of `list` towards the oldest, or `None` at the end.
    pub fn next(&mut self, list: &List) -> (r: Option<Node>)
        requires
            old(self).pos() <= list@.len(),
        ensures
            old(self).pos() == 0 ==> r is None && final(self).pos() == 0,
            old(self).pos() > 0 ==> final(self).pos() == old(self).pos() - 1 && r is Some
                && r->0.index() == final(self).pos() && r->0.value() == list@[final(self).pos() as int],
    {
        if self.pos == 0 {
            None
        } else {
            self.pos = self.pos - 1;
            Some(Node { index: self.pos, curr: list.items[self.pos] })
        }
    }
}

impl Node {
    /// The position of the address in the list, counted from the oldest.
    pub closed spec fn index(&self) -> nat {
        self.index as nat
    }

    pub closed spec fn spec_value(&self) -> usize {
        self.curr
    }

    /// The address found at this position.
    #[verifier::when_used_as_spec(spec_value)]
    pub fn value(&self) -> (r: usize)
        ensures
            r == self.spec_value(),
    {
        self.curr
    }

    /// Unlinks this position from `list` and returns its address.
    pub fn pop(self, list: &mut List) -> (r: usize)
        requires
            self.index() < old(list)@.len(),
            old(list)@[self.index() as int] == self.value(),
        ensures
            r == self.value(),
            final(list)@ == old(list)@.remove(self.index() as int),
    {
        list.items.remove(self.index);
        self.curr
    }
}

} // verus!
