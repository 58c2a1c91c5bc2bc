use vstd::prelude::*;

use crate::interfaces::{List, Stack};

verus! {

/// A list cell holding one value and the rest of the list.
#[derive(Debug, PartialEq, Eq)]
pub struct Node<T> {
    pub x: T,
    pub next: Option<Box<Node<T>>>,
}

impl<T> Node<T> {
    pub fn new(x: T) -> (r: Self)
        ensures
            r.x == x,
            r.next.is_none(),
    {
        Node { x, next: None }
    }

    /// Links `next` after this cell, dropping whatever followed before.
    pub fn set_next(&mut self, next: Node<T>)
        ensures
            final(self).x == old(self).x,
            final(self).next == Some(Box::new(next)),
    {
        self.next = Some(Box::new(next));
    }
}

/// A singly linked list: `push` and `pop` work at the head, `add` at the tail.
/// The cells are kept in a vector from the tail to the head.
#[derive(Debug, PartialEq, Eq)]
pub struct SLList<T> {
    cells: Vec<T>,
}

impl<T> View for SLList<T> {
    type V = Seq<T>;

    /// The values from head to tail.
    closed spec fn view(&self) -> Seq<T> {
        self.cells@.reverse()
    }
}

impl<T: Copy> SLList<T> {
    pub fn new() -> (r: Self)
        ensures
            r@ == Seq::<T>::empty(),
    {
        let r = SLList { cells: Vec::new() };
        assert(r@ =~= Seq::<T>::empty());
        r
    }

    pub fn size(&self) -> (r: usize)
        ensures
            r == self@.len(),
    {
        self.cells.len()
    }

    /// Appends `x` at the tail.
    pub fn add(&mut self, x: T)
        ensures
            final(self)@ == old(self)@.push(x),
    {
        self.cells.insert(0, x);
        assert(self@ =~= old(self)@.push(x));
    }

    /// Puts `x` in front of the head.
    pub fn push(&mut self, x: T)
        ensures
            final(self)@ == seq![x] + old(self)@,
    {
        self.cells.push(x);
        assert(self@ =~= seq![x] + old(self)@);
    }

    /// Takes the head; `None` when the list is empty.
    pub fn pop(&mut self) -> (r: Option<T>)
        ensures
            old(self)@.len() > 0 ==> r == Some(old(self)@[0]) && final(self)@ == old(self)@.drop_first(),
            old(self)@.len() == 0 ==> r.is_none() && final(self)@ == old(self)@,
    {
        let r = self.cells.pop();
        proof {
            if old(self)@.len() > 0 {
                assert(self@ =~= old(self)@.drop_first());
            }
        }
        r
    }

    /// The values from head to tail.
    pub fn to_vec(&self) -> (r: Vec<T>)
        ensures
            r@ == self@,
    {
        let mut r: Vec<T> = Vec::new();
        let mut i: usize = self.cells.len();
        while i > 0
            invariant
                i <= self.cells@.len(),
                r@ == self.cells@.subrange(i as int, self.cells@.len() as int).reverse(),
            decreases i,
        {
            i = i - 1;
            r.push(self.cells[i]);
            assert(r@ =~= self.cells@.subrange(i as int, self.cells@.len() as int).reverse());
        }
        assert(self.cells@.subrange(0, self.cells@.len() as int) =~= self.cells@);
        r
    }
}

/// A list addressed by position.
#[derive(Debug, PartialEq, Eq)]
pub struct DLList<T> {
    items: Vec<T>,
}

impl<T> View for DLList<T> {
    type V = Seq<T>;

    closed spec fn view(&self) -> Seq<T> {
        self.items@
    }
}

impl<T: Copy> DLList<T> {
    pub fn new() -> (r: Self)
        ensures
            r@ == Seq::<T>::empty(),
    {
        DLList { items: Vec::new() }
    }

    pub fn size(&self) -> (r: usize)
        ensures
            r == self@.len(),
    {
        self.items.len()
    }

    /// Inserts `x` so that it lands at position `index`.
    pub fn add(&mut self, index: usize, x: T)
        requires
            index <= old(self)@.len(),
        ensures
            final(self)@ == old(self)@.insert(index as int, x),
    {
        self.items.insert(index, x);
    }

    /// Removes and returns the value at `index`; `None`, with nothing changed,
    /// past the end.
    pub fn remove(&mut self, index: usize) -> (r: Option<T>)
        ensures
            index < old(self)@.len() ==> r == Some(old(self)@[index as int]) && final(self)@ == old(
                self,
            )@.remove(index as int),
            index >= old(self)@.len() ==> r.is_none() && final(self)@ == old(self)@,
    {
        if index < self.items.len() {
            Some(self.items.remove(index))
        } else {
            None
        }
    }

    /// The value at `index`, or `None` past the end.
    pub fn get(&self, index: usize) -> (r: Option<T>)
        ensures
            index < self@.len() ==> r == Some(self@[index as int]),
            index >= self@.len() ==> r.is_none(),
    {
        if index < self.items.len() {
            Some(self.items[index])
        } else {
            None
        }
    }

    /// Replaces the value at `index`; past the end nothing changes.
    pub fn set(&mut self, index: usize, x: T)
        ensures
            index < old(self)@.len() ==> final(self)@ == old(self)@.update(index as int, x),
            index >= old(self)@.len() ==> final(self)@ == old(self)@,
    {
        if index < self.items.len() {
            self.items.set(index, x);
        }
    }
}

impl<T: Copy> List<T> for DLList<T> {
    open spec fn items(&self) -> Seq<T> {
        self@
    }

    open spec fn well_formed(&self) -> bool {
        true
    }

    fn size(&self) -> (r: usize) {
        DLList::size(self)
    }

    fn get(&self, i: usize) -> (r: Option<T>) {
        DLList::get(self, i)
    }

    fn set(&mut self, i: usize, x: T) {
        DLList::set(self, i, x)
    }

    fn add(&mut self, i: usize, x: T) {
        DLList::add(self, i, x)
    }

    fn remove(&mut self, i: usize) -> (r: Result<T, String>) {
        match DLList::remove(self, i) {
            Some(x) => Ok(x),
            None => Err("index out of range".to_owned()),
        }
    }
}

impl<T: Copy> Stack<T> for SLList<T> {
    open spec fn items(&self) -> Seq<T> {
        self@
    }

    fn push(&mut self, x: T) {
        SLList::push(self, x)
    }

    fn pop(&mut self) -> (r: Option<T>) {
        SLList::pop(self)
    }
}

} // verus!
