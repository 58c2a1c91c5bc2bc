use vstd::prelude::*;

use crate::tries::bits::ToUsize;
use crate::tries::laws::add_step;

verus! {

/// A sequence addressed by position.
pub trait List<T>: Sized {
    spec fn items(&self) -> Seq<T>;

    spec fn well_formed(&self) -> bool;

    fn size(&self) -> (r: usize)
        requires
            self.well_formed(),
        ensures
            r == self.items().len(),
    ;

    /// The element at `i`, or `None` past the end.
    fn get(&self, i: usize) -> (r: Option<T>)
        requires
            self.well_formed(),
        ensures
            i < self.items().len() ==> r == Some(self.items()[i as int]),
            i >= self.items().len() ==> r is None,
    ;

    /// Replaces the element at `i`; past the end nothing changes.
    fn set(&mut self, i: usize, x: T)
        requires
            old(self).well_formed(),
        ensures
            final(self).well_formed(),
            i < old(self).items().len() ==> final(self).items() == old(self).items().update(
                i as int,
                x,
            ),
            i >= old(self).items().len() ==> final(self).items() == old(self).items(),
    ;

    /// Inserts `x` so that it lands at `i`.
    fn add(&mut self, i: usize, x: T)
        requires
            old(self).well_formed(),
            i <= old(self).items().len(),
            old(self).items().len() < usize::MAX / 3,
        ensures
            final(self).well_formed(),
            final(self).items() == old(self).items().insert(i as int, x),
    ;

    /// Removes and returns the element at `i`; an error, with nothing
    /// changed, past the end.
    fn remove(&mut self, i: usize) -> (r: Result<T, String>)
        requires
            old(self).well_formed(),
            old(self).items().len() < usize::MAX / 3,
        ensures
            final(self).well_formed(),
            i < old(self).items().len() ==> r == Ok::<T, String>(old(self).items()[i as int])
                && final(self).items() == old(self).items().remove(i as int),
            i >= old(self).items().len() ==> r is Err && final(self).items() == old(self).items(),
    ;
}

/// First in, first out.
pub trait Queue<T>: Sized {
    /// From the front to the back.
    spec fn items(&self) -> Seq<T>;

    spec fn well_formed(&self) -> bool;

    fn add(&mut self, x: T)
        requires
            old(self).well_formed(),
            old(self).items().len() < usize::MAX / 3,
        ensures
            final(self).well_formed(),
            final(self).items() == old(self).items().push(x),
    ;

    fn remove(&mut self) -> (r: Option<T>)
        requires
            old(self).well_formed(),
            old(self).items().len() < usize::MAX / 3,
        ensures
            final(self).well_formed(),
            old(self).items().len() > 0 ==> r == Some(old(self).items()[0]) && final(self).items()
                == old(self).items().drop_first(),
            old(self).items().len() == 0 ==> r is None && final(self).items() == old(self).items(),
    ;
}

/// Last in, first out.
pub trait Stack<T>: Sized {
    /// From the top down.
    spec fn items(&self) -> Seq<T>;

    fn push(&mut self, x: T)
        ensures
            final(self).items() == seq![x] + old(self).items(),
    ;

    fn pop(&mut self) -> (r: Option<T>)
        ensures
            old(self).items().len() > 0 ==> r == Some(old(self).items()[0]) && final(self).items()
                == old(self).items().drop_first(),
            old(self).items().len() == 0 ==> r is None && final(self).items() == old(self).items(),
    ;
}

/// A set of keys, told apart by their numbers.
pub trait USet<T: ToUsize>: Sized {
    /// Each held key, by its number.
    spec fn members(&self) -> Map<usize, T>;

    spec fn well_formed(&self) -> bool;

    /// Whether `x` may be offered to `add`.
    spec fn admits(&self, x: T) -> bool;

    fn size(&self) -> (r: usize)
        requires
            self.well_formed(),
        ensures
            r == self.members().len(),
    ;

    /// Adds `x` unless a key with its number is held; says whether it did.
    fn add(&mut self, x: T) -> (r: bool)
        requires
            old(self).well_formed(),
            old(self).admits(x),
        ensures
            final(self).well_formed(),
            r == !old(self).members().contains_key(x.usize_view()),
            final(self).members() == add_step(old(self).members(), x),
    ;

    /// Removes and returns the key with the number of `x`, if held.
    fn remove(&mut self, x: T) -> (r: Option<T>)
        requires
            old(self).well_formed(),
        ensures
            final(self).well_formed(),
            old(self).members().contains_key(x.usize_view()) ==> r == Some(
                old(self).members()[x.usize_view()],
            ) && final(self).members() == old(self).members().remove(x.usize_view()),
            !old(self).members().contains_key(x.usize_view()) ==> r is None && final(self).members()
                == old(self).members(),
    ;

    fn find(&self, x: T) -> (r: bool)
        requires
            self.well_formed(),
        ensures
            r == self.members().contains_key(x.usize_view()),
    ;
}

/// A directed graph on the vertices `0..n`.
pub trait Graph: Sized {
    spec fn vertices(&self) -> nat;

    spec fn has_edge_spec(&self, i: usize, j: usize) -> bool;

    spec fn well_formed(&self) -> bool;

    fn add_edge(&mut self, i: usize, j: usize)
        requires
            old(self).well_formed(),
            i < old(self).vertices(),
            j < old(self).vertices(),
        ensures
            final(self).well_formed(),
            final(self).vertices() == old(self).vertices(),
            forall|a: usize, b: usize|
                #[trigger] final(self).has_edge_spec(a, b) == (old(self).has_edge_spec(a, b) || (a
                    == i && b == j)),
    ;

    fn remove_edge(&mut self, i: usize, j: usize)
        requires
            old(self).well_formed(),
            i < old(self).vertices(),
            j < old(self).vertices(),
        ensures
            final(self).well_formed(),
            final(self).vertices() == old(self).vertices(),
            forall|a: usize, b: usize|
                (a != i || b != j) ==> #[trigger] final(self).has_edge_spec(a, b)
                    == old(self).has_edge_spec(a, b),
    ;

    fn has_edge(&self, i: usize, j: usize) -> (r: bool)
        requires
            self.well_formed(),
            i < self.vertices(),
            j < self.vertices(),
        ensures
            r == self.has_edge_spec(i, j),
    ;

    /// The targets of the edges from `i`.
    fn out_edges(&self, i: usize) -> (r: Vec<usize>)
        requires
            self.well_formed(),
            i < self.vertices(),
        ensures
            forall|j: usize| r@.contains(j) <==> j < self.vertices() && self.has_edge_spec(i, j),
    ;

    /// The sources of the edges into `i`, ascending.
    fn in_edges(&self, i: usize) -> (r: Vec<usize>)
        requires
            self.well_formed(),
            i < self.vertices(),
        ensures
            forall|j: usize| r@.contains(j) <==> j < self.vertices() && self.has_edge_spec(j, i),
            forall|a: int, b: int| 0 <= a < b < r@.len() ==> r@[a] < r@[b],
    ;
}

} // verus!
