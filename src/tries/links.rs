use vstd::prelude::*;

use crate::tries::arena::{is_leaf, Node, TrieNodes};
use crate::tries::binary_trie::BinaryTrie;
use crate::tries::bits::{PathNodeOrLeaf, ToUsize};

verus! {

/// A link to a node of a binary trie: the node's arena slot, or none.
///
/// Reading through a link never fails: a link to no slot of the trie reads
/// as a link to nothing. Writing changes only the trie links (children,
/// parent, jump), never the leaf list, so the trie's contents stay as they
/// are whatever is written.
#[derive(Debug, PartialEq, Eq, Structural)]
pub struct StrongLinkNode(pub Option<usize>);

/// A link that does not keep its node: a parent or a list predecessor.
#[derive(Debug, PartialEq, Eq, Structural)]
pub struct WeakLinkNode(pub Option<usize>);

/// The node that `l` reaches in `trie`, if any.
pub open spec fn reached<T: Copy + ToUsize>(trie: &BinaryTrie<T>, l: Option<usize>) -> Option<Node<T>> {
    match l {
        Some(i) => if i < trie.slots() {
            Some(trie.node_at(i))
        } else {
            None
        },
        None => None,
    }
}

/// A link read from field `f` of the node that `l` reaches.
pub open spec fn read_link<T: Copy + ToUsize>(
    trie: &BinaryTrie<T>,
    l: Option<usize>,
    f: spec_fn(Node<T>) -> Option<usize>,
) -> Option<usize> {
    match reached(trie, l) {
        Some(n) => f(n),
        None => None,
    }
}

/// Where a walk from slot `i` that keeps to the `b` side ends after at most
/// `fuel` steps.
pub open spec fn walk_end<T: Copy + ToUsize>(trie: &BinaryTrie<T>, i: usize, b: int, fuel: nat) -> usize
    decreases fuel,
{
    if fuel == 0 || i >= trie.slots() {
        i
    } else {
        match trie.node_at(i).children@[b] {
            Some(c) => walk_end(trie, c, b, (fuel - 1) as nat),
            None => i,
        }
    }
}

impl StrongLinkNode {
    pub fn new(node: Option<usize>) -> (r: Self)
        ensures
            r.0 == node,
    {
        StrongLinkNode(node)
    }

    pub fn new_none() -> (r: Self)
        ensures
            r.0.is_none(),
    {
        StrongLinkNode(None)
    }

    /// A fresh path node with no links, added to `trie`.
    pub fn new_path_node<T: Copy + ToUsize>(trie: &mut BinaryTrie<T>) -> (r: Self)
        requires
            old(trie).wf(),
        ensures
            final(trie).wf(),
            final(trie)@ == old(trie)@,
            r.0 is Some,
            r.0.unwrap() < final(trie).slots(),
            final(trie).slots() >= old(trie).slots(),
            final(trie).node_at(r.0.unwrap()).x == PathNodeOrLeaf::<T>::PathNode,
            final(trie).node_at(r.0.unwrap()).unlinked(),
            forall|j: usize|
                j < old(trie).slots() && j != r.0.unwrap() ==> final(trie).node_at(j) == old(trie).node_at(j),
    {
        StrongLinkNode(Some(trie.add_path()))
    }

    pub fn clone(&self) -> (r: Self)
        ensures
            r == *self,
    {
        StrongLinkNode(self.0)
    }

    pub fn to_weak(&self) -> (r: WeakLinkNode)
        ensures
            r.0 == self.0,
    {
        WeakLinkNode(self.0)
    }

    /// The key of the leaf reached; `None` for a path node or no node.
    pub fn value<T: Copy + ToUsize>(&self, trie: &BinaryTrie<T>) -> (r: Option<T>)
        requires
            trie.wf(),
        ensures
            r == match reached(trie, self.0) {
                Some(n) => match n.x {
                    PathNodeOrLeaf::Leaf(v) => Some(v),
                    PathNodeOrLeaf::PathNode => None,
                },
                None => None,
            },
    {
        match trie.read(self.0) {
            Some(n) => n.value(),
            None => None,
        }
    }

    pub fn child<T: Copy + ToUsize>(&self, trie: &BinaryTrie<T>, index: usize) -> (r: Self)
        requires
            trie.wf(),
            index < 2,
        ensures
            r.0 == read_link(trie, self.0, |n: Node<T>| n.children@[index as int]),
    {
        match trie.read(self.0) {
            Some(n) => StrongLinkNode(n.children[index]),
            None => StrongLinkNode(None),
        }
    }

    pub fn left<T: Copy + ToUsize>(&self, trie: &BinaryTrie<T>) -> (r: Self)
        requires
            trie.wf(),
        ensures
            r.0 == read_link(trie, self.0, |n: Node<T>| n.children@[0]),
    {
        self.child(trie, 0)
    }

    pub fn right<T: Copy + ToUsize>(&self, trie: &BinaryTrie<T>) -> (r: Self)
        requires
            trie.wf(),
        ensures
            r.0 == read_link(trie, self.0, |n: Node<T>| n.children@[1]),
    {
        self.child(trie, 1)
    }

    /// Whether the node reached has a child.
    pub fn has_child<T: Copy + ToUsize>(&self, trie: &BinaryTrie<T>) -> (r: bool)
        requires
            trie.wf(),
        ensures
            r == (read_link(trie, self.0, |n: Node<T>| n.children@[0]) is Some || read_link(
                trie,
                self.0,
                |n: Node<T>| n.children@[1],
            ) is Some),
    {
        self.left(trie).0.is_some() || self.right(trie).0.is_some()
    }

    pub fn parent<T: Copy + ToUsize>(&self, trie: &BinaryTrie<T>) -> (r: Self)
        requires
            trie.wf(),
        ensures
            r.0 == read_link(trie, self.0, |n: Node<T>| n.parent),
    {
        match trie.read(self.0) {
            Some(n) => StrongLinkNode(n.parent),
            None => StrongLinkNode(None),
        }
    }

    pub fn jump<T: Copy + ToUsize>(&self, trie: &BinaryTrie<T>) -> (r: Self)
        requires
            trie.wf(),
        ensures
            r.0 == read_link(trie, self.0, |n: Node<T>| n.jump),
    {
        match trie.read(self.0) {
            Some(n) => StrongLinkNode(n.jump),
            None => StrongLinkNode(None),
        }
    }

    /// The next node along the leaf list.
    pub fn next<T: Copy + ToUsize>(&self, trie: &BinaryTrie<T>) -> (r: Self)
        requires
            trie.wf(),
        ensures
            r.0 == read_link(trie, self.0, |n: Node<T>| n.next),
    {
        match trie.read(self.0) {
            Some(n) => StrongLinkNode(n.next),
            None => StrongLinkNode(None),
        }
    }

    /// The previous node along the leaf list.
    pub fn prev<T: Copy + ToUsize>(&self, trie: &BinaryTrie<T>) -> (r: Self)
        requires
            trie.wf(),
        ensures
            r.0 == read_link(trie, self.0, |n: Node<T>| n.prev),
    {
        match trie.read(self.0) {
            Some(n) => StrongLinkNode(n.prev),
            None => StrongLinkNode(None),
        }
    }

    /// Follows `b`-side children from the node reached for at most `fuel`
    /// steps; the end is a leaf, or else its jump pointer is taken.
    fn extreme<T: Copy + ToUsize>(&self, trie: &BinaryTrie<T>, b: usize) -> (r: Self)
        requires
            trie.wf(),
            b < 2,
        ensures
            self.0 is Some && self.0.unwrap() < trie.slots() ==> ({
                let e = walk_end(trie, self.0.unwrap(), b as int, (trie.width() + 1) as nat);
                &&& e < trie.slots()
                &&& r.0 == if is_leaf(trie.node_at(e)) {
                    Some(e)
                } else {
                    trie.node_at(e).jump
                }
            }),
            !(self.0 is Some && self.0.unwrap() < trie.slots()) ==> r.0 is None,
    {
        match self.0 {
            Some(start) => {
                if start < trie.slot_count() {
                    StrongLinkNode(trie.extreme_from(start, b))
                } else {
                    StrongLinkNode(None)
                }
            },
            None => StrongLinkNode(None),
        }
    }

    /// The smallest leaf under the node reached (the `Zero`-side walk).
    pub fn get_min_child<T: Copy + ToUsize>(&self, trie: &BinaryTrie<T>) -> (r: Self)
        requires
            trie.wf(),
        ensures
            self.0 is Some && self.0.unwrap() < trie.slots() ==> ({
                let e = walk_end(trie, self.0.unwrap(), 0, (trie.width() + 1) as nat);
                r.0 == if is_leaf(trie.node_at(e)) {
                    Some(e)
                } else {
                    trie.node_at(e).jump
                }
            }),
            !(self.0 is Some && self.0.unwrap() < trie.slots()) ==> r.0 is None,
    {
        self.extreme(trie, 0)
    }

    /// The largest leaf under the node reached (the `One`-side walk).
    pub fn get_max_child<T: Copy + ToUsize>(&self, trie: &BinaryTrie<T>) -> (r: Self)
        requires
            trie.wf(),
        ensures
            self.0 is Some && self.0.unwrap() < trie.slots() ==> ({
                let e = walk_end(trie, self.0.unwrap(), 1, (trie.width() + 1) as nat);
                r.0 == if is_leaf(trie.node_at(e)) {
                    Some(e)
                } else {
                    trie.node_at(e).jump
                }
            }),
            !(self.0 is Some && self.0.unwrap() < trie.slots()) ==> r.0 is None,
    {
        self.extreme(trie, 1)
    }
    /// Whether `self` reaches a slot of `trie` and `l` is a slot or nothing.
    pub open spec fn can_link<T: Copy + ToUsize>(&self, trie: &BinaryTrie<T>, l: Option<usize>) -> bool {
        &&& self.0 is Some
        &&& self.0.unwrap() < trie.slots()
        &&& (l is None || l.unwrap() < trie.slots())
    }

    /// Points the jump pointer of the node reached at `leaf`.
    pub fn set_jump<T: Copy + ToUsize>(&self, trie: &mut BinaryTrie<T>, leaf: StrongLinkNode)
        requires
            old(trie).wf(),
        ensures
            final(trie).wf(),
            final(trie)@ == old(trie)@,
            final(trie).slots() == old(trie).slots(),
            self.can_link(old(trie), leaf.0) ==> final(trie).node_at(self.0.unwrap()) == (Node {
                jump: leaf.0,
                ..old(trie).node_at(self.0.unwrap())
            }),
            forall|j: usize|
                j < old(trie).slots() && (self.0 != Some(j) || !self.can_link(old(trie), leaf.0))
                    ==> final(trie).node_at(j) == old(trie).node_at(j),
    {
        if let Some(i) = self.0 {
            if i < trie.slot_count() {
                let ok = match leaf.0 {
                    Some(j) => j < trie.slot_count(),
                    None => true,
                };
                if ok {
                    let mut n = trie.read(self.0).unwrap();
                    n.jump = leaf.0;
                    trie.write_links(i, n);
                }
            }
        }
    }

    /// Clears the jump pointer of the node reached.
    pub fn remove_jump<T: Copy + ToUsize>(&self, trie: &mut BinaryTrie<T>)
        requires
            old(trie).wf(),
        ensures
            final(trie).wf(),
            final(trie)@ == old(trie)@,
            final(trie).slots() == old(trie).slots(),
            self.can_link(old(trie), None) ==> final(trie).node_at(self.0.unwrap()) == (Node {
                jump: None,
                ..old(trie).node_at(self.0.unwrap())
            }),
            forall|j: usize|
                j < old(trie).slots() && self.0 != Some(j) ==> final(trie).node_at(j) == old(
                    trie,
                ).node_at(j),
    {
        self.set_jump(trie, StrongLinkNode(None))
    }

    /// Points the parent link of the node reached at `node`.
    pub fn set_parent<T: Copy + ToUsize>(&self, trie: &mut BinaryTrie<T>, node: StrongLinkNode)
        requires
            old(trie).wf(),
        ensures
            final(trie).wf(),
            final(trie)@ == old(trie)@,
            final(trie).slots() == old(trie).slots(),
            self.can_link(old(trie), node.0) ==> final(trie).node_at(self.0.unwrap()) == (Node {
                parent: node.0,
                ..old(trie).node_at(self.0.unwrap())
            }),
            forall|j: usize|
                j < old(trie).slots() && (self.0 != Some(j) || !self.can_link(old(trie), node.0))
                    ==> final(trie).node_at(j) == old(trie).node_at(j),
    {
        if let Some(i) = self.0 {
            if i < trie.slot_count() {
                let ok = match node.0 {
                    Some(j) => j < trie.slot_count(),
                    None => true,
                };
                if ok {
                    let mut n = trie.read(self.0).unwrap();
                    n.parent = node.0;
                    trie.write_links(i, n);
                }
            }
        }
    }

    /// Makes `child` the `index`-side child of the node reached (and the node
    /// reached its parent); an `index` other than 0 or 1 changes nothing.
    pub fn set_child<T: Copy + ToUsize>(&self, trie: &mut BinaryTrie<T>, child: StrongLinkNode, index: usize)
        requires
            old(trie).wf(),
        ensures
            final(trie).wf(),
            final(trie)@ == old(trie)@,
            final(trie).slots() == old(trie).slots(),
            index < 2 && self.can_link(old(trie), child.0) ==> ({
                let i = self.0.unwrap();
                let n = final(trie).node_at(i);
                let o = old(trie).node_at(i);
                &&& n.children@[index as int] == child.0
                &&& n.children@[1 - index] == o.children@[1 - index]
                &&& n.x == o.x
                &&& n.jump == o.jump
                &&& n.prev == o.prev
                &&& n.next == o.next
                &&& n.parent == if child.0 == Some(i) {
                    Some(i)
                } else {
                    o.parent
                }
                &&& (child.0 matches Some(c) ==> final(trie).node_at(c).parent == Some(i))
                &&& forall|j: usize|
                    j < old(trie).slots() && j != i && child.0 != Some(j) ==> final(trie).node_at(j)
                        == old(trie).node_at(j)
            }),
            !(index < 2 && self.can_link(old(trie), child.0)) ==> *final(trie) == *old(trie),
    {
        if index < 2 {
            if let Some(i) = self.0 {
                if i < trie.slot_count() {
                    let ok = match child.0 {
                        Some(j) => j < trie.slot_count(),
                        None => true,
                    };
                    if ok {
                        child.set_parent(trie, StrongLinkNode(self.0));
                        let mut n = trie.read(self.0).unwrap();
                        n.children[index] = child.0;
                        trie.write_links(i, n);
                    }
                }
            }
        }
    }

    pub fn set_left<T: Copy + ToUsize>(&self, trie: &mut BinaryTrie<T>, child: StrongLinkNode)
        requires
            old(trie).wf(),
        ensures
            final(trie).wf(),
            final(trie)@ == old(trie)@,
            final(trie).slots() == old(trie).slots(),
            self.can_link(old(trie), child.0) ==> final(trie).node_at(self.0.unwrap()).children@[0]
                == child.0,
    {
        self.set_child(trie, child, 0)
    }

    pub fn set_right<T: Copy + ToUsize>(&self, trie: &mut BinaryTrie<T>, child: StrongLinkNode)
        requires
            old(trie).wf(),
        ensures
            final(trie).wf(),
            final(trie)@ == old(trie)@,
            final(trie).slots() == old(trie).slots(),
            self.can_link(old(trie), child.0) ==> final(trie).node_at(self.0.unwrap()).children@[1]
                == child.0,
    {
        self.set_child(trie, child, 1)
    }
}

impl WeakLinkNode {
    pub fn new_none() -> (r: Self)
        ensures
            r.0.is_none(),
    {
        WeakLinkNode(None)
    }

    pub fn new(weak_link: Option<usize>) -> (r: Self)
        ensures
            r.0 == weak_link,
    {
        WeakLinkNode(weak_link)
    }

    pub fn clone(&self) -> (r: Self)
        ensures
            r == *self,
    {
        WeakLinkNode(self.0)
    }

    /// The key of the leaf reached; `None` for a path node or no node.
    pub fn value<T: Copy + ToUsize>(&self, trie: &BinaryTrie<T>) -> (r: Option<T>)
        requires
            trie.wf(),
        ensures
            r == match reached(trie, self.0) {
                Some(n) => match n.x {
                    PathNodeOrLeaf::Leaf(v) => Some(v),
                    PathNodeOrLeaf::PathNode => None,
                },
                None => None,
            },
    {
        StrongLinkNode(self.0).value(trie)
    }

    pub fn to_node(self) -> (r: StrongLinkNode)
        ensures
            r.0 == self.0,
    {
        StrongLinkNode(self.0)
    }
}

} // verus!
