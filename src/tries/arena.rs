use vstd::prelude::*;

use crate::tries::bits::{Binary, PathNodeOrLeaf, ToUsize};

verus! {

/// Arena slot of the root path node.
pub const ROOT: usize = 0;

/// Arena slot of the sentinel before the smallest leaf.
pub const MIN_PREV: usize = 1;

/// Arena slot of the sentinel after the largest leaf.
pub const MAX_NEXT: usize = 2;

/// A trie node. Every link is the arena slot of another node.
///
/// `children`, `parent` and `jump` shape the trie; `prev` and `next` chain the
/// leaves (and the two sentinels) in ascending order of their keys.
#[derive(Debug, Clone, Copy)]
pub struct Node<T> {
    pub x: PathNodeOrLeaf<T>,
    pub children: [Option<usize>; 2],
    pub jump: Option<usize>,
    pub parent: Option<usize>,
    pub prev: Option<usize>,
    pub next: Option<usize>,
}

impl<T: Copy> Node<T> {
    pub open spec fn unlinked(&self) -> bool {
        &&& self.children@[0].is_none()
        &&& self.children@[1].is_none()
        &&& self.jump.is_none()
        &&& self.parent.is_none()
        &&& self.prev.is_none()
        &&& self.next.is_none()
    }

    pub fn new_leaf(x: T) -> (r: Self)
        ensures
            r.x == PathNodeOrLeaf::Leaf(x),
            r.unlinked(),
    {
        Node {
            x: PathNodeOrLeaf::new_leaf(x),
            children: [None, None],
            jump: None,
            parent: None,
            prev: None,
            next: None,
        }
    }

    pub fn new_path_node() -> (r: Self)
        ensures
            r.x == PathNodeOrLeaf::<T>::PathNode,
            r.unlinked(),
    {
        Node {
            x: PathNodeOrLeaf::new_path(),
            children: [None, None],
            jump: None,
            parent: None,
            prev: None,
            next: None,
        }
    }

    /// The key of a leaf; `None` for a path node.
    pub fn value(&self) -> (r: Option<T>)
        ensures
            r == match self.x {
                PathNodeOrLeaf::Leaf(v) => Some(v),
                PathNodeOrLeaf::PathNode => None::<T>,
            },
    {
        self.x.value()
    }
}

/// The node in slot `i` of an empty trie: the root has no links, and the two
/// sentinels are linked only to each other.
pub open spec fn empty_node<T>(i: usize) -> Node<T> {
    Node {
        x: PathNodeOrLeaf::PathNode,
        children: [None, None],
        jump: None,
        parent: None,
        prev: if i == MAX_NEXT {
            Some(MIN_PREV)
        } else {
            None
        },
        next: if i == MIN_PREV {
            Some(MAX_NEXT)
        } else {
            None
        },
    }
}

pub open spec fn is_leaf<T>(n: Node<T>) -> bool {
    n.x is Leaf
}

pub open spec fn key_of<T: ToUsize>(n: Node<T>) -> usize {
    match n.x {
        PathNodeOrLeaf::Leaf(v) => v.usize_view(),
        PathNodeOrLeaf::PathNode => 0,
    }
}

pub open spec fn val_of<T>(n: Node<T>) -> T {
    n.x->Leaf_0
}

pub open spec fn link_ok(l: Option<usize>, len: nat) -> bool {
    l.is_none() || l.unwrap() < len
}

pub open spec fn node_ok<T>(n: Node<T>, len: nat) -> bool {
    &&& link_ok(n.children@[0], len)
    &&& link_ok(n.children@[1], len)
    &&& link_ok(n.jump, len)
    &&& link_ok(n.parent, len)
    &&& link_ok(n.prev, len)
    &&& link_ok(n.next, len)
}

/// The nodes of a binary trie over `w`-bit keys, held in an arena.
///
/// Correctness rests on the leaf list: between the two sentinels it holds every
/// leaf once, in strictly ascending key order (`order` names their slots, and
/// `contents` maps each key's number to the key). The trie links above the
/// leaves only speed up the search for a place in that list; every place they
/// suggest is checked against the list before it is used.
pub(crate) struct TrieNodes<T> {
    pub(crate) nodes: Vec<Node<T>>,
    pub(crate) w: usize,
    pub(crate) order: Ghost<Seq<usize>>,
    pub(crate) contents: Ghost<Map<usize, T>>,
}

impl<T: Copy + ToUsize> TrieNodes<T> {
    /// The slot that follows list position `p` (`-1` stands for `MIN_PREV`).
    pub(crate) open spec fn succ(&self, p: int) -> usize {
        if p + 1 < self.order@.len() {
            self.order@[p + 1]
        } else {
            MAX_NEXT
        }
    }

    /// The slot that precedes list position `p`.
    pub(crate) open spec fn pred(&self, p: int) -> usize {
        if p > 0 {
            self.order@[p - 1]
        } else {
            MIN_PREV
        }
    }

    /// The slot at list position `p`, with `-1` for `MIN_PREV`.
    pub(crate) open spec fn at(&self, p: int) -> usize {
        if p >= 0 {
            self.order@[p]
        } else {
            MIN_PREV
        }
    }

    pub(crate) open spec fn key_at(&self, p: int) -> usize {
        key_of(self.nodes@[self.order@[p] as int])
    }

    /// `p` is the last list position whose key is below `num`.
    pub(crate) open spec fn is_prev_at(&self, num: usize, p: int) -> bool {
        &&& -1 <= p < self.order@.len()
        &&& p >= 0 ==> self.key_at(p) < num
        &&& p + 1 < self.order@.len() ==> self.key_at(p + 1) >= num
    }

    /// Every link is in range.
    #[verifier::opaque]
    pub(crate) open spec fn wf_links(&self) -> bool {
        &&& 3 <= self.nodes@.len()
        &&& 1 <= self.w <= 63
        &&& forall|i: int|
            0 <= i < self.nodes@.len() ==> node_ok(
                #[trigger] self.nodes@[i],
                self.nodes@.len(),
            )
    }

    /// The list runs from `MIN_PREV` through the slots of `order` to `MAX_NEXT`.
    #[verifier::opaque]
    pub(crate) open spec fn wf_list(&self) -> bool {
        &&& 3 <= self.nodes@.len()
        &&& !is_leaf(self.nodes@[MIN_PREV as int])
        &&& !is_leaf(self.nodes@[MAX_NEXT as int])
        &&& self.nodes@[MIN_PREV as int].next == Some(self.succ(-1))
        &&& self.nodes@[MAX_NEXT as int].prev == Some(self.pred(self.order@.len() as int))
        &&& forall|p: int|
            0 <= p < self.order@.len() ==> {
                &&& 3 <= #[trigger] self.order@[p] < self.nodes@.len()
                &&& is_leaf(self.nodes@[self.order@[p] as int])
                &&& self.nodes@[self.order@[p] as int].next == Some(self.succ(p))
                &&& self.nodes@[self.order@[p] as int].prev == Some(self.pred(p))
            }
    }

    /// The keys along the list strictly ascend.
    #[verifier::opaque]
    pub(crate) open spec fn wf_sorted(&self) -> bool {
        forall|p: int, q: int|
            0 <= p < q < self.order@.len() ==> #[trigger] self.key_at(p) < #[trigger] self.key_at(q)
    }

    /// Every leaf in the arena stands in the list.
    #[verifier::opaque]
    pub(crate) open spec fn wf_leaves(&self) -> bool {
        forall|i: usize|
            (i as int) < self.nodes@.len() && is_leaf(#[trigger] self.nodes@[i as int])
                ==> self.order@.contains(i)
    }

    /// `contents` maps the key number of each listed leaf to its key, and
    /// holds nothing else.
    #[verifier::opaque]
    pub(crate) open spec fn wf_contents(&self) -> bool {
        &&& forall|p: int|
            0 <= p < self.order@.len() ==> {
                &&& self.contents@.contains_key(#[trigger] self.key_at(p))
                &&& self.contents@[self.key_at(p)] == val_of(self.nodes@[self.order@[p] as int])
            }
        &&& forall|k: usize|
            self.contents@.contains_key(k) ==> exists|p: int|
                0 <= p < self.order@.len() && #[trigger] self.key_at(p) == k
    }

    pub(crate) open spec fn wf(&self) -> bool {
        &&& self.wf_links()
        &&& self.wf_list()
        &&& self.wf_sorted()
        &&& self.wf_leaves()
        &&& self.wf_contents()
    }

    pub(crate) fn new(w: usize) -> (r: Self)
        requires
            1 <= w <= 63,
        ensures
            r.wf(),
            r.w == w,
            r.contents@ == Map::<usize, T>::empty(),
            r.order@ == Seq::<usize>::empty(),
            r.nodes@.len() == 3,
            forall|i: usize| i < 3 ==> r.nodes@[i as int] == empty_node::<T>(i),
    {
        let root: Node<T> = Node::new_path_node();
        let mut min_prev: Node<T> = Node::new_path_node();
        let mut max_next: Node<T> = Node::new_path_node();
        min_prev.next = Some(MAX_NEXT);
        max_next.prev = Some(MIN_PREV);
        let mut nodes: Vec<Node<T>> = Vec::new();
        nodes.push(root);
        nodes.push(min_prev);
        nodes.push(max_next);
        let r = TrieNodes {
            nodes,
            w,
            order: Ghost(Seq::empty()),
            contents: Ghost(Map::empty()),
        };
        assert forall|i: int| 0 <= i < r.nodes@.len() implies node_ok(
            #[trigger] r.nodes@[i],
            r.nodes@.len(),
        ) by {}
        proof {
            reveal(TrieNodes::wf_links);
            reveal(TrieNodes::wf_list);
            reveal(TrieNodes::wf_sorted);
            reveal(TrieNodes::wf_leaves);
            reveal(TrieNodes::wf_contents);
            assert forall|i: usize|
                (i as int) < r.nodes@.len() && is_leaf(#[trigger] r.nodes@[i as int]) implies r.order@.contains(
                i,
            ) by {}
            assert forall|i: usize| i < 3 implies r.nodes@[i as int] == empty_node::<T>(i) by {
                assert(r.nodes@[i as int].children =~= empty_node::<T>(i).children);
            }
        }
        r
    }

    /// The key number of the leaf in slot `i`.
    pub(crate) fn key(&self, i: usize) -> (r: Option<usize>)
        requires
            i < self.nodes@.len(),
        ensures
            is_leaf(self.nodes@[i as int]) ==> r == Some(key_of(self.nodes@[i as int])),
            !is_leaf(self.nodes@[i as int]) ==> r.is_none(),
    {
        match self.nodes[i].x {
            PathNodeOrLeaf::Leaf(v) => Some(v.to_usize()),
            PathNodeOrLeaf::PathNode => None,
        }
    }

    proof fn lemma_leaf_position(&self, i: usize) -> (p: int)
        requires
            self.wf(),
            i < self.nodes@.len(),
            is_leaf(self.nodes@[i as int]),
        ensures
            0 <= p < self.order@.len(),
            self.order@[p] == i,
    {
        reveal(TrieNodes::wf_leaves);
        assert(self.order@.contains(i));
        choose|p: int| 0 <= p < self.order@.len() && self.order@[p] == i
    }

    /// Confirms that slot `c` is the list place just before `num`, and returns
    /// the list position it stands at.
    fn confirm_prev(&self, num: usize, c: usize) -> (r: Option<Ghost<int>>)
        requires
            self.wf(),
            c < self.nodes@.len(),
        ensures
            r matches Some(p) ==> self.is_prev_at(num, p@) && self.at(p@) == c,
    {
        proof {
            reveal(TrieNodes::wf_list);
        }
        let ghost mut p: int = -1;
        if c != MIN_PREV {
            match self.key(c) {
                Some(k) => {
                    if k >= num {
                        return None;
                    }
                    proof {
                        p = self.lemma_leaf_position(c);
                    }
                },
                None => {
                    return None;
                },
            }
        }
        match self.nodes[c].next {
            Some(n) => {
                if n != MAX_NEXT {
                    match self.key(n) {
                        Some(k) => {
                            if k < num {
                                return None;
                            }
                        },
                        None => {
                            return None;
                        },
                    }
                }
                proof {
                    assert(self.nodes@[self.at(p) as int].next == Some(self.succ(p)));
                    if p + 1 < self.order@.len() {
                        assert(self.order@[p + 1] >= 3);
                    }
                }
                Some(Ghost(p))
            },
            None => None,
        }
    }

    /// Walks the leaf list from the start to the last place before `num`.
    fn walk_prev(&self, num: usize) -> (r: (usize, Ghost<int>))
        requires
            self.wf(),
        ensures
            self.is_prev_at(num, r.1@),
            self.at(r.1@) == r.0,
    {
        proof {
            reveal(TrieNodes::wf_list);
            reveal(TrieNodes::wf_links);
        }
        let mut cur: usize = MIN_PREV;
        let ghost mut p: int = -1;
        loop
            invariant
                self.wf(),
                -1 <= p < self.order@.len(),
                cur == self.at(p),
                p >= 0 ==> self.key_at(p) < num,
            decreases self.order@.len() - p,
        {
            proof {
                reveal(TrieNodes::wf_list);
            }
            assert(self.nodes@[cur as int].next == Some(self.succ(p)));
            let n = self.nodes[cur].next.unwrap();
            if n == MAX_NEXT {
                proof {
                    if p + 1 < self.order@.len() {
                        assert(self.order@[p + 1] >= 3);
                    }
                }
                return (cur, Ghost(p));
            }
            let k = self.key(n).unwrap();
            if k >= num {
                return (cur, Ghost(p));
            }
            cur = n;
            proof {
                p = p + 1;
            }
        }
    }

    /// The list place just before `num`: `hint` when the list confirms it,
    /// else the place found by a walk of the list.
    pub(crate) fn locate_prev(&self, num: usize, hint: usize) -> (r: (usize, Ghost<int>))
        requires
            self.wf(),
            hint < self.nodes@.len(),
        ensures
            self.is_prev_at(num, r.1@),
            self.at(r.1@) == r.0,
    {
        match self.confirm_prev(num, hint) {
            Some(p) => (hint, p),
            None => self.walk_prev(num),
        }
    }

    /// `new` differs from `self` only in slots that hold no leaf (and are no
    /// sentinels) and in the trie links of other slots; it keeps the list.
    pub(crate) open spec fn same_list(&self, new: &Self) -> bool {
        &&& new.nodes@.len() >= self.nodes@.len()
        &&& new.w == self.w
        &&& new.order@ == self.order@
        &&& new.contents@ == self.contents@
        &&& forall|j: int|
            0 <= j < self.nodes@.len() ==> {
                ||| {
                    &&& (#[trigger] new.nodes@[j]).x == self.nodes@[j].x
                    &&& new.nodes@[j].prev == self.nodes@[j].prev
                    &&& new.nodes@[j].next == self.nodes@[j].next
                }
                ||| (j >= 3 && !is_leaf(self.nodes@[j]) && !is_leaf(new.nodes@[j]))
            }
        &&& forall|j: int| self.nodes@.len() <= j < new.nodes@.len() ==> !is_leaf(#[trigger] new.nodes@[j])
        &&& forall|j: int| 0 <= j < new.nodes@.len() ==> node_ok(#[trigger] new.nodes@[j], new.nodes@.len())
    }

    proof fn lemma_same_list(&self, new: &Self)
        requires
            self.wf(),
            self.same_list(new),
        ensures
            new.wf(),
    {
        reveal(TrieNodes::wf_links);
        reveal(TrieNodes::wf_list);
        reveal(TrieNodes::wf_sorted);
        reveal(TrieNodes::wf_leaves);
        reveal(TrieNodes::wf_contents);
        assert forall|q: int| 0 <= q < self.order@.len() implies #[trigger] new.key_at(q)
            == self.key_at(q) && new.nodes@[self.order@[q] as int] == new.nodes@[self.order@[q] as int]
            && new.nodes@[self.order@[q] as int].x == self.nodes@[self.order@[q] as int].x by {
            let m = self.order@[q] as int;
            assert(new.nodes@[m].x == self.nodes@[m].x);
        }
        assert forall|q: int| 0 <= q < new.order@.len() implies {
            &&& 3 <= #[trigger] new.order@[q] < new.nodes@.len()
            &&& is_leaf(new.nodes@[new.order@[q] as int])
            &&& new.nodes@[new.order@[q] as int].next == Some(new.succ(q))
            &&& new.nodes@[new.order@[q] as int].prev == Some(new.pred(q))
        } by {
            let m = self.order@[q] as int;
            assert(new.nodes@[m].x == self.nodes@[m].x);
        }
        assert(new.nodes@[MIN_PREV as int].x == self.nodes@[MIN_PREV as int].x);
        assert(new.nodes@[MAX_NEXT as int].x == self.nodes@[MAX_NEXT as int].x);
        assert forall|j: usize|
            (j as int) < new.nodes@.len() && is_leaf(#[trigger] new.nodes@[j as int]) implies new.order@.contains(
            j,
        ) by {
            if j < self.nodes@.len() {
                assert(is_leaf(self.nodes@[j as int]));
            }
        }
        assert forall|k: usize| new.contents@.contains_key(k) implies exists|q: int|
            0 <= q < new.order@.len() && #[trigger] new.key_at(q) == k by {
            let q = choose|q: int| 0 <= q < self.order@.len() && #[trigger] self.key_at(q) == k;
            assert(new.key_at(q) == k);
        }
    }

    /// Places `node` in a slot taken from `free` (if that slot holds no leaf
    /// and is no sentinel) or in a new slot at the end.
    fn place(&mut self, free: &mut Vec<usize>, node: Node<T>) -> (r: usize)
        requires
            3 <= old(self).nodes@.len(),
        ensures
            3 <= r <= old(self).nodes@.len(),
            r == old(self).nodes@.len() ==> final(self).nodes@ == old(self).nodes@.push(node),
            r < old(self).nodes@.len() ==> final(self).nodes@ == old(self).nodes@.update(r as int, node)
                && !is_leaf(old(self).nodes@[r as int]),
            final(self).w == old(self).w,
            final(self).order == old(self).order,
            final(self).contents == old(self).contents,
    {
        match free.pop() {
            Some(f) => {
                if 3 <= f && f < self.nodes.len() && self.key(f).is_none() {
                    self.nodes.set(f, node);
                    return f;
                }
            },
            None => {},
        }
        let r = self.nodes.len();
        self.nodes.push(node);
        r
    }

    /// The slot of the `b`-side child of slot `i`.
    pub(crate) fn child(&self, i: usize, b: usize) -> (r: Option<usize>)
        requires
            self.wf(),
            i < self.nodes@.len(),
            b < 2,
        ensures
            r == self.nodes@[i as int].children@[b as int],
            r matches Some(c) ==> c < self.nodes@.len(),
    {
        proof {
            reveal(TrieNodes::wf_links);
            assert(node_ok(self.nodes@[i as int], self.nodes@.len()));
        }
        self.nodes[i].children[b]
    }

    /// The node in slot `i`; its links are in range.
    pub(crate) fn node(&self, i: usize) -> (r: Node<T>)
        requires
            self.wf(),
            i < self.nodes@.len(),
        ensures
            r == self.nodes@[i as int],
            node_ok(r, self.nodes@.len()),
    {
        proof {
            reveal(TrieNodes::wf_links);
        }
        self.nodes[i]
    }

    /// Replaces the trie links (children, parent, jump) of slot `i`; the key
    /// and the list links stay.
    pub(crate) fn set_trie_links(&mut self, i: usize, n: Node<T>)
        requires
            old(self).wf(),
            i < old(self).nodes@.len(),
            n.x == old(self).nodes@[i as int].x,
            n.prev == old(self).nodes@[i as int].prev,
            n.next == old(self).nodes@[i as int].next,
            node_ok(n, old(self).nodes@.len()),
        ensures
            final(self).wf(),
            final(self).nodes@ == old(self).nodes@.update(i as int, n),
            final(self).w == old(self).w,
            final(self).order == old(self).order,
            final(self).contents == old(self).contents,
    {
        self.nodes.set(i, n);
        proof {
            reveal(TrieNodes::wf_links);
            assert forall|j: int| 0 <= j < self.nodes@.len() implies node_ok(
                #[trigger] self.nodes@[j],
                self.nodes@.len(),
            ) by {
                if j != i {
                    assert(node_ok(old(self).nodes@[j], old(self).nodes@.len()));
                }
            }
            old(self).lemma_same_list(self);
        }
    }

    /// Adds an unlinked path node and returns its slot.
    pub(crate) fn add_path_node(&mut self, free: &mut Vec<usize>) -> (r: usize)
        requires
            old(self).wf(),
        ensures
            final(self).wf(),
            r < final(self).nodes@.len(),
            final(self).nodes@.len() >= old(self).nodes@.len(),
            final(self).nodes@[r as int].x == PathNodeOrLeaf::<T>::PathNode,
            final(self).nodes@[r as int].unlinked(),
            forall|j: int| 0 <= j < old(self).nodes@.len() && j != r ==> final(self).nodes@[j] == old(self).nodes@[j],
            final(self).w == old(self).w,
            final(self).order == old(self).order,
            final(self).contents == old(self).contents,
    {
        proof {
            reveal(TrieNodes::wf_links);
        }
        let node: Node<T> = Node::new_path_node();
        let r = self.place(free, node);
        proof {
            assert forall|j: int| 0 <= j < self.nodes@.len() implies node_ok(
                #[trigger] self.nodes@[j],
                self.nodes@.len(),
            ) by {
                if j != r {
                    assert(node_ok(old(self).nodes@[j], old(self).nodes@.len()));
                }
            }
            old(self).lemma_same_list(self);
        }
        r
    }

    /// `new` is `self` with a leaf for `v` in slot `l`, spliced into the list
    /// after position `pp`.
    pub(crate) open spec fn spliced_in(&self, new: &Self, pp: int, l: usize, v: T) -> bool {
        let c = self.at(pp);
        let n = self.succ(pp);
        let len = self.nodes@.len();
        &&& new.w == self.w
        &&& new.order@ == self.order@.insert(pp + 1, l)
        &&& new.contents@ == self.contents@.insert(v.usize_view(), v)
        &&& 3 <= l <= len
        &&& new.nodes@.len() == if l == len { len + 1 } else { len }
        &&& l < len ==> !is_leaf(self.nodes@[l as int])
        &&& new.nodes@[l as int].x == PathNodeOrLeaf::Leaf(v)
        &&& new.nodes@[l as int].prev == Some(c)
        &&& new.nodes@[l as int].next == Some(n)
        &&& new.nodes@[c as int].x == self.nodes@[c as int].x
        &&& new.nodes@[c as int].prev == self.nodes@[c as int].prev
        &&& new.nodes@[c as int].next == Some(l)
        &&& new.nodes@[n as int].x == self.nodes@[n as int].x
        &&& new.nodes@[n as int].next == self.nodes@[n as int].next
        &&& new.nodes@[n as int].prev == Some(l)
        &&& forall|j: int|
            0 <= j < len && j != l && j != c && j != n ==> #[trigger] new.nodes@[j] == self.nodes@[j]
    }

    /// The slots next to list position `pp` are distinct from each other and
    /// from any slot outside the list but the sentinels.
    proof fn lemma_neighbours(&self, pp: int)
        requires
            self.wf(),
            -1 <= pp < self.order@.len(),
        ensures
            self.at(pp) != self.succ(pp),
            self.at(pp) < self.nodes@.len(),
            self.succ(pp) < self.nodes@.len(),
            self.nodes@[self.at(pp) as int].next == Some(self.succ(pp)),
            self.nodes@[self.succ(pp) as int].prev == Some(self.at(pp)),
            forall|l: usize|
                3 <= l && !self.order@.contains(l) ==> l != self.at(pp) && l != self.succ(pp),
    {
        reveal(TrieNodes::wf_list);
        reveal(TrieNodes::wf_sorted);
        if pp >= 0 && pp + 1 < self.order@.len() {
            assert(self.key_at(pp) < self.key_at(pp + 1));
        }
        if pp + 1 < self.order@.len() {
            assert(self.nodes@[self.order@[pp + 1] as int].prev == Some(self.pred(pp + 1)));
        }
        assert forall|l: usize|
            3 <= l && !self.order@.contains(l) implies l != self.at(pp) && l != self.succ(pp) by {
            if pp >= 0 {
                assert(self.order@[pp] == self.at(pp));
            }
            if pp + 1 < self.order@.len() {
                assert(self.order@[pp + 1] == self.succ(pp));
            }
        }
    }

    proof fn lemma_splice_keys(&self, new: &Self, pp: int, l: usize, v: T)
        requires
            self.wf(),
            self.is_prev_at(v.usize_view(), pp),
            !self.contents@.contains_key(v.usize_view()),
            !self.order@.contains(l),
            self.spliced_in(new, pp, l, v),
        ensures
            forall|q: int| 0 <= q < self.order@.len() ==> (#[trigger] self.order@[q] != self.at(pp) || q == pp)
                && self.order@[q] != l && (self.order@[q] != self.succ(pp) || q == pp + 1),
            forall|q: int| 0 <= q < new.order@.len() ==> #[trigger] new.order@[q] == if q <= pp {
                self.order@[q]
            } else if q == pp + 1 {
                l
            } else {
                self.order@[q - 1]
            },
            forall|q: int| 0 <= q < new.order@.len() ==> #[trigger] new.key_at(q) == if q <= pp {
                self.key_at(q)
            } else if q == pp + 1 {
                v.usize_view()
            } else {
                self.key_at(q - 1)
            },
            pp + 1 < self.order@.len() ==> self.key_at(pp + 1) > v.usize_view(),
    {
        reveal(TrieNodes::wf_list);
        reveal(TrieNodes::wf_sorted);
        reveal(TrieNodes::wf_contents);
        self.lemma_neighbours(pp);
        let o = self.order@;
        let o2 = new.order@;
        let c = self.at(pp);
        let n = self.succ(pp);
        if pp + 1 < o.len() {
            assert(self.contents@.contains_key(self.key_at(pp + 1)));
        }
        assert forall|q: int| 0 <= q < o.len() implies (#[trigger] o[q] != c || q == pp) && o[q] != l && (
        o[q] != n || q == pp + 1) by {
            if q != pp && o[q] == c {
                assert(self.key_at(q) < self.key_at(pp) || self.key_at(pp) < self.key_at(q));
            }
            if q != pp + 1 && o[q] == n {
                assert(self.key_at(q) < self.key_at(pp + 1) || self.key_at(pp + 1) < self.key_at(q));
            }
        }
        assert forall|q: int| 0 <= q < o2.len() implies #[trigger] new.key_at(q) == if q <= pp {
            self.key_at(q)
        } else if q == pp + 1 {
            v.usize_view()
        } else {
            self.key_at(q - 1)
        } by {
            if q <= pp {
                assert(o2[q] == o[q]);
            } else if q > pp + 1 {
                assert(o2[q] == o[q - 1]);
            }
        }
    }

    proof fn lemma_splice_list(&self, new: &Self, pp: int, l: usize, v: T)
        requires
            self.wf(),
            self.is_prev_at(v.usize_view(), pp),
            !self.contents@.contains_key(v.usize_view()),
            !self.order@.contains(l),
            self.spliced_in(new, pp, l, v),
        ensures
            new.wf_list(),
    {
        reveal(TrieNodes::wf_list);
        self.lemma_neighbours(pp);
        self.lemma_splice_keys(new, pp, l, v);
        let o = self.order@;
        let o2 = new.order@;
        assert forall|q: int| 0 <= q < o2.len() implies {
            &&& 3 <= #[trigger] o2[q] < new.nodes@.len()
            &&& is_leaf(new.nodes@[o2[q] as int])
            &&& new.nodes@[o2[q] as int].next == Some(new.succ(q))
            &&& new.nodes@[o2[q] as int].prev == Some(new.pred(q))
        } by {
            if q < pp {
                assert(o2[q + 1] == o[q + 1]);
                assert(self.nodes@[o[q] as int].next == Some(self.succ(q)));
                assert(self.nodes@[o[q] as int].prev == Some(self.pred(q)));
            } else if q == pp {
                assert(self.nodes@[o[q] as int].prev == Some(self.pred(q)));
            } else if q == pp + 1 {
            } else {
                assert(self.nodes@[o[q - 1] as int].next == Some(self.succ(q - 1)));
                assert(self.nodes@[o[q - 1] as int].prev == Some(self.pred(q - 1)));
            }
        }
        assert(new.nodes@[MIN_PREV as int].x == self.nodes@[MIN_PREV as int].x);
        assert(new.nodes@[MAX_NEXT as int].x == self.nodes@[MAX_NEXT as int].x);
    }

    proof fn lemma_splice_sorted(&self, new: &Self, pp: int, l: usize, v: T)
        requires
            self.wf(),
            self.is_prev_at(v.usize_view(), pp),
            !self.contents@.contains_key(v.usize_view()),
            !self.order@.contains(l),
            self.spliced_in(new, pp, l, v),
        ensures
            new.wf_sorted(),
    {
        reveal(TrieNodes::wf_sorted);
        self.lemma_splice_keys(new, pp, l, v);
        let o2 = new.order@;
        assert forall|a: int, b: int| 0 <= a < b < o2.len() implies #[trigger] new.key_at(a)
            < #[trigger] new.key_at(b) by {
            if a <= pp && b > pp + 1 {
                assert(self.key_at(a) < self.key_at(b - 1) || a == b - 1);
            }
            if a < pp && b == pp + 1 {
                assert(self.key_at(a) < self.key_at(pp));
            }
            if a == pp + 1 && b > pp + 2 {
                assert(self.key_at(pp + 1) < self.key_at(b - 1));
            }
        }
    }

    proof fn lemma_splice_leaves(&self, new: &Self, pp: int, l: usize, v: T)
        requires
            self.wf(),
            self.is_prev_at(v.usize_view(), pp),
            !self.contents@.contains_key(v.usize_view()),
            !self.order@.contains(l),
            self.spliced_in(new, pp, l, v),
        ensures
            new.wf_leaves(),
    {
        reveal(TrieNodes::wf_leaves);
        self.lemma_neighbours(pp);
        self.lemma_splice_keys(new, pp, l, v);
        let o = self.order@;
        let o2 = new.order@;
        assert forall|j: usize|
            (j as int) < new.nodes@.len() && is_leaf(#[trigger] new.nodes@[j as int]) implies o2.contains(
            j,
        ) by {
            if j == l {
                assert(o2[pp + 1] == l);
            } else {
                assert(is_leaf(self.nodes@[j as int]));
                assert(o.contains(j));
                let q = choose|q: int| 0 <= q < o.len() && o[q] == j;
                assert(o[q] == j);
                if q <= pp {
                    assert(o2[q] == j);
                } else {
                    assert(o2[q + 1] == j);
                }
            }
        }
    }

    proof fn lemma_splice_contents(&self, new: &Self, pp: int, l: usize, v: T)
        requires
            self.wf(),
            self.is_prev_at(v.usize_view(), pp),
            !self.contents@.contains_key(v.usize_view()),
            !self.order@.contains(l),
            self.spliced_in(new, pp, l, v),
        ensures
            new.wf_contents(),
    {
        reveal(TrieNodes::wf_contents);
        reveal(TrieNodes::wf_sorted);
        reveal(TrieNodes::wf_list);
        self.lemma_neighbours(pp);
        self.lemma_splice_keys(new, pp, l, v);
        let k = v.usize_view();
        let o = self.order@;
        let o2 = new.order@;
        assert forall|q: int| 0 <= q < o2.len() implies {
            &&& new.contents@.contains_key(#[trigger] new.key_at(q))
            &&& new.contents@[new.key_at(q)] == val_of(new.nodes@[o2[q] as int])
        } by {
            if q <= pp {
                assert(self.key_at(q) != k);
                assert(self.contents@.contains_key(self.key_at(q)));
                assert(new.nodes@[o2[q] as int].x == self.nodes@[o[q] as int].x);
            } else if q > pp + 1 {
                assert(new.nodes@[o2[q] as int].x == self.nodes@[o[q - 1] as int].x);
                assert(self.key_at(q - 1) != k);
                assert(self.contents@.contains_key(self.key_at(q - 1)));
            }
        }
        assert forall|kk: usize| new.contents@.contains_key(kk) implies exists|q: int|
            0 <= q < o2.len() && #[trigger] new.key_at(q) == kk by {
            if kk == k {
                assert(new.key_at(pp + 1) == kk);
            } else {
                let q = choose|q: int| 0 <= q < o.len() && #[trigger] self.key_at(q) == kk;
                if q <= pp {
                    assert(new.key_at(q) == kk);
                } else {
                    assert(new.key_at(q + 1) == kk);
                }
            }
        }
    }

    /// Puts a new leaf for `v` into the list right after list position `p`,
    /// the last place below the key of `v`; returns the leaf's slot.
    pub(crate) fn insert_after(&mut self, free: &mut Vec<usize>, c: usize, p: Ghost<int>, v: T) -> (r:
        usize)
        requires
            old(self).wf(),
            old(self).is_prev_at(v.usize_view(), p@),
            old(self).at(p@) == c,
            !old(self).contents@.contains_key(v.usize_view()),
        ensures
            final(self).wf(),
            r < final(self).nodes@.len(),
            is_leaf(final(self).nodes@[r as int]),
            final(self).order@ == old(self).order@.insert(p@ + 1, r),
            final(self).contents@ == old(self).contents@.insert(v.usize_view(), v),
            final(self).w == old(self).w,
    {
        proof {
            old(self).lemma_neighbours(p@);
            reveal(TrieNodes::wf_links);
            reveal(TrieNodes::wf_leaves);
        }
        let n = self.nodes[c].next.unwrap();
        let mut leaf: Node<T> = Node::new_leaf(v);
        leaf.prev = Some(c);
        leaf.next = Some(n);
        let l = self.place(free, leaf);
        proof {
            assert(!old(self).order@.contains(l)) by {
                if old(self).order@.contains(l) {
                    let q = choose|q: int|
                        0 <= q < old(self).order@.len() && old(self).order@[q] == l;
                    assert(old(self).wf_list());
                    reveal(TrieNodes::wf_list);
                    assert(is_leaf(old(self).nodes@[old(self).order@[q] as int]));
                }
            }
        }
        let mut nc = self.nodes[c];
        nc.next = Some(l);
        self.nodes.set(c, nc);
        let mut nn = self.nodes[n];
        nn.prev = Some(l);
        self.nodes.set(n, nn);
        self.order = Ghost(old(self).order@.insert(p@ + 1, l));
        self.contents = Ghost(old(self).contents@.insert(v.usize_view(), v));
        proof {
            old(self).lemma_splice_list(self, p@, l, v);
            old(self).lemma_splice_sorted(self, p@, l, v);
            old(self).lemma_splice_leaves(self, p@, l, v);
            old(self).lemma_splice_contents(self, p@, l, v);
            assert forall|j: int| 0 <= j < self.nodes@.len() implies node_ok(
                #[trigger] self.nodes@[j],
                self.nodes@.len(),
            ) by {
                if j < old(self).nodes@.len() {
                    assert(node_ok(old(self).nodes@[j], old(self).nodes@.len()));
                }
            }
        }
        l
    }

    /// `new` is `self` with the leaf at list position `pp` taken out of the
    /// list and turned into a path node.
    pub(crate) open spec fn spliced_out(&self, new: &Self, pp: int) -> bool {
        let l = self.order@[pp];
        let c = self.at(pp - 1);
        let n = self.succ(pp);
        &&& new.w == self.w
        &&& new.order@ == self.order@.remove(pp)
        &&& new.contents@ == self.contents@.remove(self.key_at(pp))
        &&& new.nodes@.len() == self.nodes@.len()
        &&& new.nodes@[l as int].x == PathNodeOrLeaf::<T>::PathNode
        &&& new.nodes@[l as int].prev.is_none()
        &&& new.nodes@[l as int].next.is_none()
        &&& new.nodes@[c as int].x == self.nodes@[c as int].x
        &&& new.nodes@[c as int].prev == self.nodes@[c as int].prev
        &&& new.nodes@[c as int].next == Some(n)
        &&& new.nodes@[n as int].x == self.nodes@[n as int].x
        &&& new.nodes@[n as int].next == self.nodes@[n as int].next
        &&& new.nodes@[n as int].prev == Some(c)
        &&& forall|j: int|
            0 <= j < self.nodes@.len() && j != l && j != c && j != n ==> #[trigger] new.nodes@[j]
                == self.nodes@[j]
    }

    /// What the list place before `num` says of the keys held.
    pub(crate) proof fn lemma_prev_facts(&self, num: usize, p: int)
        requires
            self.wf(),
            self.is_prev_at(num, p),
        ensures
            p >= 0 ==> self.contents@.contains_key(self.key_at(p)),
            forall|j: usize|
                self.contents@.contains_key(j) && j < num ==> p >= 0 && j <= self.key_at(p),
            self.contents@.contains_key(num) <==> (p + 1 < self.order@.len() && self.key_at(p + 1)
                == num),
            p + 1 < self.order@.len() ==> self.contents@.contains_key(self.key_at(p + 1))
                && self.contents@[self.key_at(p + 1)] == val_of(
                self.nodes@[self.order@[p + 1] as int],
            ),
    {
        reveal(TrieNodes::wf_sorted);
        reveal(TrieNodes::wf_contents);
        assert forall|j: usize| self.contents@.contains_key(j) && j < num implies p >= 0 && j
            <= self.key_at(p) by {
            let q = choose|q: int| 0 <= q < self.order@.len() && #[trigger] self.key_at(q) == j;
            if q > p + 1 {
                assert(self.key_at(p + 1) < self.key_at(q));
            }
            if q < p {
                assert(self.key_at(q) < self.key_at(p));
            }
        }
        if self.contents@.contains_key(num) {
            let q = choose|q: int| 0 <= q < self.order@.len() && #[trigger] self.key_at(q) == num;
            if q > p + 1 {
                assert(self.key_at(p + 1) < self.key_at(q));
            }
            if q < p {
                assert(self.key_at(q) < self.key_at(p));
            }
        }
    }

    /// The key numbers along the list, from the smallest.
    pub(crate) open spec fn key_seq(&self) -> Seq<usize> {
        Seq::new(self.order@.len(), |p: int| self.key_at(p))
    }

    /// The key numbers read by walking the list from `MIN_PREV` to `MAX_NEXT`.
    pub(crate) fn walk_keys(&self) -> (r: Vec<usize>)
        requires
            self.wf(),
        ensures
            r@ == self.key_seq(),
            forall|a: int, b: int| 0 <= a < b < r@.len() ==> r@[a] < r@[b],
            forall|k: usize| self.contents@.contains_key(k) <==> r@.contains(k),
    {
        let mut r: Vec<usize> = Vec::new();
        let mut cur: usize = MIN_PREV;
        let ghost mut p: int = -1;
        loop
            invariant
                self.wf(),
                -1 <= p < self.order@.len(),
                cur == self.at(p),
                r@ == self.key_seq().subrange(0, p + 1),
            ensures
                r@ == self.key_seq(),
            decreases self.order@.len() - p,
        {
            proof {
                reveal(TrieNodes::wf_list);
                reveal(TrieNodes::wf_links);
            }
            assert(self.nodes@[cur as int].next == Some(self.succ(p)));
            let n = self.nodes[cur].next.unwrap();
            if n == MAX_NEXT {
                proof {
                    if p + 1 < self.order@.len() {
                        assert(self.order@[p + 1] >= 3);
                    }
                    assert(r@ =~= self.key_seq());
                }
                break;
            }
            let k = self.key(n).unwrap();
            r.push(k);
            cur = n;
            proof {
                p = p + 1;
                assert(r@ =~= self.key_seq().subrange(0, p + 1));
            }
        }
        proof {
            reveal(TrieNodes::wf_sorted);
            reveal(TrieNodes::wf_contents);
            assert forall|k: usize| self.contents@.contains_key(k) implies r@.contains(k) by {
                let q = choose|q: int| 0 <= q < self.order@.len() && #[trigger] self.key_at(q) == k;
                assert(r@[q] == self.key_seq()[q]);
            }
            assert forall|k: usize| r@.contains(k) implies self.contents@.contains_key(k) by {
                let q = choose|q: int| 0 <= q < r@.len() && r@[q] == k;
                assert(self.key_at(q) == k);
            }
        }
        r
    }

    /// Facts about the list around position `pp`.
    pub(crate) proof fn lemma_around(&self, pp: int)
        requires
            self.wf(),
            0 <= pp < self.order@.len(),
        ensures
            self.at(pp - 1) != self.order@[pp],
            self.succ(pp) != self.order@[pp],
            self.at(pp - 1) != self.succ(pp),
            self.order@[pp] < self.nodes@.len(),
            self.at(pp - 1) < self.nodes@.len(),
            self.succ(pp) < self.nodes@.len(),
            is_leaf(self.nodes@[self.order@[pp] as int]),
            self.nodes@[self.order@[pp] as int].prev == Some(self.at(pp - 1)),
            self.nodes@[self.order@[pp] as int].next == Some(self.succ(pp)),
            self.contents@.contains_key(self.key_at(pp)),
            self.contents@[self.key_at(pp)] == val_of(self.nodes@[self.order@[pp] as int]),
            forall|q: int| 0 <= q < self.order@.len() ==> (#[trigger] self.order@[q] != self.order@[pp] || q == pp)
                && (self.order@[q] != self.at(pp - 1) || q == pp - 1) && (self.order@[q] != self.succ(pp) || q == pp + 1),
    {
        reveal(TrieNodes::wf_list);
        reveal(TrieNodes::wf_sorted);
        reveal(TrieNodes::wf_contents);
        let o = self.order@;
        let l = o[pp];
        if pp > 0 {
            assert(self.key_at(pp - 1) < self.key_at(pp));
        }
        if pp + 1 < o.len() {
            assert(self.key_at(pp) < self.key_at(pp + 1));
        }
        if pp > 0 && pp + 1 < o.len() {
            assert(self.key_at(pp - 1) < self.key_at(pp + 1));
        }
        assert forall|q: int| 0 <= q < o.len() implies (#[trigger] o[q] != l || q == pp) && (o[q]
            != self.at(pp - 1) || q == pp - 1) && (o[q] != self.succ(pp) || q == pp + 1) by {
            if q != pp && o[q] == l {
                assert(self.key_at(q) < self.key_at(pp) || self.key_at(pp) < self.key_at(q));
            }
            if q != pp - 1 && o[q] == self.at(pp - 1) {
                assert(self.key_at(q) < self.key_at(pp - 1) || self.key_at(pp - 1) < self.key_at(q));
            }
            if q != pp + 1 && o[q] == self.succ(pp) {
                assert(self.key_at(q) < self.key_at(pp + 1) || self.key_at(pp + 1) < self.key_at(q));
            }
        }
    }

    proof fn lemma_out_keys(&self, new: &Self, pp: int)
        requires
            self.wf(),
            0 <= pp < self.order@.len(),
            self.spliced_out(new, pp),
        ensures
            self.at(pp - 1) != self.order@[pp],
            self.succ(pp) != self.order@[pp],
            self.at(pp - 1) != self.succ(pp),
            self.order@[pp] < self.nodes@.len(),
            self.at(pp - 1) < self.nodes@.len(),
            self.succ(pp) < self.nodes@.len(),
            forall|q: int| 0 <= q < self.order@.len() ==> (#[trigger] self.order@[q] != self.order@[pp] || q == pp)
                && (self.order@[q] != self.at(pp - 1) || q == pp - 1) && (self.order@[q] != self.succ(pp) || q == pp + 1),
            forall|q: int| 0 <= q < new.order@.len() ==> #[trigger] new.order@[q] == if q < pp {
                self.order@[q]
            } else {
                self.order@[q + 1]
            },
            forall|q: int| 0 <= q < new.order@.len() ==> #[trigger] new.key_at(q) == if q < pp {
                self.key_at(q)
            } else {
                self.key_at(q + 1)
            },
    {
        self.lemma_around(pp);
        let o = self.order@;
        let o2 = new.order@;
        assert forall|q: int| 0 <= q < o2.len() implies #[trigger] new.key_at(q) == if q < pp {
            self.key_at(q)
        } else {
            self.key_at(q + 1)
        } by {
            reveal(TrieNodes::wf_list);
            if q < pp {
                assert(o2[q] == o[q]);
                assert(new.nodes@[o[q] as int].x == self.nodes@[o[q] as int].x);
            } else {
                assert(o2[q] == o[q + 1]);
                assert(new.nodes@[o[q + 1] as int].x == self.nodes@[o[q + 1] as int].x);
            }
        }
    }

    proof fn lemma_out_list(&self, new: &Self, pp: int)
        requires
            self.wf(),
            0 <= pp < self.order@.len(),
            self.spliced_out(new, pp),
        ensures
            new.wf_list(),
    {
        reveal(TrieNodes::wf_list);
        self.lemma_out_keys(new, pp);
        let o = self.order@;
        let o2 = new.order@;
        assert forall|q: int| 0 <= q < o2.len() implies {
            &&& 3 <= #[trigger] o2[q] < new.nodes@.len()
            &&& is_leaf(new.nodes@[o2[q] as int])
            &&& new.nodes@[o2[q] as int].next == Some(new.succ(q))
            &&& new.nodes@[o2[q] as int].prev == Some(new.pred(q))
        } by {
            if q < pp - 1 {
                assert(o2[q + 1] == o[q + 1]);
                assert(self.nodes@[o[q] as int].next == Some(self.succ(q)));
                assert(self.nodes@[o[q] as int].prev == Some(self.pred(q)));
            } else if q == pp - 1 {
                assert(self.nodes@[o[q] as int].prev == Some(self.pred(q)));
            } else if q == pp {
                assert(self.nodes@[o[q + 1] as int].next == Some(self.succ(q + 1)));
            } else {
                assert(self.nodes@[o[q + 1] as int].next == Some(self.succ(q + 1)));
                assert(self.nodes@[o[q + 1] as int].prev == Some(self.pred(q + 1)));
            }
        }
        assert(new.nodes@[MIN_PREV as int].x == self.nodes@[MIN_PREV as int].x);
        assert(new.nodes@[MAX_NEXT as int].x == self.nodes@[MAX_NEXT as int].x);
    }

    proof fn lemma_out_sorted(&self, new: &Self, pp: int)
        requires
            self.wf(),
            0 <= pp < self.order@.len(),
            self.spliced_out(new, pp),
        ensures
            new.wf_sorted(),
    {
        reveal(TrieNodes::wf_sorted);
        self.lemma_out_keys(new, pp);
        let o2 = new.order@;
        assert forall|a: int, b: int| 0 <= a < b < o2.len() implies #[trigger] new.key_at(a)
            < #[trigger] new.key_at(b) by {
            if a < pp && b >= pp {
                assert(self.key_at(a) < self.key_at(b + 1));
            } else if a >= pp {
                assert(self.key_at(a + 1) < self.key_at(b + 1));
            } else {
                assert(self.key_at(a) < self.key_at(b));
            }
        }
    }

    proof fn lemma_out_leaves(&self, new: &Self, pp: int)
        requires
            self.wf(),
            0 <= pp < self.order@.len(),
            self.spliced_out(new, pp),
        ensures
            new.wf_leaves(),
    {
        reveal(TrieNodes::wf_leaves);
        self.lemma_out_keys(new, pp);
        let o = self.order@;
        let o2 = new.order@;
        assert forall|j: usize|
            (j as int) < new.nodes@.len() && is_leaf(#[trigger] new.nodes@[j as int]) implies o2.contains(
            j,
        ) by {
            assert(j != o[pp]);
            assert(is_leaf(self.nodes@[j as int]));
            assert(o.contains(j));
            let q = choose|q: int| 0 <= q < o.len() && o[q] == j;
            assert(o[q] == j);
            if q < pp {
                assert(o2[q] == j);
            } else {
                assert(q != pp);
                assert(o2[q - 1] == j);
            }
        }
    }

    proof fn lemma_out_contents(&self, new: &Self, pp: int)
        requires
            self.wf(),
            0 <= pp < self.order@.len(),
            self.spliced_out(new, pp),
        ensures
            new.wf_contents(),
    {
        reveal(TrieNodes::wf_contents);
        reveal(TrieNodes::wf_sorted);
        reveal(TrieNodes::wf_list);
        self.lemma_out_keys(new, pp);
        let k = self.key_at(pp);
        let o = self.order@;
        let o2 = new.order@;
        assert forall|q: int| 0 <= q < o2.len() implies {
            &&& new.contents@.contains_key(#[trigger] new.key_at(q))
            &&& new.contents@[new.key_at(q)] == val_of(new.nodes@[o2[q] as int])
        } by {
            if q < pp {
                assert(self.key_at(q) < k);
                assert(self.contents@.contains_key(self.key_at(q)));
                assert(new.nodes@[o2[q] as int].x == self.nodes@[o[q] as int].x);
            } else {
                assert(self.key_at(pp) < self.key_at(q + 1));
                assert(self.contents@.contains_key(self.key_at(q + 1)));
                assert(new.nodes@[o2[q] as int].x == self.nodes@[o[q + 1] as int].x);
            }
        }
        assert forall|kk: usize| new.contents@.contains_key(kk) implies exists|q: int|
            0 <= q < o2.len() && #[trigger] new.key_at(q) == kk by {
            let q = choose|q: int| 0 <= q < o.len() && #[trigger] self.key_at(q) == kk;
            assert(q != pp);
            if q < pp {
                assert(new.key_at(q) == kk);
            } else {
                assert(new.key_at(q - 1) == kk);
            }
        }
    }

    /// Takes the leaf at list position `p` (in slot `l`) out of the list,
    /// turns its slot into a path node, and returns its key.
    pub(crate) fn unlink(&mut self, l: usize, p: Ghost<int>) -> (r: T)
        requires
            old(self).wf(),
            0 <= p@ < old(self).order@.len(),
            old(self).order@[p@] == l,
        ensures
            final(self).wf(),
            r == old(self).contents@[old(self).key_at(p@)],
            r.usize_view() == old(self).key_at(p@),
            final(self).order@ == old(self).order@.remove(p@),
            final(self).contents@ == old(self).contents@.remove(old(self).key_at(p@)),
            final(self).nodes@.len() == old(self).nodes@.len(),
            final(self).w == old(self).w,
    {
        proof {
            reveal(TrieNodes::wf_links);
            old(self).lemma_around(p@);
        }
        let ghost pp = p@;
        let mut nl = self.nodes[l];
        let c = nl.prev.unwrap();
        let n = nl.next.unwrap();
        let v = nl.value().unwrap();
        nl.x = PathNodeOrLeaf::PathNode;
        nl.prev = None;
        nl.next = None;
        self.nodes.set(l, nl);
        let mut nc = self.nodes[c];
        nc.next = Some(n);
        self.nodes.set(c, nc);
        let mut nn = self.nodes[n];
        nn.prev = Some(c);
        self.nodes.set(n, nn);
        self.order = Ghost(old(self).order@.remove(pp));
        self.contents = Ghost(old(self).contents@.remove(old(self).key_at(pp)));
        proof {
            old(self).lemma_out_keys(self, pp);
            old(self).lemma_out_list(self, pp);
            old(self).lemma_out_sorted(self, pp);
            old(self).lemma_out_leaves(self, pp);
            old(self).lemma_out_contents(self, pp);
            assert forall|j: int| 0 <= j < self.nodes@.len() implies node_ok(
                #[trigger] self.nodes@[j],
                self.nodes@.len(),
            ) by {
                assert(node_ok(old(self).nodes@[j], old(self).nodes@.len()));
            }
            assert(old(self).contents@.contains_key(old(self).key_at(pp)));
        }
        v
    }
}

} // verus!
