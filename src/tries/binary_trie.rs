use vstd::prelude::*;

use crate::tries::arena::{empty_node, is_leaf, key_of, node_ok, val_of, Node, TrieNodes, MAX_NEXT, MIN_PREV, ROOT};
use crate::interfaces::USet;
use crate::tries::laws::add_step;
use crate::tries::links::{walk_end, StrongLinkNode};
use crate::tries::bits::{Binary, PathNodeOrLeaf, ToUsize};

verus! {

/// A binary trie over `w`-bit keys: path nodes by prefix, leaves chained in
/// ascending order between two sentinels, and jump pointers from one-child
/// path nodes to the nearest leaf on their missing side.
pub struct BinaryTrie<T: Copy + ToUsize> {
    pub(crate) nodes: TrieNodes<T>,
    pub(crate) free: Vec<usize>,
}

impl<T: Copy + ToUsize> View for BinaryTrie<T> {
    type V = Map<usize, T>;

    /// Each held key, by its number.
    closed spec fn view(&self) -> Map<usize, T> {
        self.nodes.contents@
    }
}

/// The trie walk shared by the binary and the x-fast trie: the slots of the
/// trie links it reads are all in range, so it needs no more than `wf`.
impl<T: Copy + ToUsize> TrieNodes<T> {
    /// The key number of the leaf in slot `i`, or `None` when it is no leaf.
    pub(crate) fn num_at(&self, i: Option<usize>) -> (r: Option<usize>)
        requires
            self.wf(),
            i matches Some(j) ==> j < self.nodes@.len(),
        ensures
            i is Some && is_leaf(self.nodes@[i.unwrap() as int]) ==> r == Some(
                key_of(self.nodes@[i.unwrap() as int]),
            ),
            i is Some && !is_leaf(self.nodes@[i.unwrap() as int]) ==> r is None,
            i is None ==> r is None,
    {
        match i {
            Some(j) => self.key(j),
            None => None,
        }
    }

    /// Where a walk from slot `i` that keeps to the `b` side ends after at
    /// most `fuel` steps.
    pub(crate) open spec fn walk_end_in(&self, i: usize, b: int, fuel: nat) -> usize
        decreases fuel,
    {
        if fuel == 0 || i >= self.nodes@.len() {
            i
        } else {
            match self.nodes@[i as int].children@[b] {
                Some(c) => self.walk_end_in(c, b, (fuel - 1) as nat),
                None => i,
            }
        }
    }

    /// The leaf a walk from `start` along `b`-side children (at most `w + 1`
    /// steps) ends on, or the jump pointer of the path node it ends on.
    pub(crate) open spec fn extreme_spec(&self, start: Option<usize>, b: int) -> Option<usize> {
        match start {
            None => None,
            Some(s) => {
                let e = self.walk_end_in(s, b, (self.w + 1) as nat);
                if is_leaf(self.nodes@[e as int]) {
                    Some(e)
                } else {
                    self.nodes@[e as int].jump
                }
            },
        }
    }

    /// The leaf reached from `start` by following `b`-side children, then the
    /// jump pointer if the walk ends on a path node (the smallest leaf below
    /// for `Zero`, the largest for `One`).
    pub(crate) fn extreme_leaf(&self, start: Option<usize>, b: usize) -> (r: Option<usize>)
        requires
            self.wf(),
            b < 2,
            start matches Some(s) ==> s < self.nodes@.len(),
        ensures
            r == self.extreme_spec(start, b as int),
            r matches Some(j) ==> j < self.nodes@.len(),
    {
        match start {
            None => None,
            Some(s) => {
                proof {
                    reveal(TrieNodes::wf_links);
                }
                let fuel = self.w + 1;
                let mut node = s;
                let mut steps: usize = 0;
                while steps < fuel && self.child(node, b).is_some()
                    invariant
                        self.wf(),
                        b < 2,
                        node < self.nodes@.len(),
                        steps <= fuel,
                        fuel == self.w + 1,
                        self.w <= 63,
                        self.walk_end_in(s, b as int, fuel as nat) == self.walk_end_in(
                            node,
                            b as int,
                            (fuel - steps) as nat,
                        ),
                    decreases fuel - steps,
                {
                    node = self.child(node, b).unwrap();
                    steps = steps + 1;
                }
                let n = self.node(node);
                if self.key(node).is_some() {
                    Some(node)
                } else {
                    n.jump
                }
            },
        }
    }

    /// Points the jump of slot `i` at the largest leaf under its `Zero` child
    /// (`b` is `Zero`) or the smallest under its `One` child; nothing when
    /// that child is absent.
    pub(crate) fn update_jump(&mut self, i: usize, b: Binary)
        requires
            old(self).wf(),
            i < old(self).nodes@.len(),
        ensures
            final(self).wf(),
            final(self).nodes@ == old(self).nodes@.update(
                i as int,
                (Node {
                    jump: old(self).extreme_spec(
                        old(self).nodes@[i as int].children@[b.num() as int],
                        1 - b.num(),
                    ),
                    ..old(self).nodes@[i as int]
                }),
            ),
            final(self).w == old(self).w,
            final(self).order == old(self).order,
            final(self).contents == old(self).contents,
    {
        let side = b.to_num();
        let start = self.child(i, side);
        let jump = self.extreme_leaf(start, 1 - side);
        let mut n = self.node(i);
        n.jump = jump;
        self.set_trie_links(i, n);
    }

    /// The trie's guess at the list place before `num`: walk down the bits of
    /// `num` while children exist, then take the jump pointer of the deepest
    /// node, stepping back one leaf when the jump lands at or past `num`.
    pub(crate) fn descend_prev(&self, num: usize) -> (r: usize)
        requires
            self.wf(),
        ensures
            r < self.nodes@.len(),
    {
        proof {
            assert(self.wf_links());
            reveal(TrieNodes::wf_links);
        }
        let mut node = ROOT;
        let mut digit = self.w;
        while digit >= 1
            invariant
                self.wf(),
                node < self.nodes@.len(),
                digit <= self.w <= 63,
            decreases digit,
        {
            let b = Binary::calc_binary(num, digit).to_num();
            match self.child(node, b) {
                Some(c) => {
                    node = c;
                },
                None => {
                    return self.step_back(self.node(node).jump, num);
                },
            }
            digit = digit - 1;
        }
        if self.key(node) == Some(num) {
            match self.node(node).prev {
                Some(p) => p,
                None => MIN_PREV,
            }
        } else {
            MIN_PREV
        }
    }

    /// From a jump target: the target itself when its key is below `num`,
    /// else the leaf before it.
    pub(crate) fn step_back(&self, jump: Option<usize>, num: usize) -> (r: usize)
        requires
            self.wf(),
            jump matches Some(j) ==> j < self.nodes@.len(),
        ensures
            r < self.nodes@.len(),
    {
        proof {
            reveal(TrieNodes::wf_links);
        }
        match jump {
            None => MIN_PREV,
            Some(j) => {
                match self.key(j) {
                    Some(k) => {
                        if k >= num {
                            match self.node(j).prev {
                                Some(p) => p,
                                None => MIN_PREV,
                            }
                        } else {
                            j
                        }
                    },
                    None => MIN_PREV,
                }
            },
        }
    }

    /// Links the new leaf `leaf` (key number `num`) into the trie: walks down
    /// the bits of `num`, moving jump pointers that the new key overtakes, and
    /// creates the missing path nodes. `created` gets the depth and slot of
    /// each node made.
    pub(crate) fn link_leaf(
        &mut self,
        free: &mut Vec<usize>,
        leaf: usize,
        num: usize,
        created: &mut Vec<(usize, usize)>,
    )
        requires
            old(self).wf(),
            leaf < old(self).nodes@.len(),
        ensures
            final(self).wf(),
            final(self).w == old(self).w,
            final(self).order == old(self).order,
            final(self).contents == old(self).contents,
    {
        proof {
            reveal(TrieNodes::wf_links);
        }
        let w = self.w;
        let mut node = ROOT;
        let mut digit = w;
        while digit >= 1
            invariant
                self.wf(),
                self.w == w,
                old(self).w == w,
                self.order == old(self).order,
                self.contents == old(self).contents,
                node < self.nodes@.len(),
                leaf < self.nodes@.len(),
                digit <= w <= 63,
            decreases digit,
        {
            proof {
                reveal(TrieNodes::wf_links);
            }
            let binary = Binary::calc_binary(num, digit);
            let b = binary.to_num();
            let o = binary.other().to_num();
            match self.child(node, b) {
                Some(c) => {
                    if digit == 1 {
                        return ;
                    }
                    let n = self.node(node);
                    if n.jump.is_some() {
                        let jk = self.num_at(n.jump);
                        let overtaken = match binary {
                            Binary::Zero => jk.is_none() || jk.unwrap() < num,
                            Binary::One => jk.is_some() && jk.unwrap() > num,
                        };
                        if overtaken {
                            let mut m = n;
                            m.jump = Some(leaf);
                            self.set_trie_links(node, m);
                        }
                    }
                    node = c;
                },
                None => {
                    let target = if digit != 1 {
                        let np = self.add_path_node(free);
                        created.push((w - digit + 1, np));
                        let mut m = self.node(np);
                        m.jump = Some(leaf);
                        m.parent = Some(node);
                        self.set_trie_links(np, m);
                        np
                    } else {
                        created.push((w, leaf));
                        let mut m = self.node(leaf);
                        m.parent = Some(node);
                        self.set_trie_links(leaf, m);
                        leaf
                    };
                    let mut n = self.node(node);
                    n.children[b] = Some(target);
                    if n.children[o].is_none() {
                        n.jump = Some(leaf);
                    } else {
                        n.jump = None;
                    }
                    self.set_trie_links(node, n);
                    node = target;
                },
            }
            digit = digit - 1;
        }
    }

    /// Unlinks the leaf formerly in slot `leaf` (key number `num`) from the
    /// trie above it, starting at `parent`: prunes path nodes left without
    /// children and repairs the jump pointers on the way up. `pruned` gets
    /// the depth and slot of each node cut off.
    pub(crate) fn unlink_leaf(
        &mut self,
        free: &mut Vec<usize>,
        leaf: usize,
        parent: Option<usize>,
        num: usize,
        pruned: &mut Vec<(usize, usize)>,
    )
        requires
            old(self).wf(),
            parent matches Some(p) ==> p < old(self).nodes@.len(),
        ensures
            final(self).wf(),
            final(self).w == old(self).w,
            final(self).order == old(self).order,
            final(self).contents == old(self).contents,
    {
        proof {
            reveal(TrieNodes::wf_links);
        }
        let w = self.w;
        let mut parent = parent;
        let mut i: usize = 1;
        while i <= w
            invariant
                self.wf(),
                self.w == w,
                old(self).w == w,
                self.order == old(self).order,
                self.contents == old(self).contents,
                parent matches Some(p) ==> p < self.nodes@.len(),
                1 <= i <= w + 1,
                w <= 63,
            decreases w + 1 - i,
        {
            let pi = match parent {
                Some(pi) => pi,
                None => {
                    return ;
                },
            };
            let binary = Binary::calc_binary(num, i);
            let b = binary.to_num();
            match self.child(pi, b) {
                Some(c) => {
                    if self.child(c, 0).is_none() && self.child(c, 1).is_none() {
                        let mut n = self.node(pi);
                        n.children[b] = None;
                        self.set_trie_links(pi, n);
                        pruned.push((w - i + 1, c));
                        free.push(c);
                    }
                },
                None => {},
            }
            if self.node(pi).jump == Some(leaf) {
                self.update_jump(pi, binary);
            }
            if self.child(pi, b).is_none() && self.node(pi).jump.is_none() {
                self.update_jump(pi, binary.other());
            }
            parent = self.node(pi).parent;
            i = i + 1;
        }
    }
}

impl<T: Copy + ToUsize> BinaryTrie<T> {
    pub closed spec fn wf(&self) -> bool {
        self.nodes.wf()
    }

    /// The number of bits of a key.
    pub closed spec fn width(&self) -> nat {
        self.nodes.w as nat
    }

    /// The key numbers held, in list order.
    pub closed spec fn key_seq(&self) -> Seq<usize> {
        self.nodes.key_seq()
    }

    /// The number of arena slots.
    pub closed spec fn slots(&self) -> nat {
        self.nodes.nodes@.len()
    }

    /// The node in arena slot `i`.
    pub closed spec fn node_at(&self, i: usize) -> Node<T> {
        self.nodes.nodes@[i as int]
    }

    /// The trie is well formed when its arena is.
    pub(crate) proof fn lemma_wf_of_nodes(&self)
        requires
            self.nodes.wf(),
        ensures
            self.wf(),
            self@ == self.nodes.contents@,
            self.width() == self.nodes.w as nat,
            self.slots() == self.nodes.nodes@.len(),
            forall|i: usize| i < self.slots() ==> self.node_at(i) == self.nodes.nodes@[i as int],
    {
    }

    /// Every link of every node is a slot of the arena.
    pub proof fn lemma_links_in_range(&self, i: usize)
        requires
            self.wf(),
            i < self.slots(),
        ensures
            node_ok(self.node_at(i), self.slots()),
            3 <= self.slots(),
    {
        reveal(TrieNodes::wf_links);
    }

    pub fn new(w: usize) -> (r: Self)
        requires
            1 <= w <= 63,
        ensures
            r.wf(),
            r@ == Map::<usize, T>::empty(),
            r.width() == w,
            r.slots() == 3,
            forall|i: usize| i < 3 ==> r.node_at(i) == empty_node::<T>(i),
    {
        BinaryTrie { nodes: TrieNodes::new(w), free: Vec::new() }
    }

    /// The greatest key number held that is below `num`; `None` when there is
    /// none.
    pub fn find_prev(&self, num: usize) -> (r: Option<usize>)
        requires
            self.wf(),
        ensures
            r matches Some(k) ==> self@.contains_key(k) && k < num,
            r matches Some(k) ==> forall|j: usize| self@.contains_key(j) && j < num ==> j <= k,
            r is None ==> forall|j: usize| self@.contains_key(j) ==> j >= num,
    {
        let hint = self.nodes.descend_prev(num);
        let (c, p) = self.nodes.locate_prev(num, hint);
        proof {
            self.nodes.lemma_prev_facts(num, p@);
        }
        if c == MIN_PREV {
            proof {
                if p@ >= 0 {
                    reveal(TrieNodes::wf_list);
                    assert(self.nodes.order@[p@] >= 3);
                }
            }
            None
        } else {
            proof {
                reveal(TrieNodes::wf_list);
            }
            self.nodes.key(c)
        }
    }

    /// The slot of the leaf with key number `num` and its list position, if
    /// one is held.
    fn find_leaf(&self, num: usize) -> (r: Option<(usize, Ghost<int>)>)
        requires
            self.wf(),
        ensures
            r is None ==> !self@.contains_key(num),
            r matches Some((l, p)) ==> {
                &&& 0 <= p@ < self.nodes.order@.len()
                &&& self.nodes.order@[p@] == l
                &&& self.nodes.key_at(p@) == num
            },
            r is Some ==> self@.contains_key(num),
    {
        let hint = self.nodes.descend_prev(num);
        let (c, p) = self.nodes.locate_prev(num, hint);
        proof {
            self.nodes.lemma_prev_facts(num, p@);
            reveal(TrieNodes::wf_list);
        }
        let n = self.nodes.node(c).next.unwrap();
        if n == MAX_NEXT {
            proof {
                if p@ + 1 < self.nodes.order@.len() {
                    assert(self.nodes.order@[p@ + 1] >= 3);
                }
            }
            return None;
        }
        if self.nodes.key(n) == Some(num) {
            Some((n, Ghost(p@ + 1)))
        } else {
            None
        }
    }

    /// Whether a key with the number of `x` is held.
    pub fn find(&self, x: T) -> (r: bool)
        requires
            self.wf(),
        ensures
            r == self@.contains_key(x.usize_view()),
    {
        self.find_leaf(x.to_usize()).is_some()
    }

    /// Adds `x`; `false`, with nothing changed, when a key with its number is
    /// already held.
    pub fn add(&mut self, x: T) -> (r: bool)
        requires
            old(self).wf(),
            (x.usize_view() as nat) < vstd::arithmetic::power2::pow2(old(self).width()),
        ensures
            final(self).wf(),
            final(self).width() == old(self).width(),
            r == !old(self)@.contains_key(x.usize_view()),
            r ==> final(self)@ == old(self)@.insert(x.usize_view(), x),
            !r ==> *final(self) == *old(self),
            final(self)@ == add_step(old(self)@, x),
    {
        let num = x.to_usize();
        let hint = self.nodes.descend_prev(num);
        let (c, p) = self.nodes.locate_prev(num, hint);
        proof {
            self.nodes.lemma_prev_facts(num, p@);
            reveal(TrieNodes::wf_list);
            reveal(TrieNodes::wf_links);
        }
        let n = self.nodes.node(c).next.unwrap();
        if n != MAX_NEXT && self.nodes.key(n) == Some(num) {
            return false;
        }
        proof {
            if p@ + 1 < self.nodes.order@.len() {
                assert(self.nodes.order@[p@ + 1] >= 3);
            }
        }
        let leaf = self.nodes.insert_after(&mut self.free, c, p, x);
        let mut created: Vec<(usize, usize)> = Vec::new();
        self.nodes.link_leaf(&mut self.free, leaf, num, &mut created);
        true
    }

    /// Removes the key with the number of `x` and returns it; `None`, with
    /// nothing changed, when no such key is held.
    pub fn remove(&mut self, x: T) -> (r: Option<T>)
        requires
            old(self).wf(),
        ensures
            final(self).wf(),
            final(self).width() == old(self).width(),
            old(self)@.contains_key(x.usize_view()) ==> r == Some(old(self)@[x.usize_view()])
                && final(self)@ == old(self)@.remove(x.usize_view()),
            !old(self)@.contains_key(x.usize_view()) ==> r is None && *final(self) == *old(self),
    {
        let num = x.to_usize();
        match self.find_leaf(num) {
            None => None,
            Some((l, p)) => {
                proof {
                    reveal(TrieNodes::wf_list);
                }
                let parent = self.nodes.node(l).parent;
                let v = self.nodes.unlink(l, p);
                let mut pruned: Vec<(usize, usize)> = Vec::new();
                self.nodes.unlink_leaf(&mut self.free, l, parent, num, &mut pruned);
                Some(v)
            },
        }
    }

    /// The key numbers read along the leaf list from the lower sentinel to the
    /// upper one.
    pub fn keys(&self) -> (r: Vec<usize>)
        requires
            self.wf(),
        ensures
            r@ == self.key_seq(),
            forall|a: int, b: int| 0 <= a < b < r@.len() ==> r@[a] < r@[b],
            forall|k: usize| self@.contains_key(k) <==> r@.contains(k),
    {
        self.nodes.walk_keys()
    }
}

impl<T: Copy + ToUsize> USet<T> for BinaryTrie<T> {
    open spec fn members(&self) -> Map<usize, T> {
        self@
    }

    open spec fn well_formed(&self) -> bool {
        self.wf()
    }

    open spec fn admits(&self, x: T) -> bool {
        (x.usize_view() as nat) < vstd::arithmetic::power2::pow2(self.width())
    }

    fn size(&self) -> (r: usize) {
        let keys = self.keys();
        proof {
            assert(keys@.no_duplicates()) by {
                assert forall|a: int, b: int| 0 <= a < keys@.len() && 0 <= b < keys@.len() && a != b implies keys@[a] != keys@[b] by {
                    if a < b {
                        assert(keys@[a] < keys@[b]);
                    } else {
                        assert(keys@[b] < keys@[a]);
                    }
                }
            }
            keys@.unique_seq_to_set();
            assert(self@.dom() =~= keys@.to_set());
        }
        keys.len()
    }

    fn add(&mut self, x: T) -> (r: bool) {
        BinaryTrie::add(self, x)
    }

    fn remove(&mut self, x: T) -> (r: Option<T>) {
        BinaryTrie::remove(self, x)
    }

    fn find(&self, x: T) -> (r: bool) {
        BinaryTrie::find(self, x)
    }
}

impl<T: Copy + ToUsize> BinaryTrie<T> {
    /// Reads the node in slot `i`, if there is such a slot.
    pub(crate) fn read(&self, l: Option<usize>) -> (r: Option<Node<T>>)
        requires
            self.wf(),
        ensures
            r == crate::tries::links::reached(self, l),
            r matches Some(n) ==> crate::tries::arena::node_ok(n, self.slots()),
    {
        match l {
            Some(i) => {
                if i < self.nodes.nodes.len() {
                    proof {
                        self.lemma_links_in_range(i);
                    }
                    Some(self.nodes.nodes[i])
                } else {
                    None
                }
            },
            None => None,
        }
    }

    /// Replaces the trie links of slot `i` by those of `n`.
    pub(crate) fn write_links(&mut self, i: usize, n: Node<T>)
        requires
            old(self).wf(),
            i < old(self).slots(),
            n.x == old(self).node_at(i).x,
            n.prev == old(self).node_at(i).prev,
            n.next == old(self).node_at(i).next,
            crate::tries::arena::node_ok(n, old(self).slots()),
        ensures
            final(self).wf(),
            final(self)@ == old(self)@,
            final(self).width() == old(self).width(),
            final(self).slots() == old(self).slots(),
            final(self).node_at(i) == n,
            forall|j: usize| j != i && j < old(self).slots() ==> final(self).node_at(j) == old(self).node_at(j),
    {
        self.nodes.set_trie_links(i, n);
    }

    pub(crate) fn slot_count(&self) -> (r: usize)
        ensures
            r == self.slots(),
    {
        self.nodes.nodes.len()
    }

    /// Adds an unlinked path node; the contents stay.
    pub(crate) fn add_path(&mut self) -> (r: usize)
        requires
            old(self).wf(),
        ensures
            final(self).wf(),
            final(self)@ == old(self)@,
            final(self).width() == old(self).width(),
            r < final(self).slots(),
            final(self).slots() >= old(self).slots(),
            final(self).node_at(r).x == PathNodeOrLeaf::<T>::PathNode,
            final(self).node_at(r).unlinked(),
            forall|j: usize| j < old(self).slots() && j != r ==> final(self).node_at(j) == old(self).node_at(j),
    {
        self.nodes.add_path_node(&mut self.free)
    }

    /// Where the walk from `start` along `b`-side children ends: that node if
    /// it is a leaf, else its jump pointer.
    pub(crate) fn extreme_from(&self, start: usize, b: usize) -> (r: Option<usize>)
        requires
            self.wf(),
            start < self.slots(),
            b < 2,
        ensures
            ({
                let e = walk_end(self, start, b as int, (self.width() + 1) as nat);
                &&& e < self.slots()
                &&& r == if is_leaf(self.node_at(e)) {
                    Some(e)
                } else {
                    self.node_at(e).jump
                }
            }),
    {
        proof {
            reveal(TrieNodes::wf_links);
        }
        let fuel = self.nodes.w + 1;
        let mut node = start;
        let mut steps: usize = 0;
        while steps < fuel && self.nodes.nodes[node].children[b].is_some()
            invariant
                self.wf(),
                b < 2,
                node < self.slots(),
                steps <= fuel,
                fuel == self.width() + 1,
                walk_end(self, start, b as int, fuel as nat) == walk_end(
                    self,
                    node,
                    b as int,
                    (fuel - steps) as nat,
                ),
            decreases fuel - steps,
        {
            proof {
                self.lemma_links_in_range(node);
            }
            node = self.nodes.nodes[node].children[b].unwrap();
            steps = steps + 1;
        }
        let n = self.nodes.nodes[node];
        if n.value().is_some() {
            Some(node)
        } else {
            n.jump
        }
    }

    /// The link to the root.
    pub fn root(&self) -> (r: StrongLinkNode)
        ensures
            r.0 == Some(crate::tries::arena::ROOT),
    {
        StrongLinkNode(Some(crate::tries::arena::ROOT))
    }

    /// The link to the sentinel before the smallest leaf.
    pub fn min_prev(&self) -> (r: StrongLinkNode)
        ensures
            r.0 == Some(crate::tries::arena::MIN_PREV),
    {
        StrongLinkNode(Some(crate::tries::arena::MIN_PREV))
    }

    /// The link to the sentinel after the largest leaf.
    pub fn max_next(&self) -> (r: StrongLinkNode)
        ensures
            r.0 == Some(crate::tries::arena::MAX_NEXT),
    {
        StrongLinkNode(Some(crate::tries::arena::MAX_NEXT))
    }
}

} // verus!
