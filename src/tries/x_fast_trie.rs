use vstd::prelude::*;

use crate::tries::arena::{empty_node, Node, TrieNodes, MAX_NEXT, MIN_PREV, ROOT};
use crate::interfaces::USet;
use crate::tries::laws::add_step;
use crate::tries::binary_trie::BinaryTrie;
use crate::tries::bits::ToUsize;
use crate::tries::hash_table::{label_of, lemma_label_order, XFastTrieHashTable};
use vstd::arithmetic::power2::pow2;

verus! {

/// Some key of `m` has label `l` at depth `d` of a `w`-bit trie.
pub open spec fn labelled<T>(m: Map<usize, T>, w: usize, d: usize, l: usize) -> bool {
    exists|k: usize| m.contains_key(k) && label_of(w, d, k) == l
}

/// Between the keys at list positions `p - 1` and `p + 1` lies the only key
/// at `p`; so another key shares its label at a depth exactly when one of
/// those two neighbours does.
proof fn lemma_shared_label<T: Copy + ToUsize>(t: &TrieNodes<T>, p: int, d: usize)
    requires
        t.wf(),
        0 <= p < t.order@.len(),
        1 <= d <= t.w,
        forall|k: usize| t.contents@.contains_key(k) ==> (k as nat) < pow2(t.w as nat),
    ensures
        (exists|k: usize|
            t.contents@.contains_key(k) && k != t.key_at(p) && label_of(t.w, d, k) == label_of(
                t.w,
                d,
                t.key_at(p),
            )) <==> ((p > 0 && label_of(t.w, d, t.key_at(p - 1)) == label_of(t.w, d, t.key_at(p)))
            || (p + 1 < t.order@.len() && label_of(t.w, d, t.key_at(p + 1)) == label_of(
            t.w,
            d,
            t.key_at(p),
        ))),
{
    reveal(TrieNodes::wf_sorted);
    reveal(TrieNodes::wf_contents);
    reveal(TrieNodes::wf_links);
    let w = t.w;
    let kp = t.key_at(p);
    let lp = label_of(w, d, kp);
    assert(t.contents@.contains_key(kp));
    if p > 0 {
        assert(t.contents@.contains_key(t.key_at(p - 1)));
        assert(t.key_at(p - 1) < kp);
    }
    if p + 1 < t.order@.len() {
        assert(t.contents@.contains_key(t.key_at(p + 1)));
        assert(t.key_at(p) < t.key_at(p + 1));
    }
    if exists|k: usize| t.contents@.contains_key(k) && k != kp && label_of(w, d, k) == lp {
        let k = choose|k: usize| t.contents@.contains_key(k) && k != kp && label_of(w, d, k) == lp;
        let q = choose|q: int| 0 <= q < t.order@.len() && #[trigger] t.key_at(q) == k;
        if q < p {
            if q < p - 1 {
                assert(t.key_at(q) < t.key_at(p - 1));
            }
            lemma_label_order(w, d, k, t.key_at(p - 1));
            lemma_label_order(w, d, t.key_at(p - 1), kp);
        } else {
            assert(q != p);
            if q > p + 1 {
                assert(t.key_at(p + 1) < t.key_at(q));
            }
            assert(t.contents@.contains_key(t.key_at(q)));
            lemma_label_order(w, d, kp, t.key_at(p + 1));
            lemma_label_order(w, d, t.key_at(p + 1), k);
        }
    }
}

/// A binary trie with a level index: one hash map per depth that holds the
/// label of every key's prefix at that depth (and the slot of the node for
/// it), so that the deepest node on a key's path is found by a binary search
/// over the depths. That the index holds exactly these labels is part of `wf`.
pub struct XFastTrie<T: Copy + ToUsize> {
    trie: BinaryTrie<T>,
    table: XFastTrieHashTable<usize>,
}

impl<T: Copy + ToUsize> View for XFastTrie<T> {
    type V = Map<usize, T>;

    /// Each held key, by its number.
    closed spec fn view(&self) -> Map<usize, T> {
        self.trie.nodes.contents@
    }
}

impl<T: Copy + ToUsize> XFastTrie<T> {
    /// Everything but the agreement of the level index with the keys.
    closed spec fn wf_base(&self) -> bool {
        &&& self.trie.nodes.wf()
        &&& self.table.wf()
        &&& self.table.max_depth() == self.trie.nodes.w
        &&& forall|k: usize| self.trie.nodes.contents@.contains_key(k) ==> (k as nat) < pow2(self.trie.nodes.w as nat)
    }

    /// The map of depth `d` holds a label exactly when some key has it.
    closed spec fn index_agrees_at(&self, d: usize) -> bool {
        forall|l: usize|
            #![trigger self.table@[d - 1].contains_key(l)]
            #![trigger labelled(self.trie.nodes.contents@, self.trie.nodes.w, d, l)]
            self.table@[d - 1].contains_key(l) <==> labelled(self.trie.nodes.contents@, self.trie.nodes.w, d, l)
    }

    /// The level index agrees with the keys at every depth, but may lack the
    /// labels of `num`.
    closed spec fn index_short_of(&self, num: usize) -> bool {
        forall|d: usize, l: usize|
            #![trigger self.table@[d - 1].contains_key(l)]
            #![trigger labelled(self.trie.nodes.contents@, self.trie.nodes.w, d, l)]
            1 <= d <= self.trie.nodes.w ==> {
                &&& self.table@[d - 1].contains_key(l) ==> labelled(self.trie.nodes.contents@, self.trie.nodes.w, d, l)
                &&& labelled(self.trie.nodes.contents@, self.trie.nodes.w, d, l) && l != label_of(self.trie.nodes.w, d, num)
                    ==> self.table@[d - 1].contains_key(l)
            }
    }

    pub closed spec fn wf(&self) -> bool {
        &&& self.wf_base()
        &&& forall|d: usize| 1 <= d <= self.trie.nodes.w ==> #[trigger] self.index_agrees_at(d)
    }

    /// The number of bits of a key.
    pub closed spec fn width(&self) -> nat {
        self.trie.nodes.w as nat
    }

    /// The number of arena slots.
    pub closed spec fn slots(&self) -> nat {
        self.trie.nodes.nodes@.len()
    }

    /// The node in arena slot `i`.
    pub closed spec fn node_at(&self, i: usize) -> Node<T> {
        self.trie.nodes.nodes@[i as int]
    }

    /// The maps of the level index, by depth less one.
    pub closed spec fn levels(&self) -> Seq<Map<usize, usize>> {
        self.table@
    }

    pub fn new(w: usize) -> (r: Self)
        requires
            1 <= w <= 63,
        ensures
            r.wf(),
            r@ == Map::<usize, T>::empty(),
            r.width() == w,
            r.slots() == 3,
            forall|i: usize| i < 3 ==> r.node_at(i) == empty_node::<T>(i),
            r.levels() == Seq::new(w as nat, |i: int| Map::<usize, usize>::empty()),
    {
        XFastTrie { trie: BinaryTrie { nodes: TrieNodes::new(w), free: Vec::new() }, table: XFastTrieHashTable::new(w) }
    }

    /// The index's guess at the list place before `num`: the deepest depth
    /// whose map holds the label of `num` is found by binary search; that
    /// node's jump pointer (the root's at depth 0) gives a leaf, and one step
    /// back is taken when it lies at or past `num`.
    fn search_prev(&self, num: usize) -> (r: usize)
        requires
            self.wf(),
        ensures
            r < self.trie.nodes.nodes@.len(),
    {
        proof {
            reveal(TrieNodes::wf_links);
        }
        let w = self.trie.nodes.w;
        let mut start: usize = 0;
        let mut end: usize = w + 1;
        while end - start > 1
            invariant
                self.wf(),
                w == self.trie.nodes.w,
                w <= 63,
                start < end <= w + 1,
            decreases end - start,
        {
            let depth = start + (end - start) / 2;
            if self.table.find(depth, &num) {
                start = depth;
            } else {
                end = depth;
            }
        }
        if start == 0 {
            return self.trie.nodes.step_back(self.trie.nodes.node(ROOT).jump, num);
        }
        match self.table.get(start, &num) {
            Some(slot) => {
                let s = *slot;
                if s >= self.trie.nodes.nodes.len() {
                    return MIN_PREV;
                }
                if start == w {
                    match self.trie.nodes.node(s).prev {
                        Some(p) => p,
                        None => MIN_PREV,
                    }
                } else {
                    self.trie.nodes.step_back(self.trie.nodes.node(s).jump, num)
                }
            },
            None => MIN_PREV,
        }
    }

    /// The greatest key number held that is below `num`; `None` when there is
    /// none.
    pub fn find_prev(&self, num: usize) -> (r: Option<usize>)
        requires
            self.wf(),
        ensures
            r matches Some(k) ==> self@.contains_key(k) && k < num,
            r matches Some(k) ==> forall|j: usize| self@.contains_key(j) && j < num ==> j <= k,
            r is None ==> forall|j: usize| self@.contains_key(j) ==> j >= num,
    {
        let hint = self.search_prev(num);
        let (c, p) = self.trie.nodes.locate_prev(num, hint);
        proof {
            self.trie.nodes.lemma_prev_facts(num, p@);
            reveal(TrieNodes::wf_list);
        }
        if c == MIN_PREV {
            proof {
                if p@ >= 0 {
                    assert(self.trie.nodes.order@[p@] >= 3);
                }
            }
            None
        } else {
            self.trie.nodes.key(c)
        }
    }

    fn find_leaf(&self, num: usize) -> (r: Option<(usize, Ghost<int>)>)
        requires
            self.wf(),
        ensures
            r is None ==> !self@.contains_key(num),
            r matches Some((l, p)) ==> {
                &&& 0 <= p@ < self.trie.nodes.order@.len()
                &&& self.trie.nodes.order@[p@] == l
                &&& self.trie.nodes.key_at(p@) == num
            },
            r is Some ==> self@.contains_key(num),
    {
        let hint = self.search_prev(num);
        let (c, p) = self.trie.nodes.locate_prev(num, hint);
        proof {
            self.trie.nodes.lemma_prev_facts(num, p@);
            reveal(TrieNodes::wf_list);
        }
        let n = self.trie.nodes.node(c).next.unwrap();
        if n == MAX_NEXT {
            proof {
                if p@ + 1 < self.trie.nodes.order@.len() {
                    assert(self.trie.nodes.order@[p@ + 1] >= 3);
                }
            }
            return None;
        }
        if self.trie.nodes.key(n) == Some(num) {
            Some((n, Ghost(p@ + 1)))
        } else {
            None
        }
    }

    /// Whether a key with the number of `x` is held.
    pub fn find(&self, x: &T) -> (r: bool)
        requires
            self.wf(),
        ensures
            r == self@.contains_key(x.usize_view()),
    {
        self.find_leaf(x.to_usize()).is_some()
    }

    /// Adds `x`; `false`, with nothing changed, when a key with its number is
    /// already held. Each node the walk creates is registered in the index.
    pub fn add(&mut self, x: T) -> (r: bool)
        requires
            old(self).wf(),
            (x.usize_view() as nat) < pow2(old(self).width()),
        ensures
            final(self).wf(),
            final(self).width() == old(self).width(),
            r == !old(self)@.contains_key(x.usize_view()),
            r ==> final(self)@ == old(self)@.insert(x.usize_view(), x),
            !r ==> *final(self) == *old(self),
            final(self)@ == add_step(old(self)@, x),
    {
        let num = x.to_usize();
        let hint = self.search_prev(num);
        let (c, p) = self.trie.nodes.locate_prev(num, hint);
        proof {
            self.trie.nodes.lemma_prev_facts(num, p@);
            reveal(TrieNodes::wf_list);
            reveal(TrieNodes::wf_links);
        }
        let n = self.trie.nodes.node(c).next.unwrap();
        if n != MAX_NEXT && self.trie.nodes.key(n) == Some(num) {
            return false;
        }
        proof {
            if p@ + 1 < self.trie.nodes.order@.len() {
                assert(self.trie.nodes.order@[p@ + 1] >= 3);
            }
        }
        let leaf = self.trie.nodes.insert_after(&mut self.trie.free, c, p, x);
        let mut created: Vec<(usize, usize)> = Vec::new();
        self.trie.nodes.link_leaf(&mut self.trie.free, leaf, num, &mut created);
        proof {
            let w = self.trie.nodes.w;
            let m = self.trie.nodes.contents@;
            let m0 = old(self).trie.nodes.contents@;
            assert(m == m0.insert(num, x));
            assert forall|k: usize| m.contains_key(k) implies (k as nat) < pow2(w as nat) by {}
            assert forall|d: usize, l: usize|
                1 <= d <= w implies {
                &&& self.table@[d - 1].contains_key(l) ==> labelled(m, w, d, l)
                &&& labelled(m, w, d, l) && l != label_of(w, d, num) ==> self.table@[d - 1].contains_key(l)
            } by {
                assert(old(self).index_agrees_at(d));
                if self.table@[d - 1].contains_key(l) {
                    assert(labelled(m0, w, d, l));
                    let k = choose|k: usize| m0.contains_key(k) && label_of(w, d, k) == l;
                    assert(m.contains_key(k));
                }
                if labelled(m, w, d, l) && l != label_of(w, d, num) {
                    let k = choose|k: usize| m.contains_key(k) && label_of(w, d, k) == l;
                    assert(m0.contains_key(k));
                    assert(labelled(m0, w, d, l));
                }
            }
        }
        self.register(&created, num);
        self.complete_labels(num);
        true
    }

    /// Registers each (depth, slot) of `entries` under the label of `num`.
    fn register(&mut self, entries: &Vec<(usize, usize)>, num: usize)
        requires
            old(self).wf_base(),
            old(self).index_short_of(num),
            old(self).trie.nodes.contents@.contains_key(num),
        ensures
            final(self).wf_base(),
            final(self).index_short_of(num),
            final(self).trie.nodes == old(self).trie.nodes,
            final(self).trie.free == old(self).trie.free,
    {
        let mut i: usize = 0;
        while i < entries.len()
            invariant
                self.wf_base(),
                self.index_short_of(num),
                self.trie.nodes == old(self).trie.nodes,
                self.trie.free == old(self).trie.free,
                self.trie.nodes.contents@.contains_key(num),
            decreases entries@.len() - i,
        {
            let (depth, slot) = entries[i];
            if 1 <= depth && depth <= self.trie.nodes.w {
                let ghost t0 = self.table@;
                proof {
                    self.table.lemma_depths();
                }
                self.table.register_binary_labels(depth, &num, slot);
                proof {
                    self.table.lemma_depths();
                    let w = self.trie.nodes.w;
                    let m = self.trie.nodes.contents@;
                    assert forall|d: usize, l: usize|
                        1 <= d <= w implies {
                        &&& self.table@[d - 1].contains_key(l) ==> labelled(m, w, d, l)
                        &&& labelled(m, w, d, l) && l != label_of(w, d, num) ==> self.table@[d - 1].contains_key(l)
                    } by {
                        if d == depth && l == label_of(w, d, num) {
                            assert(labelled(m, w, d, l));
                        } else {
                            assert(self.table@[d - 1].contains_key(l) == t0[d - 1].contains_key(l));
                        }
                    }
                }
            }
            i = i + 1;
        }
    }

    /// Registers the label of `num` at each depth that lacks it, which makes
    /// the index agree with the keys again.
    fn complete_labels(&mut self, num: usize)
        requires
            old(self).wf_base(),
            old(self).index_short_of(num),
            old(self).trie.nodes.contents@.contains_key(num),
        ensures
            final(self).wf(),
            final(self).trie.nodes == old(self).trie.nodes,
            final(self).trie.free == old(self).trie.free,
    {
        proof {
            assert(self.trie.nodes.w <= 63) by {
                reveal(TrieNodes::wf_links);
            }
        }
        let w = self.trie.nodes.w;
        let mut d: usize = 1;
        while d <= w
            invariant
                1 <= d <= w + 1,
                w == self.trie.nodes.w,
                w <= 63,
                self.wf_base(),
                self.index_short_of(num),
                self.trie.nodes == old(self).trie.nodes,
                self.trie.free == old(self).trie.free,
                self.trie.nodes.contents@.contains_key(num),
                forall|e: usize| 1 <= e < d ==> #[trigger] self.table@[e - 1].contains_key(label_of(w, e, num)),
            decreases w + 1 - d,
        {
            if !self.table.find(d, &num) {
                let ghost t0 = self.table@;
                proof {
                    self.table.lemma_depths();
                }
                self.table.register_binary_labels(d, &num, ROOT);
                proof {
                    self.table.lemma_depths();
                    let m = self.trie.nodes.contents@;
                    assert forall|e: usize, l: usize|
                        1 <= e <= w implies {
                        &&& self.table@[e - 1].contains_key(l) ==> labelled(m, w, e, l)
                        &&& labelled(m, w, e, l) && l != label_of(w, e, num) ==> self.table@[e - 1].contains_key(l)
                    } by {
                        if e == d && l == label_of(w, e, num) {
                            assert(labelled(m, w, e, l));
                        } else {
                            assert(self.table@[e - 1].contains_key(l) == t0[e - 1].contains_key(l));
                        }
                    }
                    assert forall|e: usize| 1 <= e < d + 1 implies #[trigger] self.table@[e - 1].contains_key(label_of(w, e, num)) by {
                        if e < d {
                            assert(t0[e - 1].contains_key(label_of(w, e, num)));
                        }
                    }
                }
            }
            d = d + 1;
        }
        proof {
            self.table.lemma_depths();
            let m = self.trie.nodes.contents@;
            assert forall|e: usize| 1 <= e <= w implies #[trigger] self.index_agrees_at(e) by {
                assert forall|l: usize| self.table@[e - 1].contains_key(l) <==> labelled(m, w, e, l) by {
                    if l == label_of(w, e, num) {
                        assert(labelled(m, w, e, l));
                    }
                }
            }
        }
    }

    /// Drops from the index the labels of the removed key number `num` that
    /// no other key shares; `pk` and `sk` are the key numbers that were next
    /// to it in the list.
    fn drop_labels(&mut self, num: usize, pk: Option<usize>, sk: Option<usize>, before: Ghost<Map<usize, T>>)
        requires
            old(self).wf_base(),
            before@.contains_key(num),
            old(self).trie.nodes.contents@ == before@.remove(num),
            forall|d: usize, l: usize|
                1 <= d <= old(self).trie.nodes.w ==> (#[trigger] old(self).table@[d - 1].contains_key(l) <==> labelled(
                    before@,
                    old(self).trie.nodes.w,
                    d,
                    l,
                )),
            forall|d: usize|
                1 <= d <= old(self).trie.nodes.w ==> ((exists|k: usize|
                    before@.contains_key(k) && k != num && label_of(old(self).trie.nodes.w, d, k) == label_of(
                        old(self).trie.nodes.w,
                        d,
                        num,
                    )) <==> #[trigger] Self::neighbour_shares(old(self).trie.nodes.w, d, num, pk, sk)),
        ensures
            final(self).wf(),
            final(self).trie.nodes == old(self).trie.nodes,
            final(self).trie.free == old(self).trie.free,
    {
        proof {
            assert(self.trie.nodes.w <= 63) by {
                reveal(TrieNodes::wf_links);
            }
        }
        let w = self.trie.nodes.w;
        let mut d: usize = 1;
        while d <= w
            invariant
                1 <= d <= w + 1,
                w == self.trie.nodes.w,
                w <= 63,
                self.wf_base(),
                self.trie.nodes == old(self).trie.nodes,
                self.trie.free == old(self).trie.free,
                forall|e: usize| 1 <= e < d ==> #[trigger] self.index_agrees_at(e),
                forall|e: usize, l: usize|
                    d <= e <= w ==> (#[trigger] self.table@[e - 1].contains_key(l) <==> labelled(before@, w, e, l)),
                before@.contains_key(num),
                self.trie.nodes.contents@ == before@.remove(num),
                forall|e: usize|
                    1 <= e <= w ==> ((exists|k: usize|
                        before@.contains_key(k) && k != num && label_of(w, e, k) == label_of(w, e, num))
                        <==> #[trigger] Self::neighbour_shares(w, e, num, pk, sk)),
            decreases w + 1 - d,
        {
            let lab = crate::tries::hash_table::label(w, d, num);
            let shared = match pk {
                Some(a) => crate::tries::hash_table::label(w, d, a) == lab,
                None => false,
            } || match sk {
                Some(b) => crate::tries::hash_table::label(w, d, b) == lab,
                None => false,
            };
            let ghost t0 = self.table@;
            let ghost pre = *self;
            proof {
                self.table.lemma_depths();
            }
            if !shared {
                self.table.remove(d, &num);
            }
            proof {
                self.table.lemma_depths();
                let m = self.trie.nodes.contents@;
                assert(m == before@.remove(num));
                assert(shared == Self::neighbour_shares(w, d, num, pk, sk));
                assert forall|l: usize| self.table@[d - 1].contains_key(l) <==> labelled(m, w, d, l) by {
                    if l != lab {
                        assert(self.table@[d - 1].contains_key(l) == t0[d - 1].contains_key(l));
                        if labelled(before@, w, d, l) {
                            let k = choose|k: usize| before@.contains_key(k) && label_of(w, d, k) == l;
                            assert(m.contains_key(k));
                        }
                        if labelled(m, w, d, l) {
                            let k = choose|k: usize| m.contains_key(k) && label_of(w, d, k) == l;
                            assert(before@.contains_key(k));
                        }
                    } else {
                        assert(labelled(before@, w, d, l));
                        if labelled(m, w, d, l) {
                            let k = choose|k: usize| m.contains_key(k) && label_of(w, d, k) == l;
                            assert(before@.contains_key(k) && k != num);
                        }
                        if shared {
                            let k = choose|k: usize| before@.contains_key(k) && k != num && label_of(w, d, k) == label_of(w, d, num);
                            assert(m.contains_key(k));
                        }
                    }
                }
                assert(self.index_agrees_at(d));
                assert forall|e: usize, l: usize|
                    d + 1 <= e <= w implies (#[trigger] self.table@[e - 1].contains_key(l) <==> labelled(before@, w, e, l)) by {
                    assert(self.table@[e - 1] == t0[e - 1]);
                }
                assert forall|e: usize| 1 <= e < d + 1 implies #[trigger] self.index_agrees_at(e) by {
                    if e < d {
                        assert(self.table@[e - 1] == t0[e - 1]);
                        assert(pre.index_agrees_at(e));
                        assert forall|l: usize| self.table@[e - 1].contains_key(l) <==> labelled(m, w, e, l) by {
                            assert(pre.table@[e - 1].contains_key(l) <==> labelled(pre.trie.nodes.contents@, w, e, l));
                        }
                    }
                }
            }
            d = d + 1;
        }
    }

    /// One of the neighbours `pk`, `sk` has the label of `num` at depth `d`.
    closed spec fn neighbour_shares(w: usize, d: usize, num: usize, pk: Option<usize>, sk: Option<usize>) -> bool {
        (pk is Some && label_of(w, d, pk.unwrap()) == label_of(w, d, num)) || (sk is Some && label_of(
            w,
            d,
            sk.unwrap(),
        ) == label_of(w, d, num))
    }

    /// Removes the key with the number of `x` and returns it; `None`, with
    /// nothing changed, when no such key is held. Labels that no key keeps
    /// leave the index.
    pub fn remove(&mut self, x: T) -> (r: Option<T>)
        requires
            old(self).wf(),
        ensures
            final(self).wf(),
            final(self).width() == old(self).width(),
            old(self)@.contains_key(x.usize_view()) ==> r == Some(old(self)@[x.usize_view()])
                && final(self)@ == old(self)@.remove(x.usize_view()),
            !old(self)@.contains_key(x.usize_view()) ==> r is None && *final(self) == *old(self),
    {
        let num = x.to_usize();
        match self.find_leaf(num) {
            None => None,
            Some((l, p)) => {
                let (pk, sk) = self.neighbour_keys(l, p);
                let ghost before = self.trie.nodes.contents@;
                proof {
                    reveal(TrieNodes::wf_list);
                }
                let parent = self.trie.nodes.node(l).parent;
                let v = self.trie.nodes.unlink(l, p);
                let mut pruned: Vec<(usize, usize)> = Vec::new();
                self.trie.nodes.unlink_leaf(&mut self.trie.free, l, parent, num, &mut pruned);
                proof {
                    assert forall|k: usize| self.trie.nodes.contents@.contains_key(k) implies (k as nat) < pow2(self.trie.nodes.w as nat) by {
                        assert(before.contains_key(k));
                    }
                    assert forall|d: usize, ll: usize|
                        1 <= d <= self.trie.nodes.w implies (#[trigger] self.table@[d - 1].contains_key(ll) <==> labelled(
                            before,
                            self.trie.nodes.w,
                            d,
                            ll,
                        )) by {
                        assert(old(self).index_agrees_at(d));
                    }
                }
                self.drop_labels(num, pk, sk, Ghost(before));
                Some(v)
            },
        }
    }

    /// The key numbers next to list position `p` (slot `l`), and the fact that
    /// another key shares a label of the key at `p` exactly when one of them
    /// does.
    fn neighbour_keys(&self, l: usize, p: Ghost<int>) -> (r: (Option<usize>, Option<usize>))
        requires
            self.wf(),
            0 <= p@ < self.trie.nodes.order@.len(),
            self.trie.nodes.order@[p@] == l,
        ensures
            forall|d: usize|
                1 <= d <= self.trie.nodes.w ==> ((exists|k: usize|
                    self.trie.nodes.contents@.contains_key(k) && k != self.trie.nodes.key_at(p@) && label_of(
                        self.trie.nodes.w,
                        d,
                        k,
                    ) == label_of(self.trie.nodes.w, d, self.trie.nodes.key_at(p@))) <==> #[trigger] Self::neighbour_shares(
                    self.trie.nodes.w,
                    d,
                    self.trie.nodes.key_at(p@),
                    r.0,
                    r.1,
                )),
    {
        proof {
            self.trie.nodes.lemma_around(p@);
            reveal(TrieNodes::wf_list);
        }
        let n = self.trie.nodes.node(l);
        let pk = self.trie.nodes.num_at(n.prev);
        let sk = self.trie.nodes.num_at(n.next);
        proof {
            if p@ > 0 {
                assert(self.trie.nodes.order@[p@ - 1] >= 3);
            }
            if p@ + 1 < self.trie.nodes.order@.len() {
                assert(self.trie.nodes.order@[p@ + 1] >= 3);
            }
            assert forall|d: usize| 1 <= d <= self.trie.nodes.w implies ((exists|k: usize|
                self.trie.nodes.contents@.contains_key(k) && k != self.trie.nodes.key_at(p@) && label_of(self.trie.nodes.w, d, k)
                    == label_of(self.trie.nodes.w, d, self.trie.nodes.key_at(p@))) <==> #[trigger] Self::neighbour_shares(
                self.trie.nodes.w,
                d,
                self.trie.nodes.key_at(p@),
                pk,
                sk,
            )) by {
                lemma_shared_label(&self.trie.nodes, p@, d);
            }
        }
        (pk, sk)
    }

    /// The level index: one map per depth from node labels to node slots.
    pub fn index(&self) -> (r: &XFastTrieHashTable<usize>)
        requires
            self.wf(),
        ensures
            r@ == self.levels(),
            r.wf(),
            r.max_depth() == self.width(),
            forall|d: usize, l: usize|
                1 <= d <= self.width() ==> (#[trigger] r@[d - 1].contains_key(l) <==> labelled(
                    self@,
                    self.width() as usize,
                    d,
                    l,
                )),
    {
        proof {
            assert forall|d: usize, l: usize|
                1 <= d <= self.width() implies (#[trigger] self.table@[d - 1].contains_key(l) <==> labelled(
                    self@,
                    self.width() as usize,
                    d,
                    l,
                )) by {
                assert(self.index_agrees_at(d));
            }
        }
        &self.table
    }

    /// The trie under the level index, to read its nodes through links.
    pub fn trie(&self) -> (r: &BinaryTrie<T>)
        requires
            self.wf(),
        ensures
            r.wf(),
            r@ == self@,
            r.width() == self.width(),
            r.slots() == self.slots(),
            forall|i: usize| i < r.slots() ==> r.node_at(i) == self.node_at(i),
    {
        proof {
            self.trie.lemma_wf_of_nodes();
        }
        &self.trie
    }

    /// The key numbers read along the leaf list, from the smallest.
    pub fn keys(&self) -> (r: Vec<usize>)
        requires
            self.wf(),
        ensures
            forall|a: int, b: int| 0 <= a < b < r@.len() ==> r@[a] < r@[b],
            forall|k: usize| self@.contains_key(k) <==> r@.contains(k),
    {
        self.trie.nodes.walk_keys()
    }
}

impl<T: Copy + ToUsize> USet<T> for XFastTrie<T> {
    open spec fn members(&self) -> Map<usize, T> {
        self@
    }

    open spec fn well_formed(&self) -> bool {
        self.wf()
    }

    open spec fn admits(&self, x: T) -> bool {
        (x.usize_view() as nat) < vstd::arithmetic::power2::pow2(self.width())
    }

    fn size(&self) -> (r: usize) {
        let keys = self.keys();
        proof {
            assert(keys@.no_duplicates()) by {
                assert forall|a: int, b: int| 0 <= a < keys@.len() && 0 <= b < keys@.len() && a != b implies keys@[a] != keys@[b] by {
                    if a < b {
                        assert(keys@[a] < keys@[b]);
                    } else {
                        assert(keys@[b] < keys@[a]);
                    }
                }
            }
            keys@.unique_seq_to_set();
            assert(self@.dom() =~= keys@.to_set());
        }
        keys.len()
    }

    fn add(&mut self, x: T) -> (r: bool) {
        XFastTrie::add(self, x)
    }

    fn remove(&mut self, x: T) -> (r: Option<T>) {
        XFastTrie::remove(self, x)
    }

    fn find(&self, x: T) -> (r: bool) {
        XFastTrie::find(self, &x)
    }
}

} // verus!
