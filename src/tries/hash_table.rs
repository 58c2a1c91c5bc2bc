use vstd::prelude::*;

use std::collections::HashMap;

use vstd::arithmetic::power2::pow2;
use vstd::bits::{lemma_u64_pow2_no_overflow, lemma_u64_shl_is_mul};

use crate::tries::bits::ToUsize;

verus! {

/// The bits of `k` from bit `max_depth` down to bit `max_depth - depth + 1`,
/// read as a number: the label of the trie node at `depth` on the path of `k`.
pub open spec fn label_of(max_depth: usize, depth: usize, k: usize) -> usize {
    (((k as u64) >> ((max_depth - depth) as u64)) & (((1u64 << (depth as u64)) - 1) as u64)) as usize
}

pub(crate) fn label(max_depth: usize, depth: usize, k: usize) -> (r: usize)
    requires
        depth <= max_depth <= 63,
    ensures
        r == label_of(max_depth, depth, k),
{
    let d = depth as u64;
    assert(1u64 << d >= 1) by (bit_vector)
        requires
            d <= 63,
    ;
    (((k as u64) >> ((max_depth - depth) as u64)) & ((1u64 << d) - 1)) as usize
}

/// On keys below `2^w`, the label at depth `d` grows with the key.
pub proof fn lemma_label_order(w: usize, d: usize, a: usize, b: usize)
    requires
        1 <= d <= w <= 63,
        a <= b,
        (b as nat) < pow2(w as nat),
    ensures
        label_of(w, d, a) <= label_of(w, d, b),
{
    let aa = a as u64;
    let bb = b as u64;
    let ww = w as u64;
    let dd = d as u64;
    let ss = (w - d) as u64;
    lemma_u64_pow2_no_overflow(w as nat);
    lemma_u64_shl_is_mul(1, ww);
    assert(bb < (1u64 << ww));
    assert(aa < (1u64 << ww));
    assert((aa >> ss) & (((1u64 << dd) - 1) as u64) == aa >> ss) by (bit_vector)
        requires
            ss + dd == ww,
            ww <= 63,
            aa < (1u64 << ww),
    ;
    assert((bb >> ss) & (((1u64 << dd) - 1) as u64) == bb >> ss) by (bit_vector)
        requires
            ss + dd == ww,
            ww <= 63,
            bb < (1u64 << ww),
    ;
    assert(aa >> ss <= bb >> ss) by (bit_vector)
        requires
            aa <= bb,
    ;
    assert(bb >> ss <= bb) by (bit_vector);
    assert(aa >> ss <= aa) by (bit_vector);
}

/// One map per trie depth, from the label of a key at that depth to the
/// value registered for it there.
pub struct XFastTrieHashTable<T> {
    max_depth: usize,
    table: Vec<HashMap<usize, T>>,
}

impl<T> View for XFastTrieHashTable<T> {
    type V = Seq<Map<usize, T>>;

    /// Entry `d - 1` is the map of depth `d`.
    closed spec fn view(&self) -> Seq<Map<usize, T>> {
        Seq::new(self.table@.len(), |i: int| self.table@[i]@)
    }
}

impl<T> XFastTrieHashTable<T> {
    pub closed spec fn wf(&self) -> bool {
        &&& self.max_depth <= 63
        &&& self.table@.len() == self.max_depth
    }

    pub closed spec fn max_depth(&self) -> usize {
        self.max_depth
    }

    /// There is one map per depth.
    pub proof fn lemma_depths(&self)
        requires
            self.wf(),
        ensures
            self@.len() == self.max_depth(),
            self.max_depth() <= 63,
    {
    }

    pub fn new(max_depth: usize) -> (r: Self)
        requires
            max_depth <= 63,
        ensures
            r.wf(),
            r.max_depth() == max_depth,
            r@ == Seq::new(max_depth as nat, |i: int| Map::<usize, T>::empty()),
    {
        let mut table: Vec<HashMap<usize, T>> = Vec::new();
        let mut i: usize = 0;
        while i < max_depth
            invariant
                i <= max_depth,
                table@.len() == i,
                forall|j: int| 0 <= j < i ==> (#[trigger] table@[j])@ == Map::<usize, T>::empty(),
            decreases max_depth - i,
        {
            table.push(HashMap::new());
            i = i + 1;
        }
        let r = XFastTrieHashTable { max_depth, table };
        assert(r@ =~= Seq::new(max_depth as nat, |i: int| Map::<usize, T>::empty()));
        r
    }

    /// The value registered at `depth` for the label of `usized_data`.
    pub fn get<K: ToUsize>(&self, depth: usize, usized_data: &K) -> (r: Option<&T>)
        requires
            self.wf(),
            1 <= depth <= self.max_depth(),
        ensures
            ({
                let m = self@[depth - 1];
                let k = label_of(self.max_depth(), depth, usized_data.usize_view());
                &&& r is Some <==> m.contains_key(k)
                &&& r matches Some(v) ==> *v == m[k]
            }),
    {
        let key = label(self.max_depth, depth, usized_data.to_usize());
        self.table[depth - 1].get(&key)
    }

    /// Registers `node` at `depth` for the label of `usized_data`.
    pub fn register_binary_labels<K: ToUsize>(&mut self, depth: usize, usized_data: &K, node: T)
        requires
            old(self).wf(),
            1 <= depth <= old(self).max_depth(),
        ensures
            final(self).wf(),
            final(self).max_depth() == old(self).max_depth(),
            final(self)@ == old(self)@.update(
                depth - 1,
                old(self)@[depth - 1].insert(
                    label_of(old(self).max_depth(), depth, usized_data.usize_view()),
                    node,
                ),
            ),
    {
        let key = label(self.max_depth, depth, usized_data.to_usize());
        self.table[depth - 1].insert(key, node);
        assert(self@ =~= old(self)@.update(
            depth - 1,
            old(self)@[depth - 1].insert(
                label_of(old(self).max_depth(), depth, usized_data.usize_view()),
                node,
            ),
        ));
    }

    /// Drops the entry at `depth` for the label of `usized_data`.
    pub fn remove<K: ToUsize>(&mut self, depth: usize, usized_data: &K)
        requires
            old(self).wf(),
            1 <= depth <= old(self).max_depth(),
        ensures
            final(self).wf(),
            final(self).max_depth() == old(self).max_depth(),
            final(self)@ == old(self)@.update(
                depth - 1,
                old(self)@[depth - 1].remove(
                    label_of(old(self).max_depth(), depth, usized_data.usize_view()),
                ),
            ),
    {
        let key = label(self.max_depth, depth, usized_data.to_usize());
        self.table[depth - 1].remove(&key);
        assert(self@ =~= old(self)@.update(
            depth - 1,
            old(self)@[depth - 1].remove(
                label_of(old(self).max_depth(), depth, usized_data.usize_view()),
            ),
        ));
    }

    /// Whether something is registered at `depth` for the label of
    /// `usized_data`.
    pub fn find<K: ToUsize>(&self, depth: usize, usized_data: &K) -> (r: bool)
        requires
            self.wf(),
            1 <= depth <= self.max_depth(),
        ensures
            r == self@[depth - 1].contains_key(
                label_of(self.max_depth(), depth, usized_data.usize_view()),
            ),
    {
        let key = label(self.max_depth, depth, usized_data.to_usize());
        self.table[depth - 1].contains_key(&key)
    }
}

} // verus!
