use vstd::prelude::*;

use crate::interfaces::USet;
use crate::tries::bits::ToUsize;
use crate::tries::laws::add_step;

verus! {

/// The number of chains of a new table.
pub const CHAINS: usize = 8;

/// The chain of key number `k` in a table of `len` chains.
pub open spec fn chain_of(k: usize, len: nat) -> int {
    (k as int) % (len as int)
}

/// A hash table with separate chaining: a key goes to the chain given by its
/// number modulo the number of chains.
pub struct ChanedHashTable<T> {
    array: Vec<Vec<T>>,
    n: usize,
    members: Ghost<Map<usize, T>>,
}

impl<T: Copy + ToUsize> ChanedHashTable<T> {
    pub closed spec fn members_spec(&self) -> Map<usize, T> {
        self.members@
    }

    pub closed spec fn wf_spec(&self) -> bool {
        &&& self.array@.len() > 0
        &&& forall|b: int, i: int|
            0 <= b < self.array@.len() && 0 <= i < self.array@[b]@.len() ==> chain_of((#[trigger] self.array@[b]@[i]).usize_view(), self.array@.len()) == b
        &&& forall|b: int, i: int, j: int|
            0 <= b < self.array@.len() && 0 <= i < self.array@[b]@.len() && 0 <= j
                < self.array@[b]@.len() && i != j ==> (#[trigger] self.array@[b]@[i]).usize_view()
                != (#[trigger] self.array@[b]@[j]).usize_view()
        &&& forall|b: int, i: int|
            0 <= b < self.array@.len() && 0 <= i < self.array@[b]@.len() ==> {
                let x = #[trigger] self.array@[b]@[i];
                &&& self.members@.contains_key(x.usize_view())
                &&& self.members@[x.usize_view()] == x
            }
        &&& forall|k: usize|
            #[trigger] self.members@.contains_key(k) ==> exists|i: int|
                0 <= i < self.array@[chain_of(k, self.array@.len())]@.len()
                    && self.array@[chain_of(k, self.array@.len())]@[i].usize_view() == k
        &&& self.members@.dom().finite()
        &&& self.n == self.members@.len()
    }

    pub fn new() -> (r: Self)
        ensures
            r.wf_spec(),
            r.members_spec() == Map::<usize, T>::empty(),
    {
        let mut array: Vec<Vec<T>> = Vec::new();
        let mut b: usize = 0;
        while b < CHAINS
            invariant
                b <= CHAINS,
                array@.len() == b,
                forall|c: int| 0 <= c < b ==> (#[trigger] array@[c])@.len() == 0,
            decreases CHAINS - b,
        {
            array.push(Vec::new());
            b = b + 1;
        }
        ChanedHashTable { array, n: 0, members: Ghost(Map::empty()) }
    }

    /// The chain of key number `k` and the position in it of the key with
    /// that number, if any.
    fn locate(&self, k: usize) -> (r: (usize, Option<usize>))
        requires
            self.wf_spec(),
        ensures
            r.0 == chain_of(k, self.array@.len()),
            r.1 is None ==> !self.members_spec().contains_key(k),
            r.1 matches Some(i) ==> i < self.array@[r.0 as int]@.len() && self.array@[r.0 as int]@[i as int].usize_view() == k,
    {
        let b = k % self.array.len();
        let chain = &self.array[b];
        let mut i: usize = 0;
        while i < chain.len()
            invariant
                b == chain_of(k, self.array@.len()),
                b < self.array@.len(),
                chain@ == self.array@[b as int]@,
                i <= chain@.len(),
                forall|m: int| 0 <= m < i ==> chain@[m].usize_view() != k,
            decreases chain@.len() - i,
        {
            if chain[i].to_usize() == k {
                return (b, Some(i));
            }
            i = i + 1;
        }
        (b, None)
    }
}

impl<T: Copy + ToUsize> USet<T> for ChanedHashTable<T> {
    open spec fn members(&self) -> Map<usize, T> {
        self.members_spec()
    }

    open spec fn well_formed(&self) -> bool {
        self.wf_spec()
    }

    open spec fn admits(&self, x: T) -> bool {
        self.members_spec().len() < usize::MAX
    }

    fn size(&self) -> (r: usize) {
        self.n
    }

    fn add(&mut self, x: T) -> (r: bool) {
        let k = x.to_usize();
        let (b, found) = self.locate(k);
        if found.is_some() {
            return false;
        }
        let mut chain = self.array.remove(b);
        let ghost before = self.array@;
        chain.push(x);
        self.array.insert(b, chain);
        self.members = Ghost(self.members@.insert(k, x));
        self.n = self.n + 1;
        proof {
            let len = self.array@.len();
            assert forall|c: int| 0 <= c < len && c != b implies self.array@[c] == old(self).array@[c] by {}
            assert(self.array@[b as int]@ == old(self).array@[b as int]@.push(x));
            assert forall|kk: usize| #[trigger] self.members@.contains_key(kk) implies exists|i: int|
                0 <= i < self.array@[chain_of(kk, len)]@.len() && self.array@[chain_of(kk, len)]@[i].usize_view() == kk by {
                if kk == k {
                    assert(self.array@[b as int]@[self.array@[b as int]@.len() - 1] == x);
                } else {
                    let i = choose|i: int|
                        0 <= i < old(self).array@[chain_of(kk, len)]@.len() && old(self).array@[chain_of(kk, len)]@[i].usize_view() == kk;
                    assert(self.array@[chain_of(kk, len)]@[i] == old(self).array@[chain_of(kk, len)]@[i]);
                }
            }
            assert forall|c: int, i: int|
                0 <= c < len && 0 <= i < self.array@[c]@.len() implies {
                let y = #[trigger] self.array@[c]@[i];
                &&& self.members@.contains_key(y.usize_view())
                &&& self.members@[y.usize_view()] == y
            } by {
                if c == b && i == self.array@[c]@.len() - 1 {
                } else {
                    assert(self.array@[c]@[i] == old(self).array@[c]@[i]);
                    assert(old(self).array@[c]@[i].usize_view() != k);
                }
            }
            assert forall|c: int, i: int, j: int|
                0 <= c < len && 0 <= i < self.array@[c]@.len() && 0 <= j < self.array@[c]@.len() && i != j
                    implies (#[trigger] self.array@[c]@[i]).usize_view() != (#[trigger] self.array@[c]@[j]).usize_view() by {
                let last = self.array@[c]@.len() - 1;
                if c == b && (i == last || j == last) {
                    if i == last {
                        assert(self.array@[c]@[j] == old(self).array@[c]@[j]);
                        assert(old(self).array@[c]@[j].usize_view() != k);
                    } else {
                        assert(self.array@[c]@[i] == old(self).array@[c]@[i]);
                        assert(old(self).array@[c]@[i].usize_view() != k);
                    }
                } else {
                    assert(self.array@[c]@[i] == old(self).array@[c]@[i]);
                    assert(self.array@[c]@[j] == old(self).array@[c]@[j]);
                }
            }
            assert forall|c: int, i: int|
                0 <= c < len && 0 <= i < self.array@[c]@.len() implies chain_of((#[trigger] self.array@[c]@[i]).usize_view(), len) == c by {
                if !(c == b && i == self.array@[c]@.len() - 1) {
                    assert(self.array@[c]@[i] == old(self).array@[c]@[i]);
                }
            }
            assert(self.members@ == add_step(old(self).members@, x));
        }
        true
    }

    fn remove(&mut self, x: T) -> (r: Option<T>) {
        let k = x.to_usize();
        let (b, found) = self.locate(k);
        match found {
            None => None,
            Some(i) => {
                let mut chain = self.array.remove(b);
                let y = chain.remove(i);
                self.array.insert(b, chain);
                proof {
                    assert(old(self).array@[b as int]@[i as int] == y);
                    assert(old(self).members@[k] == y);
                }
                self.members = Ghost(self.members@.remove(k));
                self.n = self.n - 1;
                proof {
                    let len = self.array@.len();
                    let oc = old(self).array@[b as int]@;
                    assert forall|c: int| 0 <= c < len && c != b implies self.array@[c] == old(self).array@[c] by {}
                    assert(self.array@[b as int]@ == oc.remove(i as int));
                    assert forall|c: int, p: int|
                        0 <= c < len && 0 <= p < self.array@[c]@.len() implies chain_of((#[trigger] self.array@[c]@[p]).usize_view(), len) == c by {
                        if c == b {
                            if p < i {
                                assert(self.array@[c]@[p] == oc[p]);
                            } else {
                                assert(self.array@[c]@[p] == oc[p + 1]);
                            }
                        } else {
                            assert(self.array@[c]@[p] == old(self).array@[c]@[p]);
                        }
                    }
                    assert forall|c: int, p: int, q: int|
                        0 <= c < len && 0 <= p < self.array@[c]@.len() && 0 <= q < self.array@[c]@.len() && p != q
                            implies (#[trigger] self.array@[c]@[p]).usize_view() != (#[trigger] self.array@[c]@[q]).usize_view() by {
                        if c == b {
                            let pp = if p < i { p } else { p + 1 };
                            let qq = if q < i { q } else { q + 1 };
                            assert(self.array@[c]@[p] == oc[pp]);
                            assert(self.array@[c]@[q] == oc[qq]);
                        } else {
                            assert(self.array@[c]@[p] == old(self).array@[c]@[p]);
                            assert(self.array@[c]@[q] == old(self).array@[c]@[q]);
                        }
                    }
                    assert forall|c: int, p: int|
                        0 <= c < len && 0 <= p < self.array@[c]@.len() implies {
                        let z = #[trigger] self.array@[c]@[p];
                        &&& self.members@.contains_key(z.usize_view())
                        &&& self.members@[z.usize_view()] == z
                    } by {
                        if c == b {
                            let pp = if p < i { p } else { p + 1 };
                            assert(self.array@[c]@[p] == oc[pp]);
                            assert(pp != i);
                        } else {
                            assert(self.array@[c]@[p] == old(self).array@[c]@[p]);
                            if old(self).array@[c]@[p].usize_view() == k {
                                assert(chain_of(old(self).array@[c]@[p].usize_view(), len) == c);
                            }
                        }
                    }
                    assert forall|kk: usize| #[trigger] self.members@.contains_key(kk) implies exists|p: int|
                        0 <= p < self.array@[chain_of(kk, len)]@.len() && self.array@[chain_of(kk, len)]@[p].usize_view() == kk by {
                        let p = choose|p: int|
                            0 <= p < old(self).array@[chain_of(kk, len)]@.len() && old(self).array@[chain_of(kk, len)]@[p].usize_view() == kk;
                        if chain_of(kk, len) == b {
                            assert(p != i);
                            if p < i {
                                assert(self.array@[b as int]@[p] == oc[p]);
                            } else {
                                assert(self.array@[b as int]@[p - 1] == oc[p]);
                            }
                        } else {
                            assert(self.array@[chain_of(kk, len)]@[p] == old(self).array@[chain_of(kk, len)]@[p]);
                        }
                    }
                }
                Some(y)
            },
        }
    }

    fn find(&self, x: T) -> (r: bool) {
        let (b, found) = self.locate(x.to_usize());
        proof {
            if found is Some {
                let i = found.unwrap();
                let y = self.array@[b as int]@[i as int];
                assert(self.members@.contains_key(y.usize_view()));
            }
        }
        found.is_some()
    }
}

} // verus!
