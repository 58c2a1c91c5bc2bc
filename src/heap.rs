use vstd::prelude::*;

verus! {

broadcast use vstd::seq_lib::group_to_multiset_ensures;

/// A binary min-heap kept in the first `n` slots of an array: the children of
/// slot `i` are the slots `2i + 1` and `2i + 2`.
#[derive(Debug, PartialEq, Eq)]
pub struct BinaryHeap {
    pub array: Vec<Option<i64>>,
    pub n: usize,
}

pub open spec fn parent_of(i: int) -> int {
    (i - 1) / 2
}

/// No element of `s` is smaller than its parent.
pub open spec fn heap_ordered(s: Seq<i64>) -> bool {
    forall|k: int| 0 < k < s.len() ==> s[parent_of(k)] <= #[trigger] s[k]
}

/// The heap order holds everywhere except between `i` and its parent, and
/// the parent of `i` is no larger than the children of `i`.
pub open spec fn ordered_but_up(s: Seq<i64>, i: int) -> bool {
    &&& forall|k: int| 0 < k < s.len() && k != i ==> s[parent_of(k)] <= #[trigger] s[k]
    &&& forall|k: int|
        0 < k < s.len() && parent_of(k) == i && i > 0 ==> s[parent_of(i)] <= #[trigger] s[k]
}

/// The heap order holds everywhere except between `i` and its children, and
/// the parent of `i` is no larger than the children of `i`.
pub open spec fn ordered_but_down(s: Seq<i64>, i: int) -> bool {
    &&& forall|k: int| 0 < k < s.len() && parent_of(k) != i ==> s[parent_of(k)] <= #[trigger] s[k]
    &&& forall|k: int|
        0 < k < s.len() && parent_of(k) == i && i > 0 ==> s[parent_of(i)] <= #[trigger] s[k]
}

proof fn lemma_swap_multiset(s: Seq<i64>, i: int, j: int)
    requires
        0 <= i < s.len(),
        0 <= j < s.len(),
    ensures
        s.update(i, s[j]).update(j, s[i]).to_multiset() == s.to_multiset(),
{
    broadcast use vstd::seq_lib::to_multiset_update;
    broadcast use vstd::multiset::group_multiset_axioms;

    let t = s.update(i, s[j]);
    assert(t.to_multiset() == s.to_multiset().insert(s[j]).remove(s[i]));
    assert(t.update(j, s[i]).to_multiset() == t.to_multiset().insert(s[i]).remove(t[j]));
    if i == j {
        assert(t.update(j, s[i]) =~= s);
    } else {
        assert(t[j] == s[j]);
        assert(t.update(j, s[i]).to_multiset() =~= s.to_multiset());
    }
}

/// The root of a heap-ordered sequence is its least element.
proof fn lemma_root_least(s: Seq<i64>, k: int)
    requires
        heap_ordered(s),
        0 <= k < s.len(),
    ensures
        s[0] <= s[k],
    decreases k,
{
    if k > 0 {
        lemma_root_least(s, parent_of(k));
    }
}

impl View for BinaryHeap {
    type V = Seq<i64>;

    open spec fn view(&self) -> Seq<i64> {
        Seq::new(self.n as nat, |i: int| self.array@[i].unwrap())
    }
}

impl BinaryHeap {
    /// The first `n` slots are filled, the rest empty, and the filled part is
    /// heap-ordered.
    pub open spec fn wf(&self) -> bool {
        &&& self.n <= self.array@.len()
        &&& forall|i: int| 0 <= i < self.n ==> (#[trigger] self.array@[i]).is_some()
        &&& forall|i: int| self.n <= i < self.array@.len() ==> (#[trigger] self.array@[i]).is_none()
        &&& heap_ordered(self@)
    }

    pub fn new() -> (r: Self)
        ensures
            r.wf(),
            r@ == Seq::<i64>::empty(),
    {
        let r = BinaryHeap { array: Vec::new(), n: 0 };
        assert(r@ =~= Seq::<i64>::empty());
        r
    }

    fn left_index(i: usize) -> (r: usize)
        requires
            i <= (usize::MAX - 2) / 2,
        ensures
            r == 2 * i + 1,
    {
        i * 2 + 1
    }

    fn right_index(i: usize) -> (r: usize)
        requires
            i <= (usize::MAX - 2) / 2,
        ensures
            r == 2 * i + 2,
    {
        i * 2 + 2
    }

    fn parent_index(i: usize) -> (r: usize)
        requires
            i > 0,
        ensures
            r == parent_of(i as int),
    {
        (i - 1) / 2
    }

    fn get(&self, i: usize) -> (r: i64)
        requires
            i < self.n <= self.array@.len(),
            forall|k: int| 0 <= k < self.n ==> (#[trigger] self.array@[k]).is_some(),
        ensures
            r == self@[i as int],
    {
        self.array[i].unwrap()
    }

    fn swap(&mut self, i: usize, j: usize)
        requires
            i < old(self).n,
            j < old(self).n,
            old(self).n <= old(self).array@.len(),
            forall|k: int| 0 <= k < old(self).n ==> (#[trigger] old(self).array@[k]).is_some(),
        ensures
            final(self).n == old(self).n,
            final(self).array@.len() == old(self).array@.len(),
            forall|k: int| 0 <= k < final(self).n ==> (#[trigger] final(self).array@[k]).is_some(),
            forall|k: int| final(self).n <= k < final(self).array@.len() ==> final(self).array@[k] == old(self).array@[k],
            final(self)@ == old(self)@.update(i as int, old(self)@[j as int]).update(j as int, old(self)@[i as int]),
    {
        let a = self.array[i];
        let b = self.array[j];
        self.array.set(i, b);
        self.array.set(j, a);
        assert(self@ =~= old(self)@.update(i as int, old(self)@[j as int]).update(j as int, old(self)@[i as int]));
    }

    /// Moves the element at `i` up while it is smaller than its parent.
    fn bubble_up(&mut self, i: usize)
        requires
            i < old(self).n <= old(self).array@.len(),
            old(self).n <= usize::MAX / 2,
            forall|k: int| 0 <= k < old(self).n ==> (#[trigger] old(self).array@[k]).is_some(),
            forall|k: int| old(self).n <= k < old(self).array@.len() ==> (#[trigger] old(self).array@[k]).is_none(),
            ordered_but_up(old(self)@, i as int),
        ensures
            final(self).wf(),
            final(self).n == old(self).n,
            final(self).array@.len() == old(self).array@.len(),
            final(self)@.to_multiset() == old(self)@.to_multiset(),
    {
        let mut i = i;
        while i > 0 && self.get(i) < self.get(Self::parent_index(i))
            invariant
                i < self.n <= self.array@.len(),
                self.n == old(self).n,
                self.array@.len() == old(self).array@.len(),
                forall|k: int| 0 <= k < self.n ==> (#[trigger] self.array@[k]).is_some(),
                forall|k: int| self.n <= k < self.array@.len() ==> (#[trigger] self.array@[k]).is_none(),
                ordered_but_up(self@, i as int),
                self@.to_multiset() == old(self)@.to_multiset(),
            decreases i,
        {
            let p = Self::parent_index(i);
            let ghost s = self@;
            self.swap(i, p);
            proof {
                lemma_swap_multiset(s, i as int, p as int);
                let t = self@;
                assert forall|k: int| 0 < k < t.len() && k != p implies t[parent_of(k)] <= #[trigger] t[k] by {
                    if k == i {
                    } else if parent_of(k) == i {
                        assert(s[parent_of(i as int)] <= s[k]);
                    } else if parent_of(k) == p {
                        assert(s[p as int] <= s[k]);
                    }
                }
                assert forall|k: int|
                    0 < k < t.len() && parent_of(k) == p && p > 0 implies t[parent_of(p as int)] <= #[trigger] t[k] by {
                    assert(s[parent_of(p as int)] <= s[p as int]);
                    if k != i {
                        assert(s[p as int] <= s[k]);
                    }
                }
            }
            i = p;
        }
        proof {
            assert forall|k: int| 0 < k < self@.len() implies self@[parent_of(k)] <= #[trigger] self@[k] by {
                if k == i {
                }
            }
        }
    }

    /// Moves the element at `i` down while a child is smaller.
    fn trickle_down(&mut self, i: usize)
        requires
            i < old(self).n <= old(self).array@.len(),
            old(self).n <= (usize::MAX - 2) / 2,
            forall|k: int| 0 <= k < old(self).n ==> (#[trigger] old(self).array@[k]).is_some(),
            forall|k: int| old(self).n <= k < old(self).array@.len() ==> (#[trigger] old(self).array@[k]).is_none(),
            ordered_but_down(old(self)@, i as int),
        ensures
            final(self).wf(),
            final(self).n == old(self).n,
            final(self).array@.len() == old(self).array@.len(),
            final(self)@.to_multiset() == old(self)@.to_multiset(),
    {
        let mut i = i;
        loop
            invariant
                i < self.n <= self.array@.len(),
                self.n == old(self).n,
                self.n <= (usize::MAX - 2) / 2,
                self.array@.len() == old(self).array@.len(),
                forall|k: int| 0 <= k < self.n ==> (#[trigger] self.array@[k]).is_some(),
                forall|k: int| self.n <= k < self.array@.len() ==> (#[trigger] self.array@[k]).is_none(),
                ordered_but_down(self@, i as int),
                self@.to_multiset() == old(self)@.to_multiset(),
            decreases self.n - i,
        {
            let l = Self::left_index(i);
            let r = Self::right_index(i);
            let mut j = i;
            if r < self.n && self.get(r) < self.get(i) {
                j = if self.get(l) < self.get(r) { l } else { r };
            } else if l < self.n && self.get(l) < self.get(i) {
                j = l;
            }
            if j == i {
                proof {
                    assert forall|k: int| 0 < k < self@.len() implies self@[parent_of(k)] <= #[trigger] self@[k] by {
                        if parent_of(k) == i {
                            assert(k == l || k == r);
                        }
                    }
                }
                return;
            }
            let ghost s = self@;
            self.swap(i, j);
            proof {
                lemma_swap_multiset(s, i as int, j as int);
                let t = self@;
                assert(parent_of(j as int) == i);
                assert forall|k: int| 0 < k < t.len() && parent_of(k) != j implies t[parent_of(k)] <= #[trigger] t[k] by {
                    if k == j {
                    } else if parent_of(k) == i {
                        assert(k == l || k == r);
                    } else if k == i {
                        assert(s[parent_of(i as int)] <= s[j as int]);
                    }
                }
                assert forall|k: int|
                    0 < k < t.len() && parent_of(k) == j && j > 0 implies t[parent_of(j as int)] <= #[trigger] t[k] by {
                    assert(s[j as int] <= s[k]);
                }
            }
            i = j;
        }
    }

    /// Moves the elements into an array of twice their number (at least one
    /// slot).
    fn resize(&mut self)
        requires
            old(self).wf(),
            old(self).n < usize::MAX / 2,
        ensures
            final(self).wf(),
            final(self)@ == old(self)@,
            final(self).array@.len() == if old(self).n == 0 { 1 } else { 2 * old(self).n },
    {
        let cap = if self.n == 0 { 1 } else { self.n * 2 };
        let mut a: Vec<Option<i64>> = Vec::new();
        let mut k: usize = 0;
        while k < cap
            invariant
                k <= cap,
                self.n <= cap,
                self.n <= self.array@.len(),
                a@.len() == k,
                forall|m: int| 0 <= m < k && m < self.n ==> a@[m] == self.array@[m],
                forall|m: int| self.n <= m < k ==> a@[m].is_none(),
            decreases cap - k,
        {
            if k < self.n {
                a.push(self.array[k]);
            } else {
                a.push(None);
            }
            k = k + 1;
        }
        self.array = a;
        assert(self@ =~= old(self)@);
    }

    /// Adds `x`; always succeeds.
    pub fn add(&mut self, x: i64) -> (r: bool)
        requires
            old(self).wf(),
            old(self)@.len() < usize::MAX / 4,
        ensures
            final(self).wf(),
            r == true,
            final(self)@.to_multiset() == old(self)@.to_multiset().insert(x),
    {
        if self.n + 1 > self.array.len() {
            self.resize();
        }
        let ghost s = self@;
        self.array.set(self.n, Some(x));
        self.n = self.n + 1;
        proof {
            assert(self@ =~= s.push(x));
            assert forall|k: int| 0 < k < self@.len() && parent_of(k) == self.n - 1 implies false by {}
        }
        self.bubble_up(self.n - 1);
        true
    }

    /// Takes out and returns the least element; `None` when empty.
    pub fn remove(&mut self) -> (r: Option<i64>)
        requires
            old(self).wf(),
            old(self)@.len() < usize::MAX / 4,
        ensures
            final(self).wf(),
            old(self)@.len() == 0 ==> r is None && final(self)@ == old(self)@,
            old(self)@.len() > 0 ==> ({
                let m = old(self)@[0];
                &&& r == Some(m)
                &&& forall|k: int| 0 <= k < old(self)@.len() ==> m <= #[trigger] old(self)@[k]
                &&& final(self)@.to_multiset() == old(self)@.to_multiset().remove(m)
            }),
    {
        if self.n == 0 {
            return None;
        }
        proof {
            assert forall|k: int| 0 <= k < old(self)@.len() implies old(self)@[0] <= #[trigger] old(self)@[k] by {
                lemma_root_least(old(self)@, k);
            }
        }
        let x = self.array[0];
        let last = self.n - 1;
        let ghost s = self@;
        let y = self.array[last];
        self.array.set(0, y);
        self.array.set(last, None);
        self.n = last;
        proof {
            broadcast use vstd::seq_lib::to_multiset_update;
            let t = self@;
            assert(t =~= s.update(0, s[last as int]).drop_last());
            assert(s.update(0, s[last as int]).to_multiset() == s.to_multiset().insert(s[last as int]).remove(s[0]));
            assert(s.update(0, s[last as int]).drop_last() =~= s.update(0, s[last as int]).remove(last as int));
            assert(t.to_multiset() =~= s.to_multiset().remove(s[0]));
            assert forall|k: int| 0 < k < t.len() && parent_of(k) != 0 implies t[parent_of(k)] <= #[trigger] t[k] by {
                assert(s[parent_of(k)] <= s[k]);
            }
        }
        if self.n > 0 {
            self.trickle_down(0);
        } else {
            assert(self@ =~= Seq::<i64>::empty());
        }
        if self.n * 3 < self.array.len() {
            self.resize();
        }
        x
    }
}

} // verus!
