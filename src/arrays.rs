use vstd::prelude::*;

use crate::interfaces::{List, Queue};

verus! {

/// A list kept in the first `n` slots of a backing array, which doubles when it
/// fills up and shrinks when it is at most a third full.
#[derive(Debug, PartialEq, Eq)]
pub struct ArrayStack<T> {
    pub array: Vec<Option<T>>,
    pub n: usize,
}

/// The first `n` slots of `a`, copied into a fresh array of `cap` slots.
fn copy_prefix<T: Copy>(a: &Vec<Option<T>>, n: usize, cap: usize) -> (r: Vec<Option<T>>)
    requires
        n <= a@.len(),
        n <= cap,
    ensures
        r@.len() == cap,
        forall|k: int| 0 <= k < n ==> r@[k] == a@[k],
        forall|k: int| n <= k < cap ==> r@[k].is_none(),
{
    let mut r: Vec<Option<T>> = Vec::with_capacity(cap);
    let mut i: usize = 0;
    while i < cap
        invariant
            i <= cap,
            n <= a@.len(),
            n <= cap,
            r@.len() == i,
            forall|k: int| 0 <= k < i && k < n ==> r@[k] == a@[k],
            forall|k: int| n <= k < i ==> r@[k].is_none(),
        decreases cap - i,
    {
        if i < n {
            r.push(a[i]);
        } else {
            r.push(None);
        }
        i = i + 1;
    }
    r
}

impl<T: Copy> View for ArrayStack<T> {
    type V = Seq<T>;

    open spec fn view(&self) -> Seq<T> {
        Seq::new(self.n as nat, |i: int| self.array@[i].unwrap())
    }
}

impl<T: Copy> ArrayStack<T> {
    /// The first `n` slots are filled and the rest are empty.
    pub open spec fn wf(&self) -> bool {
        &&& self.n <= self.array@.len()
        &&& forall|i: int| 0 <= i < self.n ==> (#[trigger] self.array@[i]).is_some()
        &&& forall|i: int| self.n <= i < self.array@.len() ==> (#[trigger] self.array@[i]).is_none()
    }

    pub fn new() -> (r: Self)
        ensures
            r.wf(),
            r@ == Seq::<T>::empty(),
    {
        let r = ArrayStack { array: Vec::new(), n: 0 };
        assert(r@ =~= Seq::<T>::empty());
        r
    }

    pub fn size(&self) -> (r: usize)
        requires
            self.wf(),
        ensures
            r == self@.len(),
    {
        self.n
    }

    /// The element at position `i`, or `None` past the end.
    pub fn get(&self, i: usize) -> (r: Option<T>)
        requires
            self.wf(),
        ensures
            i < self@.len() ==> r == Some(self@[i as int]),
            i >= self@.len() ==> r.is_none(),
    {
        if i < self.n {
            self.array[i]
        } else {
            None
        }
    }

    /// Inserts `x` at position `i`, moving the later elements up by one.
    pub fn add(&mut self, i: usize, x: T)
        requires
            old(self).wf(),
            i <= old(self)@.len(),
            old(self)@.len() < usize::MAX / 2,
        ensures
            final(self).wf(),
            final(self)@ == old(self)@.insert(i as int, x),
            final(self).array@.len() == if old(self).n + 1 > old(self).array@.len() {
                if old(self).n == 0 { 1 } else { 2 * old(self).n }
            } else {
                old(self).array@.len() as int
            },
    {
        if self.n + 1 > self.array.len() {
            self.resize();
        }
        self.array.insert(i, Some(x));
        let last = self.array.pop();
        self.n = self.n + 1;
        assert(self@ =~= old(self)@.insert(i as int, x));
    }

    /// Removes and returns the element at position `i`; `None`, with nothing
    /// changed, past the end.
    pub fn remove(&mut self, i: usize) -> (r: Option<T>)
        requires
            old(self).wf(),
            old(self)@.len() < usize::MAX / 3,
        ensures
            final(self).wf(),
            i < old(self)@.len() ==> r == Some(old(self)@[i as int]) && final(self)@ == old(
                self,
            )@.remove(i as int),
            i >= old(self)@.len() ==> r.is_none() && final(self)@ == old(self)@ && final(self).array@
                == old(self).array@,
            i < old(self)@.len() ==> final(self).array@.len() == if old(self).array@.len() >= 3 * (
            old(self).n - 1) {
                if old(self).n == 1 { 1 } else { 2 * (old(self).n - 1) }
            } else {
                old(self).array@.len() as int
            },
    {
        if i >= self.n {
            return None;
        }
        let x = self.array.remove(i);
        self.array.push(None);
        self.n = self.n - 1;
        assert(self@ =~= old(self)@.remove(i as int));
        if self.array.len() >= 3 * self.n {
            self.resize();
        }
        x
    }

    /// Removes and returns the first element.
    pub fn next(&mut self) -> (r: Option<T>)
        requires
            old(self).wf(),
            old(self)@.len() < usize::MAX / 3,
        ensures
            final(self).wf(),
            old(self)@.len() > 0 ==> r == Some(old(self)@[0]) && final(self)@ == old(self)@.drop_first(),
            old(self)@.len() == 0 ==> r.is_none() && final(self)@ == old(self)@,
    {
        let r = self.remove(0);
        proof {
            if old(self)@.len() > 0 {
                assert(old(self)@.remove(0) =~= old(self)@.drop_first());
            }
        }
        r
    }

    /// Moves the elements into an array of twice their number (at least one slot).
    fn resize(&mut self)
        requires
            old(self).wf(),
            old(self).n < usize::MAX / 2,
        ensures
            final(self).wf(),
            final(self)@ == old(self)@,
            final(self).array@.len() == if old(self).n == 0 { 1 } else { 2 * old(self).n },
    {
        let cap = if self.n == 0 { 1 } else { self.n * 2 };
        let a = copy_prefix(&self.array, self.n, cap);
        self.array = a;
        assert(self@ =~= old(self)@);
    }
}


/// Position in the backing array of the `i`-th element of a circular layout
/// that starts at `j` in an array of `len` slots.
pub open spec fn slot(j: int, i: int, len: int) -> int {
    if j + i < len {
        j + i
    } else {
        j + i - len
    }
}

fn slot_exec(j: usize, i: usize, len: usize) -> (r: usize)
    requires
        j < len,
        i < len,
    ensures
        r == slot(j as int, i as int, len as int),
        r < len,
{
    if i < len - j {
        j + i
    } else {
        i - (len - j)
    }
}

/// The `n` elements of a circular layout, copied into a fresh array of `cap`
/// slots starting at slot 0.
fn copy_circular<T: Copy>(a: &Vec<Option<T>>, j: usize, n: usize, cap: usize) -> (r: Vec<Option<T>>)
    requires
        n <= a@.len(),
        n <= cap,
        a@.len() > 0 ==> j < a@.len(),
    ensures
        r@.len() == cap,
        forall|k: int| 0 <= k < n ==> r@[k] == a@[slot(j as int, k, a@.len() as int)],
        forall|k: int| n <= k < cap ==> r@[k].is_none(),
{
    let mut r: Vec<Option<T>> = Vec::with_capacity(cap);
    let mut i: usize = 0;
    while i < cap
        invariant
            i <= cap,
            n <= a@.len(),
            n <= cap,
            a@.len() > 0 ==> j < a@.len(),
            r@.len() == i,
            forall|k: int| 0 <= k < i && k < n ==> r@[k] == a@[slot(j as int, k, a@.len() as int)],
            forall|k: int| n <= k < i ==> r@[k].is_none(),
        decreases cap - i,
    {
        if i < n {
            let s = slot_exec(j, i, a.len());
            r.push(a[s]);
        } else {
            r.push(None);
        }
        i = i + 1;
    }
    r
}

/// A FIFO queue kept as a circular run of `n` slots starting at `j`.
#[derive(Debug, PartialEq, Eq)]
pub struct ArrayQueue<T> {
    pub n: usize,
    pub j: usize,
    pub array: Vec<Option<T>>,
}

impl<T: Copy> View for ArrayQueue<T> {
    type V = Seq<T>;

    open spec fn view(&self) -> Seq<T> {
        Seq::new(
            self.n as nat,
            |i: int| self.array@[slot(self.j as int, i, self.array@.len() as int)].unwrap(),
        )
    }
}

impl<T: Copy> ArrayQueue<T> {
    /// The run of `n` slots from `j` (wrapping around) is filled.
    pub open spec fn wf(&self) -> bool {
        &&& self.n <= self.array@.len()
        &&& self.array@.len() == 0 ==> self.j == 0
        &&& self.array@.len() > 0 ==> self.j < self.array@.len()
        &&& forall|i: int|
            0 <= i < self.n ==> (#[trigger] self.array@[slot(
                self.j as int,
                i,
                self.array@.len() as int,
            )]).is_some()
    }

    pub fn new() -> (r: Self)
        ensures
            r.wf(),
            r@ == Seq::<T>::empty(),
    {
        let r = ArrayQueue { n: 0, j: 0, array: Vec::new() };
        assert(r@ =~= Seq::<T>::empty());
        r
    }

    /// Appends `x` at the back.
    pub fn add(&mut self, x: T)
        requires
            old(self).wf(),
            old(self)@.len() < usize::MAX / 2,
        ensures
            final(self).wf(),
            final(self)@ == old(self)@.push(x),
            final(self).array@.len() == if old(self).n + 1 > old(self).array@.len() {
                if old(self).n == 0 { 1 } else { 2 * old(self).n }
            } else {
                old(self).array@.len() as int
            },
    {
        if self.n + 1 > self.array.len() {
            self.resize();
        }
        let s = slot_exec(self.j, self.n, self.array.len());
        self.array.set(s, Some(x));
        self.n = self.n + 1;
        assert forall|i: int| 0 <= i < self.n - 1 implies slot(
            self.j as int,
            i,
            self.array@.len() as int,
        ) != s by {}
        assert(self@ =~= old(self)@.push(x));
    }

    /// Takes the element at the front; `None` when empty.
    pub fn remove(&mut self) -> (r: Option<T>)
        requires
            old(self).wf(),
            old(self)@.len() < usize::MAX / 3,
        ensures
            final(self).wf(),
            old(self)@.len() > 0 ==> r == Some(old(self)@[0]) && final(self)@ == old(self)@.drop_first(),
            old(self)@.len() == 0 ==> r.is_none() && final(self)@ == old(self)@,
    {
        if self.n == 0 {
            return None;
        }
        let x = self.array[self.j];
        self.array.set(self.j, None);
        self.j = if self.j == self.array.len() - 1 { 0 } else { self.j + 1 };
        self.n = self.n - 1;
        assert forall|i: int| 0 <= i < self.n implies slot(
            self.j as int,
            i,
            self.array@.len() as int,
        ) == slot(old(self).j as int, i + 1, self.array@.len() as int) by {}
        assert(self@ =~= old(self)@.drop_first());
        if self.array.len() >= 3 * self.n {
            self.resize();
        }
        x
    }

    /// Moves the elements to the start of an array of twice their number (at
    /// least one slot).
    pub fn resize(&mut self)
        requires
            old(self).wf(),
            old(self).n < usize::MAX / 2,
        ensures
            final(self).wf(),
            final(self)@ == old(self)@,
            final(self).j == 0,
            final(self).array@.len() == if old(self).n == 0 { 1 } else { 2 * old(self).n },
    {
        let cap = if self.n == 0 { 1 } else { self.n * 2 };
        let a = copy_circular(&self.array, self.j, self.n, cap);
        self.array = a;
        self.j = 0;
        assert(self@ =~= old(self)@);
    }
}


/// A list kept as a circular run of `n` slots starting at `j`, so that both
/// ends are cheap to reach.
#[derive(Debug, PartialEq, Eq)]
pub struct ArrayDeque<T> {
    pub array: Vec<Option<T>>,
    pub n: usize,
    pub j: usize,
}

impl<T: Copy> View for ArrayDeque<T> {
    type V = Seq<T>;

    open spec fn view(&self) -> Seq<T> {
        Seq::new(
            self.n as nat,
            |i: int| self.array@[slot(self.j as int, i, self.array@.len() as int)].unwrap(),
        )
    }
}

impl<T: Copy> ArrayDeque<T> {
    /// The run of `n` slots from `j` (wrapping around) is filled.
    pub open spec fn wf(&self) -> bool {
        &&& self.n <= self.array@.len()
        &&& self.array@.len() == 0 ==> self.j == 0
        &&& self.array@.len() > 0 ==> self.j < self.array@.len()
        &&& forall|i: int|
            0 <= i < self.n ==> (#[trigger] self.array@[slot(
                self.j as int,
                i,
                self.array@.len() as int,
            )]).is_some()
    }

    pub fn new() -> (r: Self)
        ensures
            r.wf(),
            r@ == Seq::<T>::empty(),
    {
        let r = ArrayDeque { array: Vec::new(), n: 0, j: 0 };
        assert(r@ =~= Seq::<T>::empty());
        r
    }

    /// The element at position `i`, or `None` past the end.
    pub fn get(&self, i: usize) -> (r: Option<T>)
        requires
            self.wf(),
        ensures
            i < self@.len() ==> r == Some(self@[i as int]),
            i >= self@.len() ==> r.is_none(),
    {
        if i >= self.n {
            return None;
        }
        let s = slot_exec(self.j, i, self.array.len());
        self.array[s]
    }

    /// Replaces the element at position `i`; past the end nothing changes.
    pub fn set(&mut self, i: usize, x: T)
        requires
            old(self).wf(),
        ensures
            final(self).wf(),
            i < old(self)@.len() ==> final(self)@ == old(self)@.update(i as int, x),
            i >= old(self)@.len() ==> final(self)@ == old(self)@,
    {
        if i < self.n {
            let s = slot_exec(self.j, i, self.array.len());
            self.array.set(s, Some(x));
            assert(self@ =~= old(self)@.update(i as int, x));
        }
    }

    /// Inserts `x` at position `i`, moving the later elements up by one.
    pub fn add(&mut self, i: usize, x: T)
        requires
            old(self).wf(),
            i <= old(self)@.len(),
            old(self)@.len() < usize::MAX / 2,
        ensures
            final(self).wf(),
            final(self)@ == old(self)@.insert(i as int, x),
    {
        if self.n + 1 > self.array.len() {
            let cap = if self.n == 0 { 1 } else { self.n * 2 };
            let a = copy_circular(&self.array, self.j, self.n, cap);
            self.array = a;
            self.j = 0;
            assert(self@ =~= old(self)@);
        }
        let ghost before = self.array@;
        let ghost s0 = self@;
        let len = self.array.len();
        let j = self.j;
        let n = self.n;
        let mut k: usize = n;
        while k > i
            invariant
                i <= k <= n,
                n < len,
                j < len,
                self.array@.len() == len,
                before.len() == len,
                self.j == j,
                self.n == n,
                forall|m: int|
                    0 <= m < k ==> self.array@[slot(j as int, m, len as int)] == before[slot(
                        j as int,
                        m,
                        len as int,
                    )],
                forall|m: int|
                    k < m <= n ==> self.array@[slot(j as int, m, len as int)] == before[slot(
                        j as int,
                        m - 1,
                        len as int,
                    )],
            decreases k,
        {
            let to = slot_exec(j, k, len);
            let from = slot_exec(j, k - 1, len);
            let v = self.array[from];
            self.array.set(to, v);
            k = k - 1;
        }
        let s = slot_exec(j, i, len);
        self.array.set(s, Some(x));
        self.n = n + 1;
        assert forall|m: int| 0 <= m <= n implies #[trigger] self.array@[slot(j as int, m, len as int)]
            == if m < i {
            before[slot(j as int, m, len as int)]
        } else if m == i {
            Some(x)
        } else {
            before[slot(j as int, m - 1, len as int)]
        } by {}
        assert(self@ =~= s0.insert(i as int, x));
    }

    /// Removes and returns the element at position `i`; `None`, with nothing
    /// changed, past the end.
    pub fn remove(&mut self, i: usize) -> (r: Option<T>)
        requires
            old(self).wf(),
            old(self)@.len() < usize::MAX / 3,
        ensures
            final(self).wf(),
            i < old(self)@.len() ==> r == Some(old(self)@[i as int]) && final(self)@ == old(
                self,
            )@.remove(i as int),
            i >= old(self)@.len() ==> r.is_none() && final(self)@ == old(self)@,
    {
        if i >= self.n {
            return None;
        }
        let ghost before = self.array@;
        let ghost s0 = self@;
        let len = self.array.len();
        let j = self.j;
        let n = self.n;
        let x = self.array[slot_exec(j, i, len)];
        let mut k: usize = i;
        while k + 1 < n
            invariant
                i <= k < n,
                n <= len,
                j < len,
                self.array@.len() == len,
                before.len() == len,
                self.j == j,
                self.n == n,
                forall|m: int|
                    0 <= m < i ==> self.array@[slot(j as int, m, len as int)] == before[slot(
                        j as int,
                        m,
                        len as int,
                    )],
                forall|m: int|
                    i <= m < k ==> self.array@[slot(j as int, m, len as int)] == before[slot(
                        j as int,
                        m + 1,
                        len as int,
                    )],
                forall|m: int|
                    k < m < n ==> self.array@[slot(j as int, m, len as int)] == before[slot(
                        j as int,
                        m,
                        len as int,
                    )],
            decreases n - k,
        {
            let to = slot_exec(j, k, len);
            let from = slot_exec(j, k + 1, len);
            let v = self.array[from];
            self.array.set(to, v);
            k = k + 1;
        }
        let last = slot_exec(j, n - 1, len);
        self.array.set(last, None);
        self.n = n - 1;
        assert forall|m: int| 0 <= m < n - 1 implies #[trigger] self.array@[slot(j as int, m, len as int)]
            == if m < i {
            before[slot(j as int, m, len as int)]
        } else {
            before[slot(j as int, m + 1, len as int)]
        } by {}
        assert(self@ =~= s0.remove(i as int));
        if 3 * self.n < self.array.len() {
            let cap = if self.n == 0 { 1 } else { self.n * 2 };
            let a = copy_circular(&self.array, self.j, self.n, cap);
            self.array = a;
            self.j = 0;
            assert(self@ =~= s0.remove(i as int));
        }
        x
    }
}

/// A list held as two stacks: `front` in reverse order, then `back`.
pub struct DualArrayDeque<T> {
    pub front: ArrayStack<T>,
    pub back: ArrayStack<T>,
}

impl<T: Copy> View for DualArrayDeque<T> {
    type V = Seq<T>;

    open spec fn view(&self) -> Seq<T> {
        self.front@.reverse() + self.back@
    }
}

impl<T: Copy> DualArrayDeque<T> {
    pub open spec fn wf(&self) -> bool {
        self.front.wf() && self.back.wf()
    }

    pub fn size(&self) -> (r: usize)
        requires
            self.wf(),
            self.front@.len() + self.back@.len() <= usize::MAX,
        ensures
            r == self@.len(),
    {
        self.front.size() + self.back.size()
    }
}

impl<T: Copy> List<T> for ArrayStack<T> {
    open spec fn items(&self) -> Seq<T> {
        self@
    }

    open spec fn well_formed(&self) -> bool {
        self.wf()
    }

    fn size(&self) -> (r: usize) {
        self.n
    }

    fn get(&self, i: usize) -> (r: Option<T>) {
        ArrayStack::get(self, i)
    }

    fn set(&mut self, i: usize, x: T) {
        if i < self.n {
            self.array.set(i, Some(x));
            assert(self@ =~= old(self)@.update(i as int, x));
        }
    }

    fn add(&mut self, i: usize, x: T) {
        ArrayStack::add(self, i, x)
    }

    fn remove(&mut self, i: usize) -> (r: Result<T, String>) {
        match ArrayStack::remove(self, i) {
            Some(x) => Ok(x),
            None => Err("index out of range".to_owned()),
        }
    }
}

impl<T: Copy> List<T> for ArrayDeque<T> {
    open spec fn items(&self) -> Seq<T> {
        self@
    }

    open spec fn well_formed(&self) -> bool {
        self.wf()
    }

    fn size(&self) -> (r: usize) {
        self.n
    }

    fn get(&self, i: usize) -> (r: Option<T>) {
        ArrayDeque::get(self, i)
    }

    fn set(&mut self, i: usize, x: T) {
        ArrayDeque::set(self, i, x)
    }

    fn add(&mut self, i: usize, x: T) {
        ArrayDeque::add(self, i, x)
    }

    fn remove(&mut self, i: usize) -> (r: Result<T, String>) {
        match ArrayDeque::remove(self, i) {
            Some(x) => Ok(x),
            None => Err("index out of range".to_owned()),
        }
    }
}

impl<T: Copy> Queue<T> for ArrayQueue<T> {
    open spec fn items(&self) -> Seq<T> {
        self@
    }

    open spec fn well_formed(&self) -> bool {
        self.wf()
    }

    fn add(&mut self, x: T) {
        ArrayQueue::add(self, x)
    }

    fn remove(&mut self) -> (r: Option<T>) {
        ArrayQueue::remove(self)
    }
}

} // verus!
