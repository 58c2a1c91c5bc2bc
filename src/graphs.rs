use vstd::prelude::*;

use crate::interfaces::Graph;

verus! {

proof fn lemma_push_contains(s: Seq<usize>, x: usize)
    ensures
        forall|k: usize| #[trigger] s.push(x).contains(k) <==> s.contains(k) || k == x,
{
    assert forall|k: usize| #[trigger] s.push(x).contains(k) <==> s.contains(k) || k == x by {
        if s.contains(k) {
            let m = choose|m: int| 0 <= m < s.len() && s[m] == k;
            assert(s.push(x)[m] == k);
        }
        if k == x {
            assert(s.push(x)[s.len() as int] == k);
        }
        if s.push(x).contains(k) {
            let m = choose|m: int| 0 <= m < s.len() + 1 && s.push(x)[m] == k;
            if m < s.len() {
                assert(s[m] == k);
            }
        }
    }
}

/// How many flags of `s` are down.
pub open spec fn count_false(s: Seq<bool>) -> nat
    decreases s.len(),
{
    if s.len() == 0 {
        0
    } else {
        count_false(s.drop_last()) + if s.last() {
            0nat
        } else {
            1nat
        }
    }
}

proof fn lemma_raise_flag(s: Seq<bool>, i: int)
    requires
        0 <= i < s.len(),
        !s[i],
    ensures
        count_false(s.update(i, true)) + 1 == count_false(s),
    decreases s.len(),
{
    let t = s.update(i, true);
    if i == s.len() - 1 {
        assert(t.drop_last() =~= s.drop_last());
    } else {
        lemma_raise_flag(s.drop_last(), i);
        assert(t.drop_last() =~= s.drop_last().update(i, true));
    }
}

/// Flags all down, `n` of them.
fn all_down(n: usize) -> (r: Vec<bool>)
    ensures
        r@.len() == n,
        forall|k: int| 0 <= k < n ==> !(#[trigger] r@[k]),
{
    let mut r: Vec<bool> = Vec::new();
    let mut k: usize = 0;
    while k < n
        invariant
            k <= n,
            r@.len() == k,
            forall|m: int| 0 <= m < k ==> !(#[trigger] r@[m]),
        decreases n - k,
    {
        r.push(false);
        k = k + 1;
    }
    r
}

/// A directed graph on `0..n` kept as an `n` by `n` matrix of flags.
pub struct AdjacencyMatrix {
    n: usize,
    matrix: Vec<Vec<bool>>,
}

impl AdjacencyMatrix {
    pub closed spec fn size_spec(&self) -> nat {
        self.n as nat
    }

    pub fn new(n: usize) -> (r: Self)
        ensures
            r.well_formed(),
            r.vertices() == n,
            forall|i: usize, j: usize| !r.has_edge_spec(i, j),
    {
        let mut matrix: Vec<Vec<bool>> = Vec::new();
        let mut i: usize = 0;
        while i < n
            invariant
                i <= n,
                matrix@.len() == i,
                forall|a: int| 0 <= a < i ==> (#[trigger] matrix@[a])@.len() == n,
                forall|a: int, b: int| 0 <= a < i && 0 <= b < n ==> !(#[trigger] matrix@[a]@[b]),
            decreases n - i,
        {
            let mut row: Vec<bool> = Vec::new();
            let mut j: usize = 0;
            while j < n
                invariant
                    j <= n,
                    row@.len() == j,
                    forall|b: int| 0 <= b < j ==> !(#[trigger] row@[b]),
                decreases n - j,
            {
                row.push(false);
                j = j + 1;
            }
            matrix.push(row);
            i = i + 1;
        }
        AdjacencyMatrix { n, matrix }
    }

    /// Sets the flag of the edge from `i` to `j`.
    fn set_flag(&mut self, i: usize, j: usize, flag: bool)
        requires
            old(self).well_formed(),
            i < old(self).n,
            j < old(self).n,
        ensures
            final(self).well_formed(),
            final(self).n == old(self).n,
            forall|a: usize, b: usize|
                #[trigger] final(self).has_edge_spec(a, b) == if a == i && b == j {
                    flag
                } else {
                    old(self).has_edge_spec(a, b)
                },
    {
        let mut row = self.matrix.remove(i);
        row.set(j, flag);
        self.matrix.insert(i, row);
        assert forall|a: usize, b: usize|
            #[trigger] self.has_edge_spec(a, b) == if a == i && b == j {
                flag
            } else {
                old(self).has_edge_spec(a, b)
            } by {
            if a < self.n && a != i {
                assert(self.matrix@[a as int] == old(self).matrix@[a as int]);
            }
        }
    }
}

impl Graph for AdjacencyMatrix {
    open spec fn vertices(&self) -> nat {
        self.size_spec()
    }

    closed spec fn has_edge_spec(&self, i: usize, j: usize) -> bool {
        i < self.n && j < self.n && self.matrix@[i as int]@[j as int]
    }

    closed spec fn well_formed(&self) -> bool {
        &&& self.matrix@.len() == self.n
        &&& forall|a: int| 0 <= a < self.n ==> (#[trigger] self.matrix@[a])@.len() == self.n
    }

    fn add_edge(&mut self, i: usize, j: usize) {
        self.set_flag(i, j, true)
    }

    fn remove_edge(&mut self, i: usize, j: usize) {
        self.set_flag(i, j, false)
    }

    fn has_edge(&self, i: usize, j: usize) -> (r: bool) {
        self.matrix[i][j]
    }

    fn out_edges(&self, i: usize) -> (r: Vec<usize>) {
        let mut r: Vec<usize> = Vec::new();
        let mut j: usize = 0;
        while j < self.n
            invariant
                self.well_formed(),
                i < self.n,
                j <= self.n,
                forall|k: usize| r@.contains(k) <==> k < j && self.has_edge_spec(i, k),
            decreases self.n - j,
        {
            let ghost r0 = r@;
            if self.matrix[i][j] {
                r.push(j);
                proof {
                    lemma_push_contains(r0, j);
                }
            }
            j = j + 1;
        }
        r
    }

    fn in_edges(&self, i: usize) -> (r: Vec<usize>) {
        let mut r: Vec<usize> = Vec::new();
        let mut j: usize = 0;
        while j < self.n
            invariant
                self.well_formed(),
                i < self.n,
                j <= self.n,
                forall|k: usize| r@.contains(k) <==> k < j && self.has_edge_spec(k, i),
                forall|k: int| 0 <= k < r@.len() ==> r@[k] < j,
                forall|a: int, b: int| 0 <= a < b < r@.len() ==> r@[a] < r@[b],
            decreases self.n - j,
        {
            let ghost r0 = r@;
            if self.matrix[j][i] {
                r.push(j);
                proof {
                    lemma_push_contains(r0, j);
                }
            }
            j = j + 1;
        }
        r
    }
}

/// A directed graph on `0..n` kept as a list of targets per vertex.
pub struct AdjacencyList {
    n: usize,
    adj: Vec<Vec<usize>>,
}

impl AdjacencyList {
    pub closed spec fn size_spec(&self) -> nat {
        self.n as nat
    }

    /// The targets listed for `i`, in the order the edges were added.
    pub closed spec fn targets(&self, i: int) -> Seq<usize> {
        self.adj@[i]@
    }

    pub fn new(n: usize) -> (r: Self)
        ensures
            r.well_formed(),
            r.vertices() == n,
            forall|i: usize, j: usize| !r.has_edge_spec(i, j),
    {
        let mut adj: Vec<Vec<usize>> = Vec::new();
        let mut i: usize = 0;
        while i < n
            invariant
                i <= n,
                adj@.len() == i,
                forall|a: int| 0 <= a < i ==> (#[trigger] adj@[a])@.len() == 0,
            decreases n - i,
        {
            adj.push(Vec::new());
            i = i + 1;
        }
        AdjacencyList { n, adj }
    }

    /// Whether `j` is among the targets listed for `i`.
    fn lists(&self, i: usize, j: usize) -> (r: bool)
        requires
            self.well_formed(),
            i < self.n,
        ensures
            r == self.adj@[i as int]@.contains(j),
    {
        let row = &self.adj[i];
        let mut k: usize = 0;
        while k < row.len()
            invariant
                k <= row@.len(),
                row@ == self.adj@[i as int]@,
                forall|m: int| 0 <= m < k ==> row@[m] != j,
            decreases row@.len() - k,
        {
            if row[k] == j {
                assert(row@[k as int] == j);
                return true;
            }
            k = k + 1;
        }
        false
    }
}

impl Graph for AdjacencyList {
    open spec fn vertices(&self) -> nat {
        self.size_spec()
    }

    closed spec fn has_edge_spec(&self, i: usize, j: usize) -> bool {
        i < self.n && self.adj@[i as int]@.contains(j)
    }

    closed spec fn well_formed(&self) -> bool {
        &&& self.adj@.len() == self.n
        &&& forall|a: int, k: int|
            0 <= a < self.n && 0 <= k < self.adj@[a]@.len() ==> #[trigger] self.adj@[a]@[k] < self.n
    }

    fn add_edge(&mut self, i: usize, j: usize) {
        let mut row = self.adj.remove(i);
        row.push(j);
        self.adj.insert(i, row);
        assert forall|a: usize, b: usize|
            #[trigger] self.has_edge_spec(a, b) == (old(self).has_edge_spec(a, b) || (a == i && b
                == j)) by {
            if a < self.n && a != i {
                assert(self.adj@[a as int] == old(self).adj@[a as int]);
            }
            if a == i {
                assert(self.adj@[a as int]@ == old(self).adj@[a as int]@.push(j));
                if old(self).adj@[a as int]@.contains(b) {
                    let k = choose|k: int| 0 <= k < old(self).adj@[a as int]@.len() && old(self).adj@[a as int]@[k] == b;
                    assert(self.adj@[a as int]@[k] == b);
                }
                if b == j {
                    assert(self.adj@[a as int]@[self.adj@[a as int]@.len() - 1] == j);
                }
            }
        }
        assert forall|a: int, k: int|
            0 <= a < self.n && 0 <= k < self.adj@[a]@.len() implies #[trigger] self.adj@[a]@[k] < self.n by {
            if a != i {
                assert(self.adj@[a] == old(self).adj@[a]);
            } else if k < old(self).adj@[a]@.len() {
                assert(self.adj@[a]@[k] == old(self).adj@[a]@[k]);
            }
        }
    }

    /// Drops the first listed edge from `i` to `j`, if any.
    fn remove_edge(&mut self, i: usize, j: usize) {
        let mut row = self.adj.remove(i);
        let mut k: usize = 0;
        let ghost before = row@;
        while k < row.len() && row[k] != j
            invariant
                k <= row@.len(),
                row@ == before,
                forall|m: int| 0 <= m < k ==> row@[m] != j,
            decreases row@.len() - k,
        {
            k = k + 1;
        }
        if k < row.len() {
            row.remove(k);
        }
        self.adj.insert(i, row);
        assert forall|a: usize, b: usize|
            (a != i || b != j) implies #[trigger] self.has_edge_spec(a, b) == old(self).has_edge_spec(
                a,
                b,
            ) by {
            if a < self.n && a != i {
                assert(self.adj@[a as int] == old(self).adj@[a as int]);
            }
            if a == i && b != j {
                let now = self.adj@[a as int]@;
                if before.contains(b) {
                    let m = choose|m: int| 0 <= m < before.len() && before[m] == b;
                    if k < before.len() {
                        if m < k {
                            assert(now[m] == b);
                        } else {
                            assert(m != k);
                            assert(now[m - 1] == b);
                        }
                    } else {
                        assert(now[m] == b);
                    }
                }
                if now.contains(b) {
                    let m = choose|m: int| 0 <= m < now.len() && now[m] == b;
                    if k < before.len() && m >= k {
                        assert(before[m + 1] == b);
                    } else {
                        assert(before[m] == b);
                    }
                }
            }
        }
        assert forall|a: int, m: int|
            0 <= a < self.n && 0 <= m < self.adj@[a]@.len() implies #[trigger] self.adj@[a]@[m] < self.n by {
            if a != i {
                assert(self.adj@[a] == old(self).adj@[a]);
            } else if k < before.len() && m >= k {
                assert(self.adj@[a]@[m] == old(self).adj@[a]@[m + 1]);
            } else {
                assert(self.adj@[a]@[m] == old(self).adj@[a]@[m]);
            }
        }
    }

    fn has_edge(&self, i: usize, j: usize) -> (r: bool) {
        self.lists(i, j)
    }

    fn out_edges(&self, i: usize) -> (r: Vec<usize>) {
        let row = &self.adj[i];
        let mut r: Vec<usize> = Vec::new();
        let mut k: usize = 0;
        while k < row.len()
            invariant
                self.well_formed(),
                i < self.n,
                row@ == self.adj@[i as int]@,
                k <= row@.len(),
                r@ == row@.subrange(0, k as int),
            decreases row@.len() - k,
        {
            r.push(row[k]);
            k = k + 1;
            assert(r@ =~= row@.subrange(0, k as int));
        }
        assert(r@ =~= row@);
        assert forall|j: usize| r@.contains(j) implies j < self.n by {
            let m = choose|m: int| 0 <= m < r@.len() && r@[m] == j;
            assert(self.adj@[i as int]@[m] < self.n);
        }
        r
    }

    fn in_edges(&self, i: usize) -> (r: Vec<usize>) {
        let mut r: Vec<usize> = Vec::new();
        let mut j: usize = 0;
        while j < self.n
            invariant
                self.well_formed(),
                i < self.n,
                j <= self.n,
                forall|k: usize| r@.contains(k) <==> k < j && self.has_edge_spec(k, i),
                forall|k: int| 0 <= k < r@.len() ==> r@[k] < j,
                forall|a: int, b: int| 0 <= a < b < r@.len() ==> r@[a] < r@[b],
            decreases self.n - j,
        {
            let ghost r0 = r@;
            if self.lists(j, i) {
                r.push(j);
                proof {
                    lemma_push_contains(r0, j);
                }
            }
            j = j + 1;
        }
        r
    }
}

impl AdjacencyList {
    /// `p` is a walk along edges.
    pub open spec fn is_walk(&self, p: Seq<usize>) -> bool {
        &&& p.len() >= 1
        &&& forall|k: int| 0 <= k < p.len() - 1 ==> #[trigger] self.has_edge_spec(p[k], p[k + 1])
    }

    /// Some walk leads from `a` to `b`.
    pub open spec fn reachable(&self, a: usize, b: usize) -> bool {
        exists|p: Seq<usize>| #[trigger] self.is_walk(p) && p[0] == a && p.last() == b
    }

    /// Every walk from inside a set that is closed under edges stays inside.
    proof fn lemma_walk_stays(&self, p: Seq<usize>, inside: spec_fn(usize) -> bool)
        requires
            self.is_walk(p),
            inside(p[0]),
            forall|x: usize, y: usize| inside(x) && #[trigger] self.has_edge_spec(x, y) ==> inside(y),
        ensures
            inside(p.last()),
        decreases p.len(),
    {
        if p.len() > 1 {
            let q = p.drop_last();
            assert forall|k: int| 0 <= k < q.len() - 1 implies #[trigger] self.has_edge_spec(q[k], q[k + 1]) by {
                assert(self.has_edge_spec(p[k], p[k + 1]));
            }
            self.lemma_walk_stays(q, inside);
            let last = p.len() - 2;
            assert(self.has_edge_spec(p[last], p[last + 1]));
        }
    }

    /// The vertices that a stack-driven depth-first search from `i` meets,
    /// in the order they are met; `i` itself only if an edge leads back to it.
    pub fn dfs2(&self, i: usize) -> (r: Vec<usize>)
        requires
            self.well_formed(),
            i < self.vertices(),
        ensures
            r@.no_duplicates(),
            forall|p: int| 0 <= p < r@.len() ==> r@[p] < self.vertices(),
            forall|p: int|
                0 <= p < r@.len() ==> self.has_edge_spec(i, #[trigger] r@[p]) || exists|q: int|
                    0 <= q < p && self.has_edge_spec(r@[q], r@[p]),
            forall|j: usize| self.has_edge_spec(i, j) ==> r@.contains(j),
            forall|p: int, j: usize|
                0 <= p < r@.len() && #[trigger] self.has_edge_spec(r@[p], j) ==> r@.contains(j),
    {
        let n = self.n;
        let mut v: Vec<usize> = Vec::new();
        let mut stack: Vec<usize> = Vec::new();
        stack.push(i);
        let mut colored = all_down(n);
        assert(stack@[0] == i);
        while stack.len() > 0
            invariant
                self.well_formed(),
                n == self.n,
                i < n,
                colored@.len() == n,
                forall|x: usize| x < n ==> (colored@[x as int] <==> v@.contains(x)),
                v@.no_duplicates(),
                forall|p: int| 0 <= p < v@.len() ==> v@[p] < n,
                forall|t: int| 0 <= t < stack@.len() ==> #[trigger] stack@[t] < n && (stack@[t] == i || colored@[stack@[t] as int]),
                forall|p: int|
                    0 <= p < v@.len() ==> self.has_edge_spec(i, #[trigger] v@[p]) || exists|q: int|
                        0 <= q < p && self.has_edge_spec(v@[q], v@[p]),
                forall|x: usize, j: usize|
                    x < n && (x == i || colored@[x as int]) && !stack@.contains(x)
                        && #[trigger] self.has_edge_spec(x, j) ==> colored@[j as int],
            decreases count_false(colored@) + stack@.len(),
        {
            let ghost full = stack@;
            let k = stack.pop().unwrap();
            let ghost stack0 = stack@;
            proof {
                assert(full =~= stack0.push(k));
                assert forall|x: usize| !stack0.contains(x) && x != k implies !full.contains(x) by {
                    if full.contains(x) {
                        let t = choose|t: int| 0 <= t < full.len() && full[t] == x;
                        assert(stack0[t] == x);
                    }
                }
            }
            let ghost count0 = count_false(colored@);
            let row = &self.adj[k];
            let mut idx: usize = 0;
            while idx < row.len()
                invariant
                    self.well_formed(),
                    n == self.n,
                    i < n,
                    k < n,
                    k == i || colored@[k as int],
                    row@ == self.adj@[k as int]@,
                    idx <= row@.len(),
                    colored@.len() == n,
                    forall|x: usize| x < n ==> (colored@[x as int] <==> v@.contains(x)),
                    v@.no_duplicates(),
                    forall|p: int| 0 <= p < v@.len() ==> v@[p] < n,
                    forall|t: int| 0 <= t < stack@.len() ==> #[trigger] stack@[t] < n && (stack@[t] == i || colored@[stack@[t] as int]),
                    stack@.len() >= stack0.len(),
                    stack@.subrange(0, stack0.len() as int) == stack0,
                    count_false(colored@) + stack@.len() == count0 + stack0.len(),
                    forall|p: int|
                        0 <= p < v@.len() ==> self.has_edge_spec(i, #[trigger] v@[p]) || exists|q: int|
                            0 <= q < p && self.has_edge_spec(v@[q], v@[p]),
                    forall|x: usize, j: usize|
                        x < n && (x == i || colored@[x as int]) && !stack@.contains(x) && x != k
                            && #[trigger] self.has_edge_spec(x, j) ==> colored@[j as int],
                    forall|m: int| 0 <= m < idx ==> colored@[#[trigger] row@[m] as int],
                decreases row@.len() - idx,
            {
                let j = row[idx];
                proof {
                    assert(self.adj@[k as int]@[idx as int] < n);
                }
                if !colored[j] {
                    let ghost kp: int = if k == i {
                        -1
                    } else {
                        choose|q: int| 0 <= q < v@.len() && v@[q] == k
                    };
                    proof {
                        lemma_raise_flag(colored@, j as int);
                        assert(self.adj@[k as int]@.contains(j)) by {
                            assert(self.adj@[k as int]@[idx as int] == j);
                        }
                    }
                    let ghost v0 = v@;
                    let ghost c0 = colored@;
                    let ghost s0 = stack@;
                    colored.set(j, true);
                    v.push(j);
                    stack.push(j);
                    proof {
                        assert forall|x: usize| !stack@.contains(x) implies !s0.contains(x) && x != j by {
                            if s0.contains(x) {
                                let t = choose|t: int| 0 <= t < s0.len() && s0[t] == x;
                                assert(stack@[t] == x);
                            }
                            assert(stack@[s0.len() as int] == j);
                        }
                        assert forall|x: usize, jj: usize|
                            x < n && (x == i || colored@[x as int]) && !stack@.contains(x) && x != k
                                && #[trigger] self.has_edge_spec(x, jj) implies colored@[jj as int] by {
                            if s0.contains(x) {
                                let t = choose|t: int| 0 <= t < s0.len() && s0[t] == x;
                                assert(stack@[t] == x);
                            }
                            assert(stack@[s0.len() as int] == j);
                            assert(x == i || c0[x as int]);
                            assert(c0[jj as int]);
                        }
                        lemma_push_contains(v0, j);
                        assert(stack@.subrange(0, stack0.len() as int) =~= stack0);
                        assert forall|p: int| 0 <= p < v@.len() implies self.has_edge_spec(i, #[trigger] v@[p])
                            || exists|q: int| 0 <= q < p && self.has_edge_spec(v@[q], v@[p]) by {
                            if p == v@.len() - 1 && k != i {
                                assert(v@[kp] == k);
                            }
                            if p < v@.len() - 1 {
                                assert(v@[p] == v0[p]);
                                if !self.has_edge_spec(i, v0[p]) {
                                    let q = choose|q: int| 0 <= q < p && self.has_edge_spec(v0[q], v0[p]);
                                    assert(v@[q] == v0[q]);
                                }
                            }
                        }
                        assert(v@.no_duplicates()) by {
                            assert forall|a: int, b: int| 0 <= a < b < v@.len() implies v@[a] != v@[b] by {
                                if b == v@.len() - 1 {
                                    assert(v0.contains(v@[a]));
                                }
                            }
                        }
                    }
                }
                idx = idx + 1;
            }
            proof {
                assert forall|x: usize, j: usize|
                    x < n && (x == i || colored@[x as int]) && !stack@.contains(x)
                        && #[trigger] self.has_edge_spec(x, j) implies colored@[j as int] by {
                    if x == k {
                        let m = choose|m: int| 0 <= m < row@.len() && row@[m] == j;
                    }
                }
            }
        }
        proof {
            assert forall|j: usize| self.has_edge_spec(i, j) implies v@.contains(j) by {
                assert(!stack@.contains(i));
            }
            assert forall|p: int, j: usize|
                0 <= p < v@.len() && #[trigger] self.has_edge_spec(v@[p], j) implies v@.contains(j) by {
                assert(v@.contains(v@[p]));
                assert(!stack@.contains(v@[p]));
            }
        }
        v
    }

    /// Whether some walk leads from `start` to `target`.
    pub fn can_reach(&self, start: usize, target: usize) -> (r: bool)
        requires
            self.well_formed(),
            start < self.vertices(),
        ensures
            r == self.reachable(start, target),
    {
        if start == target {
            proof {
                let p = seq![start];
                assert(self.is_walk(p));
            }
            return true;
        }
        let n = self.n;
        let mut stack: Vec<usize> = Vec::new();
        stack.push(start);
        let mut seen = all_down(n);
        let ghost mut walks: Map<usize, Seq<usize>> = Map::empty();
        assert(stack@[0] == start);
        while stack.len() > 0
            invariant
                self.well_formed(),
                n == self.n,
                start < n,
                start != target,
                seen@.len() == n,
                target < n ==> !seen@[target as int],
                forall|x: usize| x < n && #[trigger] seen@[x as int] ==> {
                    &&& walks.contains_key(x)
                    &&& self.is_walk(walks[x])
                    &&& walks[x][0] == start
                    &&& walks[x].last() == x
                },
                forall|t: int| 0 <= t < stack@.len() ==> #[trigger] stack@[t] < n && (stack@[t] == start || seen@[stack@[t] as int]),
                forall|x: usize, y: usize|
                    x < n && (x == start || seen@[x as int]) && !stack@.contains(x)
                        && #[trigger] self.has_edge_spec(x, y) ==> seen@[y as int],
            decreases count_false(seen@) + stack@.len(),
        {
            let ghost full = stack@;
            let k = stack.pop().unwrap();
            let ghost stack0 = stack@;
            let ghost count0 = count_false(seen@);
            let ghost walk_k: Seq<usize> = if seen@[k as int] {
                walks[k]
            } else {
                seq![start]
            };
            proof {
                assert(full =~= stack0.push(k));
                assert forall|x: usize| !stack0.contains(x) && x != k implies !full.contains(x) by {
                    if full.contains(x) {
                        let t = choose|t: int| 0 <= t < full.len() && full[t] == x;
                        assert(stack0[t] == x);
                    }
                }
                if !seen@[k as int] {
                    assert(self.is_walk(walk_k));
                }
            }
            let row = &self.adj[k];
            let mut idx: usize = 0;
            while idx < row.len()
                invariant
                    self.well_formed(),
                    n == self.n,
                    start < n,
                    start != target,
                    k < n,
                    k == start || seen@[k as int],
                    self.is_walk(walk_k),
                    walk_k[0] == start,
                    walk_k.last() == k,
                    row@ == self.adj@[k as int]@,
                    idx <= row@.len(),
                    seen@.len() == n,
                    target < n ==> !seen@[target as int],
                    forall|x: usize| x < n && #[trigger] seen@[x as int] ==> {
                        &&& walks.contains_key(x)
                        &&& self.is_walk(walks[x])
                        &&& walks[x][0] == start
                        &&& walks[x].last() == x
                    },
                    forall|t: int| 0 <= t < stack@.len() ==> #[trigger] stack@[t] < n && (stack@[t] == start || seen@[stack@[t] as int]),
                    count_false(seen@) + stack@.len() == count0 + stack0.len(),
                    forall|x: usize, y: usize|
                        x < n && (x == start || seen@[x as int]) && !stack@.contains(x) && x != k
                            && #[trigger] self.has_edge_spec(x, y) ==> seen@[y as int],
                    forall|m: int| 0 <= m < idx ==> seen@[#[trigger] row@[m] as int],
                decreases row@.len() - idx,
            {
                let j = row[idx];
                proof {
                    assert(self.adj@[k as int]@[idx as int] < n);
                    assert(self.adj@[k as int]@.contains(j)) by {
                        assert(self.adj@[k as int]@[idx as int] == j);
                    }
                }
                let ghost walk_j = walk_k.push(j);
                proof {
                    assert forall|m: int| 0 <= m < walk_j.len() - 1 implies #[trigger] self.has_edge_spec(
                        walk_j[m],
                        walk_j[m + 1],
                    ) by {
                        if m < walk_k.len() - 1 {
                            assert(self.has_edge_spec(walk_k[m], walk_k[m + 1]));
                        }
                    }
                }
                if j == target {
                    proof {
                        assert(self.is_walk(walk_j));
                    }
                    return true;
                }
                if !seen[j] {
                    proof {
                        lemma_raise_flag(seen@, j as int);
                    }
                    let ghost c0 = seen@;
                    let ghost s0 = stack@;
                    seen.set(j, true);
                    stack.push(j);
                    proof {
                        let w0 = walks;
                        walks = walks.insert(j, walk_j);
                        assert(self.is_walk(walk_j));
                        assert forall|x: usize| x < n && #[trigger] seen@[x as int] implies {
                            &&& walks.contains_key(x)
                            &&& self.is_walk(walks[x])
                            &&& walks[x][0] == start
                            &&& walks[x].last() == x
                        } by {
                            if x != j {
                                assert(c0[x as int]);
                                assert(walks[x] == w0[x]);
                            }
                        }
                        assert forall|x: usize, jj: usize|
                            x < n && (x == start || seen@[x as int]) && !stack@.contains(x) && x != k
                                && #[trigger] self.has_edge_spec(x, jj) implies seen@[jj as int] by {
                            if s0.contains(x) {
                                let t = choose|t: int| 0 <= t < s0.len() && s0[t] == x;
                                assert(stack@[t] == x);
                            }
                            assert(stack@[s0.len() as int] == j);
                            assert(x == start || c0[x as int]);
                            assert(c0[jj as int]);
                        }
                    }
                }
                idx = idx + 1;
            }
            proof {
                assert forall|x: usize, y: usize|
                    x < n && (x == start || seen@[x as int]) && !stack@.contains(x)
                        && #[trigger] self.has_edge_spec(x, y) implies seen@[y as int] by {
                    if x == k {
                        let m = choose|m: int| 0 <= m < row@.len() && row@[m] == y;
                    }
                }
            }
        }
        proof {
            if self.reachable(start, target) {
                let p = choose|p: Seq<usize>| #[trigger] self.is_walk(p) && p[0] == start && p.last() == target;
                let inside = |x: usize| x == start || (x < n && seen@[x as int]);
                assert forall|x: usize, y: usize| inside(x) && #[trigger] self.has_edge_spec(x, y) implies inside(y) by {
                    assert(!stack@.contains(x));
                }
                self.lemma_walk_stays(p, inside);
            }
        }
        false
    }

    /// The search state of a depth-first search from `root`: `colors` marks
    /// exactly the vertices of `buffer`, which holds each at most once, and
    /// each vertex of `buffer` has an edge into it from `root` or from an
    /// earlier one.
    pub open spec fn search_state(&self, root: usize, colors: Seq<bool>, buffer: Seq<usize>) -> bool {
        &&& colors.len() == self.vertices()
        &&& forall|x: usize| x < self.vertices() ==> (colors[x as int] <==> buffer.contains(x))
        &&& buffer.no_duplicates()
        &&& forall|p: int| 0 <= p < buffer.len() ==> buffer[p] < self.vertices()
        &&& forall|p: int|
            0 <= p < buffer.len() ==> self.has_edge_spec(root, #[trigger] buffer[p]) || exists|q: int|
                0 <= q < p && self.has_edge_spec(buffer[q], buffer[p])
    }

    fn private_dfs(&self, k: usize, colors: &mut Vec<bool>, buffer: &mut Vec<usize>, root: Ghost<usize>)
        requires
            self.well_formed(),
            k < self.vertices(),
            root@ < self.vertices(),
            k == root@ || old(colors)@[k as int],
            self.search_state(root@, old(colors)@, old(buffer)@),
        ensures
            self.search_state(root@, final(colors)@, final(buffer)@),
            forall|x: int| 0 <= x < self.vertices() && old(colors)@[x] ==> #[trigger] final(colors)@[x],
            count_false(final(colors)@) <= count_false(old(colors)@),
            forall|y: usize| #[trigger] self.has_edge_spec(k, y) ==> final(colors)@[y as int],
            forall|x: usize, y: usize|
                x < self.vertices() && final(colors)@[x as int] && !old(colors)@[x as int]
                    && #[trigger] self.has_edge_spec(x, y) ==> final(colors)@[y as int],
        decreases count_false(old(colors)@),
    {
        let n = self.n;
        let row = &self.adj[k];
        let ghost c_in = colors@;
        let mut idx: usize = 0;
        while idx < row.len()
            invariant
                self.well_formed(),
                n == self.n,
                k < n,
                root@ < n,
                k == root@ || colors@[k as int],
                row@ == self.adj@[k as int]@,
                idx <= row@.len(),
                c_in == old(colors)@,
                self.search_state(root@, colors@, buffer@),
                forall|x: int| 0 <= x < n && c_in[x] ==> #[trigger] colors@[x],
                count_false(colors@) <= count_false(c_in),
                forall|m: int| 0 <= m < idx ==> colors@[#[trigger] row@[m] as int],
                forall|x: usize, y: usize|
                    x < n && colors@[x as int] && !c_in[x as int] && #[trigger] self.has_edge_spec(x, y)
                        ==> colors@[y as int],
            decreases row@.len() - idx,
        {
            let j = row[idx];
            proof {
                assert(self.adj@[k as int]@[idx as int] < n);
                assert(self.adj@[k as int]@.contains(j)) by {
                    assert(self.adj@[k as int]@[idx as int] == j);
                }
            }
            if !colors[j] {
                let ghost kp: int = if k == root@ {
                    -1
                } else {
                    choose|q: int| 0 <= q < buffer@.len() && buffer@[q] == k
                };
                let ghost v0 = buffer@;
                let ghost c0 = colors@;
                proof {
                    lemma_raise_flag(colors@, j as int);
                }
                colors.set(j, true);
                buffer.push(j);
                proof {
                    lemma_push_contains(v0, j);
                    assert forall|p: int| 0 <= p < buffer@.len() implies self.has_edge_spec(
                        root@,
                        #[trigger] buffer@[p],
                    ) || exists|q: int| 0 <= q < p && self.has_edge_spec(buffer@[q], buffer@[p]) by {
                        if p == buffer@.len() - 1 && k != root@ {
                            assert(buffer@[kp] == k);
                        }
                        if p < buffer@.len() - 1 {
                            assert(buffer@[p] == v0[p]);
                            if !self.has_edge_spec(root@, v0[p]) {
                                let q = choose|q: int| 0 <= q < p && self.has_edge_spec(v0[q], v0[p]);
                                assert(buffer@[q] == v0[q]);
                            }
                        }
                    }
                    assert(buffer@.no_duplicates()) by {
                        assert forall|a: int, b: int| 0 <= a < b < buffer@.len() implies buffer@[a]
                            != buffer@[b] by {
                            if b == buffer@.len() - 1 {
                                assert(v0.contains(buffer@[a]));
                            }
                        }
                    }
                    assert(self.search_state(root@, colors@, buffer@));
                }
                let ghost c1 = colors@;
                self.private_dfs(j, colors, buffer, root);
                proof {
                    assert forall|x: usize, y: usize|
                        x < n && colors@[x as int] && !c_in[x as int] && #[trigger] self.has_edge_spec(x, y)
                            implies colors@[y as int] by {
                        if x == j {
                        } else if c1[x as int] {
                            assert(c0[x as int]);
                            assert(c0[y as int]);
                            assert(c1[y as int]);
                        }
                    }
                }
            }
            idx = idx + 1;
        }
        proof {
            assert forall|y: usize| #[trigger] self.has_edge_spec(k, y) implies colors@[y as int] by {
                let m = choose|m: int| 0 <= m < row@.len() && row@[m] == y;
            }
        }
    }

    /// The vertices that a recursive depth-first search from `i` meets, in
    /// the order they are met; `i` itself only if an edge leads back to it.
    pub fn dfs(&self, i: usize) -> (r: Vec<usize>)
        requires
            self.well_formed(),
            i < self.vertices(),
        ensures
            r@.no_duplicates(),
            forall|p: int| 0 <= p < r@.len() ==> r@[p] < self.vertices(),
            forall|p: int|
                0 <= p < r@.len() ==> self.has_edge_spec(i, #[trigger] r@[p]) || exists|q: int|
                    0 <= q < p && self.has_edge_spec(r@[q], r@[p]),
            forall|j: usize| self.has_edge_spec(i, j) ==> r@.contains(j),
            forall|p: int, j: usize|
                0 <= p < r@.len() && #[trigger] self.has_edge_spec(r@[p], j) ==> r@.contains(j),
    {
        let mut v: Vec<usize> = Vec::new();
        let mut colors = all_down(self.n);
        proof {
            assert forall|x: usize| x < self.n implies (colors@[x as int] <==> v@.contains(x)) by {}
        }
        self.private_dfs(i, &mut colors, &mut v, Ghost(i));
        proof {
            assert forall|p: int, j: usize|
                0 <= p < v@.len() && #[trigger] self.has_edge_spec(v@[p], j) implies v@.contains(j) by {
                assert(v@.contains(v@[p]));
            }
        }
        v
    }
}

} // verus!
