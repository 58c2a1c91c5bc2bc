use vstd::prelude::*;

verus! {

broadcast use vstd::set_lib::group_set_lib_default;

/// A node of an unbalanced binary search tree, owning its subtrees.
#[derive(Debug, PartialEq, Eq)]
pub struct WrapNode {
    pub value: i64,
    pub left: Option<Box<WrapNode>>,
    pub right: Option<Box<WrapNode>>,
}

/// The keys below a link.
pub open spec fn tkeys(link: Option<Box<WrapNode>>) -> Set<i64>
    decreases link,
{
    match link {
        Some(node) => tkeys(node.left).union(tkeys(node.right)).insert(node.value),
        None => Set::empty(),
    }
}

/// The number of nodes below a link.
pub open spec fn tcount(link: Option<Box<WrapNode>>) -> nat
    decreases link,
{
    match link {
        Some(node) => tcount(node.left) + tcount(node.right) + 1,
        None => 0,
    }
}

/// Keys left of a node are smaller than its key, keys right of it larger.
pub open spec fn tordered(link: Option<Box<WrapNode>>) -> bool
    decreases link,
{
    match link {
        Some(node) => {
            &&& tordered(node.left)
            &&& tordered(node.right)
            &&& forall|k: i64| tkeys(node.left).contains(k) ==> k < node.value
            &&& forall|k: i64| tkeys(node.right).contains(k) ==> k > node.value
        },
        None => true,
    }
}

/// The depth of `x` below a link, if it is there.
pub open spec fn tdepth(link: Option<Box<WrapNode>>, x: i64) -> Option<nat>
    decreases link,
{
    match link {
        Some(node) => if x == node.value {
            Some(0)
        } else {
            let d = if x < node.value {
                tdepth(node.left, x)
            } else {
                tdepth(node.right, x)
            };
            match d {
                Some(d) => Some(d + 1),
                None => None,
            }
        },
        None => None,
    }
}

/// The node where a search for `x` from `n` stops: the node holding `x`, or
/// the last node on the way.
pub open spec fn last_on_path(n: WrapNode, x: i64) -> WrapNode
    decreases n,
{
    if x == n.value {
        n
    } else {
        let below = if x < n.value {
            n.left
        } else {
            n.right
        };
        match below {
            Some(c) => last_on_path(*c, x),
            None => n,
        }
    }
}

/// The node whose child holds `x`, searching from `n`; `None` when `n` holds
/// `x` itself or `x` is not there.
pub open spec fn parent_on_path(n: WrapNode, x: i64) -> Option<WrapNode>
    decreases n,
{
    if x == n.value {
        None
    } else {
        let below = if x < n.value {
            n.left
        } else {
            n.right
        };
        match below {
            Some(c) => if c.value == x {
                Some(n)
            } else {
                parent_on_path(*c, x)
            },
            None => None,
        }
    }
}

/// The keys of a subtree are finitely many, and in a search tree there are
/// as many as nodes.
pub proof fn lemma_keys_finite(link: Option<Box<WrapNode>>)
    ensures
        tkeys(link).finite(),
        tordered(link) ==> tkeys(link).len() == tcount(link),
    decreases link,
{
    if let Some(node) = link {
        lemma_keys_finite(node.left);
        lemma_keys_finite(node.right);
        if tordered(link) {
            let l = tkeys(node.left);
            let r = tkeys(node.right);
            assert(l.disjoint(r)) by {
                assert forall|k: i64| l.contains(k) implies !r.contains(k) by {}
            }
            vstd::set_lib::lemma_set_disjoint_lens(l, r);
            assert(!l.union(r).contains(node.value));
        }
    }
}

proof fn lemma_depth_found(link: Option<Box<WrapNode>>, x: i64)
    requires
        tordered(link),
    ensures
        tdepth(link, x) is Some <==> tkeys(link).contains(x),
    decreases link,
{
    if let Some(node) = link {
        lemma_depth_found(node.left, x);
        lemma_depth_found(node.right, x);
    }
}

/// Whether `x` is below `link`.
fn find_below(link: &Option<Box<WrapNode>>, x: i64) -> (r: bool)
    requires
        tordered(*link),
    ensures
        r == tkeys(*link).contains(x),
    decreases *link,
{
    match link {
        None => {
            assert(tkeys(*link) =~= Set::<i64>::empty());
            false
        },
        Some(node) => {
            assert(tkeys(*link) == tkeys(node.left).union(tkeys(node.right)).insert(node.value));
            if node.value > x {
                find_below(&node.left, x)
            } else if node.value < x {
                find_below(&node.right, x)
            } else {
                true
            }
        },
    }
}

/// Adds `x` below `link` unless it is there; says whether it was added.
fn add_below(link: &mut Option<Box<WrapNode>>, x: i64) -> (r: bool)
    requires
        tordered(*old(link)),
    ensures
        tordered(*final(link)),
        r == !tkeys(*old(link)).contains(x),
        tkeys(*final(link)) == tkeys(*old(link)).insert(x),
        tcount(*final(link)) == tcount(*old(link)) + if r { 1nat } else { 0nat },
    decreases *old(link),
{
    match link.take() {
        None => {
            *link = Some(Box::new(WrapNode::new(x)));
            assert(tkeys(*link) =~= tkeys(*old(link)).insert(x));
            true
        },
        Some(mut node) => {
            let r = if node.value > x {
                let r = add_below(&mut node.left, x);
                assert(!tkeys(node.right).contains(x));
                r
            } else if node.value < x {
                let r = add_below(&mut node.right, x);
                assert(!tkeys(node.left).contains(x));
                r
            } else {
                false
            };
            *link = Some(node);
            assert(tkeys(*link) =~= tkeys(*old(link)).insert(x));
            r
        },
    }
}

/// Takes the smallest key out of a nonempty subtree and returns it.
fn take_min(link: &mut Option<Box<WrapNode>>) -> (r: i64)
    requires
        old(link).is_some(),
        tordered(*old(link)),
    ensures
        tordered(*final(link)),
        tkeys(*old(link)).contains(r),
        forall|k: i64| tkeys(*old(link)).contains(k) ==> r <= k,
        tkeys(*final(link)) == tkeys(*old(link)).remove(r),
        tcount(*final(link)) + 1 == tcount(*old(link)),
    decreases *old(link),
{
    let mut node = link.take().unwrap();
    if node.left.is_none() {
        let r = node.value;
        assert(tcount(node.left) == 0);
        *link = node.right;
        assert(tkeys(node.left) =~= Set::<i64>::empty());
        assert(tkeys(*link) =~= tkeys(*old(link)).remove(r));
        r
    } else {
        let ghost left0 = node.left;
        let r = take_min(&mut node.left);
        assert(tkeys(left0).contains(r));
        assert(r < node.value);
        assert(!tkeys(node.right).contains(r));
        assert forall|k: i64| tkeys(*old(link)).contains(k) implies r <= k by {
            if tkeys(node.right).contains(k) {
                assert(k > node.value);
            }
        }
        *link = Some(node);
        assert(tkeys(*link) =~= tkeys(*old(link)).remove(r));
        r
    }
}

/// Removes `x` from below `link`; returns it if it was there.
fn remove_below(link: &mut Option<Box<WrapNode>>, x: i64) -> (r: Option<i64>)
    requires
        tordered(*old(link)),
    ensures
        tordered(*final(link)),
        r == if tkeys(*old(link)).contains(x) {
            Some(x)
        } else {
            None::<i64>
        },
        tkeys(*final(link)) == tkeys(*old(link)).remove(x),
        tcount(*final(link)) + (if r is Some { 1nat } else { 0nat }) == tcount(*old(link)),
    decreases *old(link),
{
    match link.take() {
        None => {
            assert(tkeys(*old(link)) =~= Set::<i64>::empty());
            assert(tkeys(*link) =~= tkeys(*old(link)).remove(x));
            None
        },
        Some(mut node) => {
            if node.value > x {
                let r = remove_below(&mut node.left, x);
                assert(!tkeys(node.right).contains(x));
                *link = Some(node);
                assert(tkeys(*link) =~= tkeys(*old(link)).remove(x));
                r
            } else if node.value < x {
                let r = remove_below(&mut node.right, x);
                assert(!tkeys(node.left).contains(x));
                *link = Some(node);
                assert(tkeys(*link) =~= tkeys(*old(link)).remove(x));
                r
            } else {
                assert(!tkeys(node.left).contains(x));
                assert(!tkeys(node.right).contains(x));
                if node.right.is_none() {
                    *link = node.left;
                    assert(tkeys(*link) =~= tkeys(*old(link)).remove(x));
                } else {
                    let m = take_min(&mut node.right);
                    node.value = m;
                    assert(forall|k: i64| tkeys(node.left).contains(k) ==> k < m);
                    *link = Some(node);
                    assert(tkeys(*link) =~= tkeys(*old(link)).remove(x));
                }
                Some(x)
            }
        },
    }
}

impl WrapNode {
    /// The keys of the subtree rooted here.
    pub open spec fn keys(&self) -> Set<i64> {
        tkeys(self.left).union(tkeys(self.right)).insert(self.value)
    }

    /// The subtree rooted here is a search tree.
    pub open spec fn ordered(&self) -> bool {
        &&& tordered(self.left)
        &&& tordered(self.right)
        &&& forall|k: i64| tkeys(self.left).contains(k) ==> k < self.value
        &&& forall|k: i64| tkeys(self.right).contains(k) ==> k > self.value
    }

    pub fn new(value: i64) -> (r: Self)
        ensures
            r.value == value,
            r.left.is_none(),
            r.right.is_none(),
    {
        WrapNode { value, left: None, right: None }
    }

    pub fn value(&self) -> (r: i64)
        ensures
            r == self.value,
    {
        self.value
    }

    /// Replaces the key held here; the subtrees stay.
    pub fn change_value(&mut self, value: i64)
        ensures
            final(self).value == value,
            final(self).left == old(self).left,
            final(self).right == old(self).right,
    {
        self.value = value;
    }

    /// A copy of the whole subtree.
    pub fn clone(&self) -> (r: Self)
        ensures
            r == *self,
        decreases self,
    {
        let left = match &self.left {
            Some(node) => Some(Box::new(WrapNode::clone(&**node))),
            None => None,
        };
        let right = match &self.right {
            Some(node) => Some(Box::new(WrapNode::clone(&**node))),
            None => None,
        };
        WrapNode { value: self.value, left, right }
    }

    pub fn has_child(&self) -> (r: bool)
        ensures
            r == (self.left.is_some() || self.right.is_some()),
    {
        self.left.is_some() || self.right.is_some()
    }

    /// A copy of the left subtree.
    pub fn left(&self) -> (r: Option<WrapNode>)
        ensures
            r == match self.left {
                Some(node) => Some(*node),
                None => None::<WrapNode>,
            },
    {
        match &self.left {
            Some(node) => Some(WrapNode::clone(&**node)),
            None => None,
        }
    }

    /// A copy of the right subtree.
    pub fn right(&self) -> (r: Option<WrapNode>)
        ensures
            r == match self.right {
                Some(node) => Some(*node),
                None => None::<WrapNode>,
            },
    {
        match &self.right {
            Some(node) => Some(WrapNode::clone(&**node)),
            None => None,
        }
    }

    pub fn set_left(&mut self, child: Option<WrapNode>)
        ensures
            final(self).value == old(self).value,
            final(self).right == old(self).right,
            final(self).left == match child {
                Some(node) => Some(Box::new(node)),
                None => None::<Box<WrapNode>>,
            },
    {
        self.left = match child {
            Some(node) => Some(Box::new(node)),
            None => None,
        };
    }

    pub fn set_right(&mut self, child: Option<WrapNode>)
        ensures
            final(self).value == old(self).value,
            final(self).left == old(self).left,
            final(self).right == match child {
                Some(node) => Some(Box::new(node)),
                None => None::<Box<WrapNode>>,
            },
    {
        self.right = match child {
            Some(node) => Some(Box::new(node)),
            None => None,
        };
    }

    /// Hangs `child` on the side its key belongs to, replacing what hung
    /// there; `false`, with nothing changed, when the keys are equal.
    pub fn add_child(&mut self, child: WrapNode) -> (r: bool)
        ensures
            r == (child.value != old(self).value),
            child.value < old(self).value ==> *final(self) == (WrapNode {
                left: Some(Box::new(child)),
                ..*old(self)
            }),
            child.value > old(self).value ==> *final(self) == (WrapNode {
                right: Some(Box::new(child)),
                ..*old(self)
            }),
            child.value == old(self).value ==> *final(self) == *old(self),
    {
        if self.value > child.value {
            self.left = Some(Box::new(child));
        } else if self.value < child.value {
            self.right = Some(Box::new(child));
        } else {
            return false;
        }
        true
    }

    /// The number of nodes of the subtree.
    pub fn size(&self) -> (r: usize)
        requires
            tcount(Some(Box::new(*self))) <= usize::MAX,
        ensures
            r == tcount(Some(Box::new(*self))),
        decreases self,
    {
        let l = match &self.left {
            Some(node) => node.size(),
            None => 0,
        };
        let r = match &self.right {
            Some(node) => node.size(),
            None => 0,
        };
        assert(tcount(Some(Box::new(*self))) == tcount(self.left) + tcount(self.right) + 1);
        1 + l + r
    }

    pub fn find(&self, value: i64) -> (r: bool)
        requires
            self.ordered(),
        ensures
            r == self.keys().contains(value),
    {
        if self.value > value {
            find_below(&self.left, value)
        } else if self.value < value {
            find_below(&self.right, value)
        } else {
            true
        }
    }

    /// The depth of `value` below this node, if it is there.
    pub fn depth(&self, value: i64) -> (r: Option<usize>)
        requires
            self.ordered(),
            tcount(Some(Box::new(*self))) <= usize::MAX,
        ensures
            r matches Some(d) ==> tdepth(Some(Box::new(*self)), value) == Some(d as nat),
            r is None ==> tdepth(Some(Box::new(*self)), value) is None,
            r is Some <==> self.keys().contains(value),
        decreases self,
    {
        proof {
            lemma_depth_found(Some(Box::new(*self)), value);
        }
        if self.value == value {
            return Some(0);
        }
        let below = if self.value > value { &self.left } else { &self.right };
        assert(tdepth(Some(Box::new(*self)), value) == match tdepth(*below, value) {
            Some(d) => Some(d + 1),
            None => None::<nat>,
        });
        match below {
            Some(node) => match node.depth(value) {
                Some(d) => {
                    proof {
                        lemma_depth_bound(Some(Box::new(**node)), value);
                    }
                    Some(d + 1)
                },
                None => None,
            },
            None => None,
        }
    }

    /// Adds `value` below this node unless it is there.
    pub fn add(&mut self, value: i64) -> (r: bool)
        requires
            old(self).ordered(),
        ensures
            final(self).ordered(),
            r == !old(self).keys().contains(value),
            final(self).keys() == old(self).keys().insert(value),
    {
        if self.value > value {
            let r = add_below(&mut self.left, value);
            assert(!tkeys(self.right).contains(value));
            assert(self.keys() =~= old(self).keys().insert(value));
            r
        } else if self.value < value {
            let r = add_below(&mut self.right, value);
            assert(!tkeys(self.left).contains(value));
            assert(self.keys() =~= old(self).keys().insert(value));
            r
        } else {
            assert(self.keys() =~= old(self).keys().insert(value));
            false
        }
    }

    /// The node where a search for `value` stops.
    pub fn find_last(&self, value: i64) -> (r: &WrapNode)
        ensures
            *r == last_on_path(*self, value),
        decreases self,
    {
        if self.value == value {
            return self;
        }
        let below = if self.value > value { &self.left } else { &self.right };
        match below {
            Some(c) => c.find_last(value),
            None => self,
        }
    }

    /// The node whose child holds `value`, if any.
    pub fn find_parent(&self, value: i64) -> (r: Option<&WrapNode>)
        ensures
            r matches Some(p) ==> parent_on_path(*self, value) == Some(*p),
            r is None ==> parent_on_path(*self, value) is None,
        decreases self,
    {
        if self.value == value {
            return None;
        }
        let below = if self.value > value { &self.left } else { &self.right };
        match below {
            Some(c) => {
                if c.value == value {
                    Some(self)
                } else {
                    c.find_parent(value)
                }
            },
            None => None,
        }
    }

    /// Turns the left child into the root of this subtree; the old root
    /// becomes its right child and takes over its right subtree as left one.
    pub fn rotation_right(&mut self)
        requires
            old(self).ordered(),
            old(self).left.is_some(),
        ensures
            final(self).ordered(),
            final(self).keys() == old(self).keys(),
            final(self).value == old(self).left.unwrap().value,
            final(self).left == old(self).left.unwrap().left,
            final(self).right == Some(
                Box::new(
                    (WrapNode {
                        value: old(self).value,
                        left: old(self).left.unwrap().right,
                        right: old(self).right,
                    }),
                ),
            ),
    {
        let mut l = *self.left.take().unwrap();
        let lr = l.right.take();
        let down = WrapNode { value: self.value, left: lr, right: self.right.take() };
        proof {
            let ol = old(self).left.unwrap();
            assert(tordered(old(self).left));
            assert forall|k: i64| tkeys(lr).contains(k) implies k < down.value && k > ol.value by {
                assert(tkeys(old(self).left).contains(k));
            }
            assert(tkeys(old(self).left).contains(ol.value));
            assert(tkeys(Some(Box::new(down))) == tkeys(down.left).union(tkeys(down.right)).insert(down.value));
            assert forall|k: i64| tkeys(Some(Box::new(down))).contains(k) implies k > ol.value by {
                if tkeys(down.right).contains(k) {
                    assert(k > old(self).value);
                }
            }
        }
        l.right = Some(Box::new(down));
        *self = l;
        assert(self.keys() =~= old(self).keys());
    }

    /// Turns the right child into the root of this subtree; the old root
    /// becomes its left child and takes over its left subtree as right one.
    pub fn rotation_left(&mut self)
        requires
            old(self).ordered(),
            old(self).right.is_some(),
        ensures
            final(self).ordered(),
            final(self).keys() == old(self).keys(),
            final(self).value == old(self).right.unwrap().value,
            final(self).right == old(self).right.unwrap().right,
            final(self).left == Some(
                Box::new(
                    (WrapNode {
                        value: old(self).value,
                        left: old(self).left,
                        right: old(self).right.unwrap().left,
                    }),
                ),
            ),
    {
        let mut r = *self.right.take().unwrap();
        let rl = r.left.take();
        let down = WrapNode { value: self.value, left: self.left.take(), right: rl };
        proof {
            let or = old(self).right.unwrap();
            assert(tordered(old(self).right));
            assert forall|k: i64| tkeys(rl).contains(k) implies k > down.value && k < or.value by {
                assert(tkeys(old(self).right).contains(k));
            }
            assert(tkeys(old(self).right).contains(or.value));
            assert(tkeys(Some(Box::new(down))) == tkeys(down.left).union(tkeys(down.right)).insert(down.value));
            assert forall|k: i64| tkeys(Some(Box::new(down))).contains(k) implies k < or.value by {
                if tkeys(down.left).contains(k) {
                    assert(k < old(self).value);
                }
            }
        }
        r.left = Some(Box::new(down));
        *self = r;
        assert(self.keys() =~= old(self).keys());
    }

    /// Removes `value` from the subtrees below this node; the key held here
    /// cannot be removed this way.
    pub fn remove(&mut self, value: i64) -> (r: Option<i64>)
        requires
            old(self).ordered(),
        ensures
            final(self).ordered(),
            final(self).value == old(self).value,
            value == old(self).value ==> r is None && *final(self) == *old(self),
            value != old(self).value ==> r == (if old(self).keys().contains(value) {
                Some(value)
            } else {
                None::<i64>
            }) && final(self).keys() == old(self).keys().remove(value),
    {
        if self.value > value {
            let r = remove_below(&mut self.left, value);
            assert(!tkeys(self.right).contains(value));
            assert(self.keys() =~= old(self).keys().remove(value));
            r
        } else if self.value < value {
            let r = remove_below(&mut self.right, value);
            assert(!tkeys(self.left).contains(value));
            assert(self.keys() =~= old(self).keys().remove(value));
            r
        } else {
            None
        }
    }
}

proof fn lemma_depth_bound(link: Option<Box<WrapNode>>, x: i64)
    ensures
        tdepth(link, x) matches Some(d) ==> d < tcount(link),
    decreases link,
{
    if let Some(node) = link {
        lemma_depth_bound(node.left, x);
        lemma_depth_bound(node.right, x);
    }
}

/// An unbalanced binary search tree of distinct keys.
#[derive(Debug, PartialEq, Eq)]
pub struct BinaryTree {
    pub root: Option<WrapNode>,
}

impl BinaryTree {
    pub open spec fn link(&self) -> Option<Box<WrapNode>> {
        match self.root {
            Some(node) => Some(Box::new(node)),
            None => None,
        }
    }

    /// The keys held.
    pub open spec fn keys(&self) -> Set<i64> {
        tkeys(self.link())
    }

    pub open spec fn wf(&self) -> bool {
        tordered(self.link())
    }

    fn take_link(&mut self) -> (r: Option<Box<WrapNode>>)
        ensures
            r == old(self).link(),
            final(self).root.is_none(),
    {
        match self.root.take() {
            Some(node) => Some(Box::new(node)),
            None => None,
        }
    }

    fn put_link(&mut self, link: Option<Box<WrapNode>>)
        ensures
            final(self).link() == link,
    {
        self.root = match link {
            Some(node) => Some(*node),
            None => None,
        };
    }

    /// A tree holding `root` alone.
    pub fn new(root: i64) -> (r: Self)
        ensures
            r.wf(),
            r.keys() == set![root],
            tcount(r.link()) == 1,
    {
        let r = BinaryTree { root: Some(WrapNode::new(root)) };
        assert(tkeys(None::<Box<WrapNode>>) =~= Set::<i64>::empty());
        assert(r.keys() =~= set![root]);
        assert(tordered(None::<Box<WrapNode>>));
        assert(tcount(None::<Box<WrapNode>>) == 0);
        r
    }

    pub fn add(&mut self, value: i64) -> (r: bool)
        requires
            old(self).wf(),
        ensures
            final(self).wf(),
            r == !old(self).keys().contains(value),
            final(self).keys() == old(self).keys().insert(value),
            tcount(final(self).link()) == tcount(old(self).link()) + if r { 1nat } else { 0nat },
    {
        let mut link = self.take_link();
        let r = add_below(&mut link, value);
        self.put_link(link);
        r
    }

    pub fn remove(&mut self, value: i64) -> (r: Option<i64>)
        requires
            old(self).wf(),
        ensures
            final(self).wf(),
            r == if old(self).keys().contains(value) {
                Some(value)
            } else {
                None::<i64>
            },
            final(self).keys() == old(self).keys().remove(value),
            tcount(final(self).link()) + (if r is Some { 1nat } else { 0nat }) == tcount(old(self).link()),
    {
        let mut link = self.take_link();
        let r = remove_below(&mut link, value);
        self.put_link(link);
        r
    }

    pub fn find(&self, value: i64) -> (r: bool)
        requires
            self.wf(),
        ensures
            r == self.keys().contains(value),
    {
        match &self.root {
            Some(node) => node.find(value),
            None => false,
        }
    }

    /// The number of keys held.
    pub fn size(&self) -> (r: usize)
        requires
            self.wf(),
            tcount(self.link()) <= usize::MAX,
        ensures
            r == self.keys().len(),
    {
        proof {
            lemma_keys_finite(self.link());
        }
        match &self.root {
            Some(node) => node.size(),
            None => 0,
        }
    }

    /// The number of edges from the root to `value`, if it is held.
    pub fn depth(&self, value: i64) -> (r: Option<usize>)
        requires
            self.wf(),
            tcount(self.link()) <= usize::MAX,
        ensures
            r matches Some(d) ==> tdepth(self.link(), value) == Some(d as nat),
            r is Some <==> self.keys().contains(value),
    {
        match &self.root {
            Some(node) => node.depth(value),
            None => None,
        }
    }
}

} // verus!
