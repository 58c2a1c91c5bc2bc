use vstd::prelude::*;

verus! {

/// A node of an unbalanced binary search tree.
#[derive(Debug, PartialEq, Eq)]
pub struct BstNode {
    pub data: i64,
    pub right: Option<Box<BstNode>>,
    pub left: Option<Box<BstNode>>,
}

/// The keys below a link.
pub open spec fn keys_of(link: Option<Box<BstNode>>) -> Set<i64>
    decreases link,
{
    match link {
        Some(node) => keys_of(node.left).union(keys_of(node.right)).insert(node.data),
        None => Set::empty(),
    }
}

/// Every key left of a node is smaller than it, every key right of it larger.
pub open spec fn ordered(link: Option<Box<BstNode>>) -> bool
    decreases link,
{
    match link {
        Some(node) => {
            &&& ordered(node.left)
            &&& ordered(node.right)
            &&& forall|k: i64| keys_of(node.left).contains(k) ==> k < node.data
            &&& forall|k: i64| keys_of(node.right).contains(k) ==> k > node.data
        },
        None => true,
    }
}

impl BstNode {
    pub fn new(x: i64) -> (r: Self)
        ensures
            r.data == x,
            r.left.is_none(),
            r.right.is_none(),
    {
        BstNode { data: x, right: None, left: None }
    }
}

/// Whether `x` is below `link`.
fn find_in(link: &Option<Box<BstNode>>, x: i64) -> (r: bool)
    requires
        ordered(*link),
    ensures
        r == keys_of(*link).contains(x),
    decreases *link,
{
    match link {
        None => {
            assert(keys_of(*link) =~= Set::<i64>::empty());
            false
        },
        Some(node) => {
            assert(keys_of(*link) == keys_of(node.left).union(keys_of(node.right)).insert(node.data));
            if node.data > x {
                find_in(&node.left, x)
            } else if node.data < x {
                find_in(&node.right, x)
            } else {
                true
            }
        },
    }
}

/// Adds `x` below `link` unless it is there; says whether it was added.
fn add_to(link: &mut Option<Box<BstNode>>, x: i64) -> (r: bool)
    requires
        ordered(*old(link)),
    ensures
        ordered(*final(link)),
        r == !keys_of(*old(link)).contains(x),
        keys_of(*final(link)) == keys_of(*old(link)).insert(x),
    decreases *old(link),
{
    match link.take() {
        None => {
            *link = Some(Box::new(BstNode::new(x)));
            assert(keys_of(*link) =~= keys_of(*old(link)).insert(x));
            true
        },
        Some(mut node) => {
            let r = if node.data > x {
                let r = add_to(&mut node.left, x);
                assert(!keys_of(node.right).contains(x));
                r
            } else if node.data < x {
                let r = add_to(&mut node.right, x);
                assert(!keys_of(node.left).contains(x));
                r
            } else {
                false
            };
            *link = Some(node);
            assert(keys_of(*link) =~= keys_of(*old(link)).insert(x));
            r
        },
    }
}

/// An unbalanced binary search tree of distinct keys.
#[derive(Debug, PartialEq, Eq)]
pub struct BinarySearchTree {
    pub root: Option<BstNode>,
}

impl BinarySearchTree {
    /// The keys held.
    pub open spec fn keys(&self) -> Set<i64> {
        match self.root {
            Some(node) => keys_of(Some(Box::new(node))),
            None => Set::empty(),
        }
    }

    pub open spec fn wf(&self) -> bool {
        match self.root {
            Some(node) => ordered(Some(Box::new(node))),
            None => true,
        }
    }

    pub fn new() -> (r: Self)
        ensures
            r.wf(),
            r.keys() == Set::<i64>::empty(),
    {
        BinarySearchTree { root: None }
    }

    /// Adds `x` unless it is held; says whether it was added.
    pub fn add(&mut self, x: i64) -> (r: bool)
        requires
            old(self).wf(),
        ensures
            final(self).wf(),
            r == !old(self).keys().contains(x),
            final(self).keys() == old(self).keys().insert(x),
    {
        let mut link: Option<Box<BstNode>> = match self.root.take() {
            Some(node) => Some(Box::new(node)),
            None => None,
        };
        let r = add_to(&mut link, x);
        self.root = match link {
            Some(node) => Some(*node),
            None => None,
        };
        r
    }

    pub fn find(&self, x: i64) -> (r: bool)
        requires
            self.wf(),
        ensures
            r == self.keys().contains(x),
    {
        match &self.root {
            Some(node) => {
                assert(self.keys() == keys_of(node.left).union(keys_of(node.right)).insert(node.data));
                if node.data > x {
                    find_in(&node.left, x)
                } else if node.data < x {
                    find_in(&node.right, x)
                } else {
                    true
                }
            },
            None => false,
        }
    }
}

} // verus!
