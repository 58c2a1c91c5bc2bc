use vstd::prelude::*;

verus! {

/// Projection of a key onto the unsigned integer whose bits place it in a trie.
pub trait ToUsize {
    spec fn usize_view(&self) -> usize;

    fn to_usize(&self) -> (r: usize)
        ensures
            r == self.usize_view(),
    ;
}

impl ToUsize for usize {
    open spec fn usize_view(&self) -> usize {
        *self
    }

    fn to_usize(&self) -> (r: usize) {
        *self
    }
}

impl ToUsize for u64 {
    open spec fn usize_view(&self) -> usize {
        *self as usize
    }

    fn to_usize(&self) -> (r: usize) {
        *self as usize
    }
}

impl ToUsize for u32 {
    open spec fn usize_view(&self) -> usize {
        *self as usize
    }

    fn to_usize(&self) -> (r: usize) {
        *self as usize
    }
}

impl ToUsize for i32 {
    open spec fn usize_view(&self) -> usize {
        *self as usize
    }

    fn to_usize(&self) -> (r: usize) {
        *self as usize
    }
}

impl ToUsize for i64 {
    open spec fn usize_view(&self) -> usize {
        *self as usize
    }

    fn to_usize(&self) -> (r: usize) {
        *self as usize
    }
}

/// One bit of a key: which child a trie walk takes.
#[derive(Debug, PartialEq, Eq, Structural, Clone, Copy, Hash)]
pub enum Binary {
    Zero,
    One,
}

/// Bit number `digit` of `number`, counting the least significant bit as 1.
pub open spec fn bit_of(number: usize, digit: usize) -> Binary {
    if ((number as u64) >> ((digit - 1) as u64)) & 1 == 1 {
        Binary::One
    } else {
        Binary::Zero
    }
}

impl Binary {
    pub fn calc_binary(number: usize, digit: usize) -> (r: Self)
        requires
            1 <= digit <= 64,
        ensures
            r == bit_of(number, digit),
    {
        if ((number as u64) >> ((digit - 1) as u64)) & 1 == 1 {
            Binary::One
        } else {
            Binary::Zero
        }
    }

    pub fn other(&self) -> (r: Self)
        ensures
            r != *self,
    {
        match self {
            Binary::Zero => Binary::One,
            Binary::One => Binary::Zero,
        }
    }

    pub open spec fn num(&self) -> usize {
        match self {
            Binary::Zero => 0,
            Binary::One => 1,
        }
    }

    pub fn to_num(&self) -> (r: usize)
        ensures
            r == self.num(),
            r < 2,
    {
        match self {
            Binary::Zero => 0,
            Binary::One => 1,
        }
    }
}

/// What a trie node carries: nothing for a path node, the key for a leaf.
#[derive(Debug, PartialEq, Eq, Clone, Copy)]
pub enum PathNodeOrLeaf<T> {
    PathNode,
    Leaf(T),
}

impl<T: Copy> PathNodeOrLeaf<T> {
    pub fn new_leaf(x: T) -> (r: Self)
        ensures
            r == PathNodeOrLeaf::Leaf(x),
    {
        PathNodeOrLeaf::Leaf(x)
    }

    pub fn new_path() -> (r: Self)
        ensures
            r == PathNodeOrLeaf::<T>::PathNode,
    {
        PathNodeOrLeaf::PathNode
    }

    pub fn value(&self) -> (r: Option<T>)
        ensures
            r == match *self {
                PathNodeOrLeaf::Leaf(x) => Some(x),
                PathNodeOrLeaf::PathNode => None::<T>,
            },
    {
        match self {
            PathNodeOrLeaf::Leaf(x) => Some(*x),
            PathNodeOrLeaf::PathNode => None,
        }
    }
}

/// The first `label_depth` bits of a key below bit `max_depth`, most
/// significant first.
#[derive(Debug, PartialEq, Eq, Clone, Hash)]
pub struct BinaryLabel {
    pub label: Vec<Binary>,
    pub max_depth: usize,
}

impl BinaryLabel {
    pub fn new(max_depth: usize, label_depth: usize, usized_data: usize) -> (r: Self)
        requires
            label_depth <= max_depth <= 64,
        ensures
            r.max_depth == max_depth,
            r.label@.len() == label_depth,
            forall|i: int|
                0 <= i < label_depth ==> r.label@[i] == bit_of(usized_data, (max_depth - i) as usize),
    {
        let mut v: Vec<Binary> = Vec::new();
        let mut depth: usize = 0;
        while depth < label_depth
            invariant
                depth <= label_depth <= max_depth <= 64,
                v@.len() == depth,
                forall|i: int|
                    0 <= i < depth ==> v@[i] == bit_of(usized_data, (max_depth - i) as usize),
            decreases label_depth - depth,
        {
            v.push(Binary::calc_binary(usized_data, max_depth - depth));
            depth = depth + 1;
        }
        BinaryLabel { label: v, max_depth }
    }

    /// Whether `usized_data` has this label's first `label_depth` bits.
    pub fn is_same(&self, label_depth: usize, usized_data: usize) -> (r: bool)
        requires
            label_depth <= self.label@.len(),
            self.label@.len() <= self.max_depth <= 64,
        ensures
            r == forall|i: int|
                0 <= i < label_depth ==> self.label@[i] == bit_of(
                    usized_data,
                    (self.max_depth - i) as usize,
                ),
    {
        let mut depth: usize = 0;
        while depth < label_depth
            invariant
                depth <= label_depth <= self.label@.len() <= self.max_depth <= 64,
                forall|i: int|
                    0 <= i < depth ==> self.label@[i] == bit_of(
                        usized_data,
                        (self.max_depth - i) as usize,
                    ),
            decreases label_depth - depth,
        {
            if self.label[depth] != Binary::calc_binary(usized_data, self.max_depth - depth) {
                return false;
            }
            depth = depth + 1;
        }
        true
    }
}

} // verus!
