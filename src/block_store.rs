use vstd::prelude::*;

verus! {

/// A block of external memory: its index in the store and its data.
#[derive(Debug, PartialEq, Eq, Clone, Copy)]
pub struct Block<T> {
    pub index: usize,
    pub data: T,
}

impl<T: Copy> Block<T> {
    pub fn new(index: usize, data: T) -> (r: Self)
        ensures
            r.index == index,
            r.data == data,
    {
        Block { index, data }
    }

    pub fn index(&self) -> (r: usize)
        ensures
            r == self.index,
    {
        self.index
    }

    pub fn data(&self) -> (r: T)
        ensures
            r == self.data,
    {
        self.data
    }
}

/// `after` is `before` with a block of `data` in slot `r`, a slot that
/// existed or the first past the end.
pub open spec fn placed<T>(before: Seq<Option<Block<T>>>, after: Seq<Option<Block<T>>>, r: usize, data: T) -> bool {
    &&& r <= before.len()
    &&& r == before.len() ==> after == before.push(Some((Block { index: r, data })))
    &&& r < before.len() ==> after == before.update(r as int, Some((Block { index: r, data })))
}

/// A store of blocks addressed by index; freed indices are handed out again
/// before the store grows.
pub struct BlockStore<T> {
    block_list: Vec<Option<Block<T>>>,
    free_list: Vec<usize>,
}

impl<T: Copy> View for BlockStore<T> {
    type V = Seq<Option<Block<T>>>;

    /// The slot of each index: a block, or `None` once freed.
    closed spec fn view(&self) -> Seq<Option<Block<T>>> {
        self.block_list@
    }
}

impl<T: Copy> BlockStore<T> {
    /// Every freed index is an index of the store.
    pub closed spec fn wf(&self) -> bool {
        forall|k: int| 0 <= k < self.free_list@.len() ==> #[trigger] self.free_list@[k] < self.block_list@.len()
    }

    pub fn new() -> (r: Self)
        ensures
            r.wf(),
            r@ == Seq::<Option<Block<T>>>::empty(),
    {
        BlockStore { block_list: Vec::new(), free_list: Vec::new() }
    }

    /// The block at `index`; `None` past the end or where it was freed.
    pub fn read_block(&self, index: usize) -> (r: Option<Block<T>>)
        ensures
            index < self@.len() ==> r == self@[index as int],
            index >= self@.len() ==> r is None,
    {
        if index < self.block_list.len() {
            self.block_list[index]
        } else {
            None
        }
    }

    /// Stores `data` in a freed slot if there is one, else in a new slot at
    /// the end; returns the slot.
    pub fn place_data(&mut self, b: T) -> (r: usize)
        requires
            old(self).wf(),
        ensures
            final(self).wf(),
            r <= old(self)@.len(),
            r == old(self)@.len() ==> final(self)@ == old(self)@.push(Some((Block { index: r, data: b }))),
            r < old(self)@.len() ==> final(self)@ == old(self)@.update(r as int, Some((Block { index: r, data: b }))),
    {
        match self.free_list.pop() {
            Some(index) => {
                assert(old(self).free_list@[old(self).free_list@.len() - 1] == index);
                self.block_list.set(index, Some(Block::new(index, b)));
                index
            },
            None => {
                let index = self.block_list.len();
                self.block_list.push(Some(Block::new(index, b)));
                assert forall|k: int| 0 <= k < self.free_list@.len() implies #[trigger] self.free_list@[k]
                    < self.block_list@.len() by {
                    assert(old(self).free_list@[k] < old(self).block_list@.len());
                }
                index
            },
        }
    }

    /// Stores `data` as `place_data` does and returns the slot.
    pub fn place_block(&mut self, data: T) -> (r: usize)
        requires
            old(self).wf(),
        ensures
            final(self).wf(),
            r <= old(self)@.len(),
            r == old(self)@.len() ==> final(self)@ == old(self)@.push(Some((Block { index: r, data: data }))),
            r < old(self)@.len() ==> final(self)@ == old(self)@.update(
                r as int,
                Some((Block { index: r, data: data })),
            ),
    {
        self.place_data(data)
    }

    /// Stores `data` as `place_data` does.
    pub fn add_new_block(&mut self, data: T)
        requires
            old(self).wf(),
        ensures
            final(self).wf(),
            exists|r: usize| #[trigger] placed(old(self)@, final(self)@, r, data),
    {
        let r = self.place_data(data);
        assert(placed(old(self)@, self@, r, data));
    }

    /// Replaces the block at `index` with `data`; past the end, stores it as
    /// `place_data` does.
    pub fn update_block(&mut self, index: usize, data: T)
        requires
            old(self).wf(),
        ensures
            final(self).wf(),
            index < old(self)@.len() ==> final(self)@ == old(self)@.update(
                index as int,
                Some((Block { index: index, data: data })),
            ),
            index >= old(self)@.len() ==> final(self)@.len() >= old(self)@.len(),
    {
        if index < self.block_list.len() {
            self.block_list.set(index, Some(Block::new(index, data)));
        } else {
            self.place_data(data);
        }
    }

    /// Writes `block` at its own index, or at the end when that index is past
    /// the end.
    pub fn write_block(&mut self, block: Block<T>)
        requires
            old(self).wf(),
        ensures
            final(self).wf(),
            block.index < old(self)@.len() ==> final(self)@ == old(self)@.update(
                block.index as int,
                Some(block),
            ),
            block.index >= old(self)@.len() ==> final(self)@ == old(self)@.push(Some(block)),
    {
        let index = block.index();
        if index < self.block_list.len() {
            self.block_list.set(index, Some(block));
        } else {
            self.block_list.push(Some(block));
            assert forall|k: int| 0 <= k < self.free_list@.len() implies #[trigger] self.free_list@[k]
                < self.block_list@.len() by {
                assert(old(self).free_list@[k] < old(self).block_list@.len());
            }
        }
    }

    /// Empties the slot at `i` and records it for reuse.
    pub fn free_block(&mut self, i: usize)
        requires
            old(self).wf(),
            i < old(self)@.len(),
        ensures
            final(self).wf(),
            final(self)@ == old(self)@.update(i as int, None),
    {
        self.block_list.set(i, None);
        self.free_list.push(i);
        assert forall|k: int| 0 <= k < self.free_list@.len() implies #[trigger] self.free_list@[k]
            < self.block_list@.len() by {
            if k < old(self).free_list@.len() {
                assert(old(self).free_list@[k] < old(self).block_list@.len());
            }
        }
    }

    pub fn block_list_len(&self) -> (r: usize)
        ensures
            r == self@.len(),
    {
        self.block_list.len()
    }
}

} // verus!
