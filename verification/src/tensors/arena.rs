//! Reuse of blocks of memory for temporary tensors.

use vstd::prelude::*;

verus! {

/// A block of memory: how many elements it holds, and whether it is in use.
#[derive(Clone, Copy, Debug, PartialEq, Eq, Structural)]
pub struct MemoryBlock {
    pub size: usize,
    pub active: bool,
}

/// The blocks that can be reused.
#[derive(Debug)]
pub struct TensorArena {
    pub blocks: Vec<MemoryBlock>,
}

/// Whether a block is free and large enough.
pub open spec fn usable(b: MemoryBlock, size: usize) -> bool {
    !b.active && b.size >= size
}

impl TensorArena {
    /// An arena without blocks.
    pub fn new() -> (r: TensorArena)
        ensures
            r.blocks@.len() == 0,
    {
        TensorArena { blocks: Vec::new() }
    }

    /// Puts the first free block that is large enough to use. Gives nothing where there is
    /// none, and new memory is to be had elsewhere.
    pub fn allocate(&mut self, size: usize) -> (r: Option<usize>)
        ensures
            match r {
                Some(i) => {
                    &&& i < old(self).blocks@.len()
                    &&& usable(old(self).blocks@[i as int], size)
                    &&& forall|k: int|
                        0 <= k < i ==> !usable(#[trigger] old(self).blocks@[k], size)
                    &&& final(self).blocks@ == old(self).blocks@.update(
                        i as int,
                        (MemoryBlock { active: true, ..old(self).blocks@[i as int] }),
                    )
                },
                None => {
                    &&& forall|k: int|
                        0 <= k < old(self).blocks@.len() ==> !usable(
                            #[trigger] old(self).blocks@[k],
                            size,
                        )
                    &&& final(self).blocks@ == old(self).blocks@
                },
            },
    {
        let mut i: usize = 0;
        while i < self.blocks.len()
            invariant
                i <= self.blocks@.len(),
                self.blocks@ == old(self).blocks@,
                forall|k: int| 0 <= k < i ==> !usable(#[trigger] self.blocks@[k], size),
            decreases self.blocks@.len() - i,
        {
            let b = self.blocks[i];
            if !b.active && b.size >= size {
                self.blocks.set(i, MemoryBlock { size: b.size, active: true });
                return Some(i);
            }
            i += 1;
        }
        None
    }
}

impl Default for TensorArena {
    fn default() -> (r: TensorArena)
        ensures
            r.blocks@.len() == 0,
    {
        TensorArena::new()
    }
}

/// A block that was given out was free and large enough, and is the first of these; it is not given
/// out again while it is in use, and the other blocks stay as they were.
pub proof fn law_blocks_given_once(
    first: &mut TensorArena,
    second: &mut TensorArena,
    size: usize,
    size2: usize,
    i: usize,
    r: Option<usize>,
    k: int,
)
    requires
        call_ensures(TensorArena::allocate, (first, size), Some(i)),
        *old(second) == *final(first),
        call_ensures(TensorArena::allocate, (second, size2), r),
        0 <= k < old(first).blocks@.len(),
    ensures
        i < old(first).blocks@.len(),
        !old(first).blocks@[i as int].active,
        old(first).blocks@[i as int].size >= size,
        final(first).blocks@[i as int].active,
        final(first).blocks@.len() == old(first).blocks@.len(),
        k != i ==> final(first).blocks@[k] == old(first).blocks@[k],
        r != Some(i),
        r matches Some(j) ==> !old(first).blocks@[j as int].active && old(
            first).blocks@[j as int].size >= size2,
{
}

} // verus!
