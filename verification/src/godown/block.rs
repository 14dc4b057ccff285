use vstd::prelude::*;
use crate::godown::def::BLOCK_SIZE;

verus! {

/// Number of blocks needed to hold `len` bytes.
pub open spec fn blocks_for(len: nat) -> nat {
    ((len + BLOCK_SIZE - 1) / (BLOCK_SIZE as int)) as nat
}

/// Arithmetic on blocks.
pub struct Block;

impl Block {
    /// The number of blocks that a package of `package_len` bytes occupies.
    pub fn get_count(package_len: usize) -> (count: usize)
        requires
            package_len > 0,
        ensures
            count == blocks_for(package_len as nat),
            count >= 1,
            (count - 1) * BLOCK_SIZE < package_len <= count * BLOCK_SIZE,
    {
        let mut result: usize = package_len / BLOCK_SIZE;
        if package_len % BLOCK_SIZE > 0 {
            result += 1;
        }
        result
    }

    /// The byte position at which block `block_number` starts.
    pub fn get_pointer(block_number: usize) -> (pointer: usize)
        requires
            block_number * BLOCK_SIZE <= usize::MAX,
        ensures
            pointer == block_number * BLOCK_SIZE,
    {
        block_number * BLOCK_SIZE
    }

    /// The number of bytes that `block_count` blocks span.
    pub fn get_total_bytes(block_count: usize) -> (bytes: usize)
        requires
            block_count * BLOCK_SIZE <= usize::MAX,
        ensures
            bytes == block_count * BLOCK_SIZE,
    {
        block_count * BLOCK_SIZE
    }
}

} // verus!
