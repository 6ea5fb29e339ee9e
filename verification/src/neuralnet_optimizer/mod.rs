//! Neural-network optimizers: the launch geometry of their update kernels
//! and the depth-aware schedule of the second Lion variant.

use vstd::prelude::*;

pub mod lion_v2;

verus! {

/// Threads per block of the update kernel.
pub const THREADS_PER_BLOCK: u32 = 256;

/// The size of a tensor, taken as `u32`, leaves room for a block's worth of
/// threads.
pub open spec fn size_fits(sz: usize) -> bool {
    (sz as u32) + THREADS_PER_BLOCK <= u32::MAX
}

/// The number of blocks for a tensor of `sz` entries: enough blocks of
/// `THREADS_PER_BLOCK` threads to cover the size taken as `u32`, and at least
/// one.
pub open spec fn blocks_for(sz: usize) -> u32 {
    let q = ((sz as u32) + 255) / 256;
    if q >= 1 { q as u32 } else { 1 }
}

/// The number of blocks for a parameter tensor of `sz` entries.
pub fn grid_blocks(sz: usize) -> (r: u32)
    requires
        size_fits(sz),
    ensures
        r == blocks_for(sz),
{
    let s = sz as u32;
    let n = (s + THREADS_PER_BLOCK - 1) / THREADS_PER_BLOCK;
    if n >= 1 {
        n
    } else {
        1
    }
}

/// The number of blocks for each parameter tensor, in order.
pub fn launch_grid(param_sizes: &Vec<usize>) -> (r: Vec<u32>)
    requires
        forall|i: int| 0 <= i < param_sizes.len() ==> size_fits(#[trigger] param_sizes@[i]),
    ensures
        r.len() == param_sizes.len(),
        forall|i: int| 0 <= i < r.len() ==> #[trigger] r@[i] == blocks_for(param_sizes@[i]),
{
    let mut r: Vec<u32> = Vec::new();
    let mut i: usize = 0;
    while i < param_sizes.len()
        invariant
            i <= param_sizes.len(),
            r.len() == i,
            forall|k: int| 0 <= k < param_sizes.len() ==> size_fits(#[trigger] param_sizes@[k]),
            forall|k: int| 0 <= k < i ==> #[trigger] r@[k] == blocks_for(param_sizes@[k]),
        decreases param_sizes.len() - i,
    {
        r.push(grid_blocks(param_sizes[i]));
        i = i + 1;
    }
    r
}

} // verus!
