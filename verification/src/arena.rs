//! Arena storage parameters and alignment arithmetic.
//!
//! The arena is one fixed-size, fixed-alignment byte buffer that lives
//! for the whole process; it is never grown, shrunk or torn down.  The
//! allocator core addresses it by offsets in `[0, ARENA_SIZE)`, so that
//! every bound here is a plain integer fact.

use vstd::prelude::*;

verus! {

/// Total capacity of the arena in bytes.
pub const ARENA_SIZE: usize = 10240 * 1024;

/// The largest alignment the allocator guarantees to support.  Any
/// request whose alignment exceeds this value is rejected; the backing
/// buffer itself is aligned to this value, so every offset that is a
/// multiple of a supported alignment is properly aligned in memory.
pub const MAX_SUPPORTED_ALIGN: usize = 4096;

/// Minimum size of a free block retained after a split.  Descriptors
/// live in the bootstrap metadata region rather than inside the blocks
/// they describe, so even a single spare byte is worth tracking; with
/// this choice no byte is ever abandoned as internal fragmentation.
pub const MIN_BLOCK_SIZE: usize = 1;

/// Pattern the arena is filled with at initialization and that freed
/// bytes are overwritten with, to aid use-after-free detection.
pub const SENTINEL_BYTE: u8 = 0x55;

/// The smallest address that is `>= addr` and a multiple of `align`.
pub open spec fn spec_align_up(addr: int, align: int) -> int
    recommends
        1 <= align,
{
    if addr % align == 0 {
        addr
    } else {
        addr + align - addr % align
    }
}

/// The rounded-up address is a multiple of the alignment and lies less
/// than one alignment step above the original address.
pub proof fn lemma_align_up_props(addr: int, align: int)
    requires
        0 <= addr,
        1 <= align,
    ensures
        spec_align_up(addr, align) % align == 0,
        addr <= spec_align_up(addr, align) < addr + align,
{
    vstd::arithmetic::div_mod::lemma_mod_bound(addr, align);
    if addr % align != 0 {
        vstd::arithmetic::div_mod::lemma_fundamental_div_mod(addr, align);
        let q = addr / align;
        assert(addr + align - addr % align == (q + 1) * align) by (nonlinear_arith)
            requires
                addr == align * q + addr % align,
        ;
        vstd::arithmetic::div_mod::lemma_mod_multiples_basic(q + 1, align);
    }
}

/// Rounds `addr` up to the next multiple of `align`.
pub fn align_up(addr: usize, align: usize) -> (r: usize)
    requires
        1 <= align,
        addr + align - 1 <= usize::MAX,
    ensures
        r == spec_align_up(addr as int, align as int),
        addr <= r < addr + align,
        r % align == 0,
{
    proof {
        lemma_align_up_props(addr as int, align as int);
    }
    let rem = addr % align;
    if rem == 0 {
        addr
    } else {
        addr + (align - rem)
    }
}

} // verus!
