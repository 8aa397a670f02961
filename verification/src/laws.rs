//! Laws of the allocator, stated and proved as public lemmas.
//!
//! Each lemma states a property promised of every reachable allocator
//! state or request: `ReallyCoolAllocator::new`, `allocate` and
//! `deallocate` all ensure `wf`, so the hypotheses below hold after
//! any sequence of calls.

use vstd::prelude::*;

use crate::arena::{lemma_align_up_props, spec_align_up, ARENA_SIZE};
use crate::alloc_core::{
    lemma_ready_invariant, live_covers, live_total, spans_disjoint, ReallyCoolAllocator,
};
use crate::free_list::{
    blocks_wf, block_fits, covers, lemma_blocks_ordered, lemma_find_fit_characterization,
    spec_find_fit, split_off, total_free, FreeBlock,
};

verus! {

/// Accounting: in every reachable ready state, live bytes plus free
/// bytes equal the arena capacity.  With a one-byte minimum retained
/// block size every padding byte stays on the free list, so no third
/// category of bytes exists.
pub proof fn lemma_accounting(a: ReallyCoolAllocator)
    requires
        a.wf(),
        a.is_ready(),
    ensures
        total_free(a.free_blocks()) + live_total(a.live()) == ARENA_SIZE,
{
    lemma_ready_invariant(a);
}

/// No-overlap: no two concurrently live allocations share any byte.
pub proof fn lemma_no_overlap(a: ReallyCoolAllocator, k1: int, k2: int)
    requires
        a.wf(),
        a.is_ready(),
        0 <= k1 < a.live().len(),
        0 <= k2 < a.live().len(),
        k1 != k2,
    ensures
        spans_disjoint(a.live()[k1], a.live()[k2]),
{
    lemma_ready_invariant(a);
}

/// A well-formed free list that covers every arena byte is exactly one
/// block spanning the whole arena: the heart of coalescing
/// completeness.
pub proof fn lemma_full_coverage_is_one_block(bs: Seq<FreeBlock>)
    requires
        blocks_wf(bs),
        forall|x: int| 0 <= x < ARENA_SIZE ==> covers(bs, x),
    ensures
        bs =~= seq![FreeBlock { start: 0, size: ARENA_SIZE }],
{
    assert(covers(bs, 0));
    let k0 = choose|k: int| 0 <= k < bs.len() && (#[trigger] bs[k]).contains(0);
    assert(bs[k0].start == 0);
    if k0 > 0 {
        lemma_blocks_ordered(bs, 0, k0);
        assert(false);
    }
    if bs.len() > 1 {
        let g = bs[0].end();
        assert(g < bs[1].start);
        assert(bs[1].end() <= ARENA_SIZE);
        assert(0 <= g < ARENA_SIZE);
        assert(covers(bs, g));
        let k = choose|k: int| 0 <= k < bs.len() && (#[trigger] bs[k]).contains(g);
        if k > 1 {
            lemma_blocks_ordered(bs, 1, k);
        }
        assert(false);
    }
    assert(covers(bs, ARENA_SIZE - 1));
    let ke = choose|k: int| 0 <= k < bs.len() && (#[trigger] bs[k]).contains(ARENA_SIZE - 1);
    assert(ke == 0);
    assert(bs[0].end() == ARENA_SIZE);
}

/// Coalescing completeness: once every live allocation has been freed,
/// in whatever order, the free list is exactly one block spanning the
/// whole arena.  (Bootstrap metadata slots live outside the arena's
/// allocatable bytes and stay consumed.)
pub proof fn lemma_coalescing_completeness(a: ReallyCoolAllocator)
    requires
        a.wf(),
        a.is_ready(),
        a.live().len() == 0,
    ensures
        a.free_blocks() =~= seq![FreeBlock { start: 0, size: ARENA_SIZE }],
{
    lemma_ready_invariant(a);
    assert forall|x: int| 0 <= x < ARENA_SIZE implies covers(a.free_blocks(), x) by {
        assert(!live_covers(a.live(), x));
    }
    lemma_full_coverage_is_one_block(a.free_blocks());
}

/// Determinism: an identical free-list state and an identical request
/// choose the identical block and offset.  `allocate` pins its result
/// to `spec_find_fit` and `split_off`, plain functions of the state
/// and the request, so no hidden randomness can enter.
pub proof fn lemma_deterministic_choice(
    a1: ReallyCoolAllocator,
    a2: ReallyCoolAllocator,
    size: int,
    align: int,
)
    requires
        a1.free_blocks() == a2.free_blocks(),
    ensures
        spec_find_fit(a1.free_blocks(), size, align) == spec_find_fit(
            a2.free_blocks(),
            size,
            align,
        ),
        spec_find_fit(a1.free_blocks(), size, align) matches Some(i) ==> split_off(
            a1.free_blocks(),
            i,
            align,
        ) == split_off(a2.free_blocks(), i, align),
{
}

/// Out-of-memory boundary, first half: a request for more than the
/// whole arena fits no block of any well-formed list, so `allocate`
/// reports it as out of memory whatever the arena state.
pub proof fn lemma_oversize_never_fits(bs: Seq<FreeBlock>, size: int, align: int)
    requires
        blocks_wf(bs),
        size > ARENA_SIZE,
        1 <= align,
    ensures
        spec_find_fit(bs, size, align) is None,
{
    lemma_find_fit_characterization(bs, size, align);
    match spec_find_fit(bs, size, align) {
        Some(i) => {
            lemma_align_up_props(bs[i].start as int, align);
            assert(false);
        },
        None => {},
    }
}

/// Out-of-memory boundary, second half: a pristine allocator serves a
/// request for the whole arena, at offset zero; the carve empties the
/// free list, so it can happen exactly once before a release.
pub proof fn lemma_pristine_serves_whole_arena(a: ReallyCoolAllocator)
    requires
        a.wf(),
        a.is_uninitialized(),
    ensures
        spec_find_fit(a.effective_free(), ARENA_SIZE as int, 1) == Some(0int),
        split_off(a.effective_free(), 0, 1) == 0,
{
    let bs = a.effective_free();
    assert(bs[0] == FreeBlock { start: 0, size: ARENA_SIZE });
    assert(spec_align_up(0, 1) == 0);
    assert(block_fits(bs[0], ARENA_SIZE as int, 1));
}

/// Out-of-memory boundary, completing the "exactly once": when no
/// free byte is left — as after a successful whole-arena allocation,
/// whose contract removes every byte from the free set — no request
/// of any size fits, so the next `allocate` reports out of memory.
pub proof fn lemma_exhausted_arena_is_oom(a: ReallyCoolAllocator, size: int, align: int)
    requires
        a.wf(),
        a.is_ready(),
        forall|x: int| !covers(a.free_blocks(), x),
    ensures
        spec_find_fit(a.free_blocks(), size, align) is None,
{
    lemma_ready_invariant(a);
    lemma_find_fit_characterization(a.free_blocks(), size, align);
    match spec_find_fit(a.free_blocks(), size, align) {
        Some(i) => {
            let b = a.free_blocks()[i];
            assert(b.contains(b.start as int));
            assert(covers(a.free_blocks(), b.start as int));
            assert(false);
        },
        None => {},
    }
}

/// Reuse round-trip: with no allocation outstanding — in particular
/// right after the only live allocation was freed back — the free
/// list is the single full block again, and any feasible request is
/// served at offset zero, exactly where the first allocation from a
/// pristine arena was placed.
pub proof fn lemma_reuse_round_trip(a: ReallyCoolAllocator, size: int, align: int)
    requires
        a.wf(),
        a.is_ready(),
        a.live().len() == 0,
        1 <= size <= ARENA_SIZE,
        1 <= align,
    ensures
        spec_find_fit(a.free_blocks(), size, align) == Some(0int),
        split_off(a.free_blocks(), 0, align) == 0,
{
    lemma_coalescing_completeness(a);
    let bs = a.free_blocks();
    assert(bs[0] == FreeBlock { start: 0, size: ARENA_SIZE });
    assert(spec_align_up(0, align) == 0);
    assert(block_fits(bs[0], size, align));
}

} // verus!
