//! Free List Manager.
//!
//! The free list is an address-ordered collection of free-block
//! descriptors over the arena.  It finds first fits, splits blocks,
//! and inserts released ranges with coalescing, so that at most one
//! descriptor ever describes a maximal free run: no two descriptors
//! overlap or even touch.

use vstd::prelude::*;

use crate::arena::{
    spec_align_up, lemma_align_up_props, align_up, ARENA_SIZE, MAX_SUPPORTED_ALIGN, MIN_BLOCK_SIZE,
};
use crate::bootstrap::BootstrapAlloc;

verus! {

/// One maximal contiguous unused run of the arena: the bytes at
/// offsets `[start, start + size)`.
#[derive(Clone, Copy, PartialEq, Eq, Structural)]
pub struct FreeBlock {
    pub start: usize,
    pub size: usize,
}

impl FreeBlock {
    /// One-past-the-end offset of the block.
    pub open spec fn end(self) -> int {
        self.start + self.size
    }

    /// A block is well formed when it is non-empty and lies inside the
    /// arena.
    pub open spec fn wf(self) -> bool {
        0 < self.size && self.start + self.size <= ARENA_SIZE
    }

    /// Whether the byte at offset `addr` belongs to this block.
    pub open spec fn contains(self, addr: int) -> bool {
        self.start <= addr < self.end()
    }
}

/// The free-list invariant: every block is well formed, and the blocks
/// stand in ascending address order with a gap between neighbours
/// (touching runs must have been coalesced into one block).
pub open spec fn blocks_wf(bs: Seq<FreeBlock>) -> bool {
    &&& forall|i: int| 0 <= i < bs.len() ==> (#[trigger] bs[i]).wf()
    &&& forall|i: int| 0 <= i && i + 1 < bs.len() ==> (#[trigger] bs[i]).end() < bs[i + 1].start
}

/// Whether the byte at offset `addr` is free, i.e. covered by some
/// block of the list.
pub open spec fn covers(bs: Seq<FreeBlock>, addr: int) -> bool {
    exists|i: int| 0 <= i < bs.len() && (#[trigger] bs[i]).contains(addr)
}

/// Total number of free bytes described by the list.
pub open spec fn total_free(bs: Seq<FreeBlock>) -> int
    decreases bs.len(),
{
    if bs.len() == 0 {
        0
    } else {
        bs[0].size + total_free(bs.drop_first())
    }
}

/// Address order is transitive along the list: any earlier block ends
/// strictly below the start of any later block.
pub proof fn lemma_blocks_ordered(bs: Seq<FreeBlock>, i: int, j: int)
    requires
        blocks_wf(bs),
        0 <= i < j < bs.len(),
    ensures
        bs[i].end() < bs[j].start,
    decreases j - i,
{
    if i + 1 < j {
        lemma_blocks_ordered(bs, i + 1, j);
    }
}

/// Distinct blocks of a well-formed list share no byte.
pub proof fn lemma_blocks_disjoint(bs: Seq<FreeBlock>, i: int, j: int, addr: int)
    requires
        blocks_wf(bs),
        0 <= i < bs.len(),
        0 <= j < bs.len(),
        i != j,
        bs[i].contains(addr),
    ensures
        !bs[j].contains(addr),
{
    if i < j {
        lemma_blocks_ordered(bs, i, j);
    } else {
        lemma_blocks_ordered(bs, j, i);
    }
}

/// Whether a request for `size` bytes at alignment `align` fits in
/// block `b`: the smallest aligned address inside the block leaves
/// room for `size` bytes.
pub open spec fn block_fits(b: FreeBlock, size: int, align: int) -> bool {
    spec_align_up(b.start as int, align) + size <= b.end()
}

/// Index of the first block of the list that fits the request: the
/// mandated first-fit policy in address order.
pub open spec fn spec_find_fit(bs: Seq<FreeBlock>, size: int, align: int) -> Option<int>
    decreases bs.len(),
{
    if bs.len() == 0 {
        None
    } else if block_fits(bs[0], size, align) {
        Some(0)
    } else {
        match spec_find_fit(bs.drop_first(), size, align) {
            Some(i) => Some(i + 1),
            None => None,
        }
    }
}

/// `spec_find_fit` returns exactly the least fitting index, and `None`
/// exactly when no block fits.
pub proof fn lemma_find_fit_characterization(bs: Seq<FreeBlock>, size: int, align: int)
    ensures
        match spec_find_fit(bs, size, align) {
            Some(i) => 0 <= i < bs.len() && block_fits(bs[i], size, align) && forall|j: int|
                0 <= j < i ==> !block_fits(#[trigger] bs[j], size, align),
            None => forall|j: int| 0 <= j < bs.len() ==> !block_fits(#[trigger] bs[j], size, align),
        },
    decreases bs.len(),
{
    if bs.len() > 0 && !block_fits(bs[0], size, align) {
        let rest = bs.drop_first();
        lemma_find_fit_characterization(rest, size, align);
        match spec_find_fit(rest, size, align) {
            Some(i0) => {
                assert forall|j: int| 0 <= j < i0 + 1 implies !block_fits(#[trigger] bs[j], size,
                    align) by {
                    if j > 0 {
                        assert(rest[j - 1] == bs[j]);
                        assert(!block_fits(rest[j - 1], size, align));
                    }
                }
            },
            None => {
                assert forall|j: int| 0 <= j < bs.len() implies !block_fits(#[trigger] bs[j], size,
                    align) by {
                    if j > 0 {
                        assert(rest[j - 1] == bs[j]);
                        assert(!block_fits(rest[j - 1], size, align));
                    }
                }
            },
        }
    }
}

/// Replacing one block changes the free-byte total by the difference
/// of the two sizes.
pub proof fn lemma_total_update(bs: Seq<FreeBlock>, i: int, b: FreeBlock)
    requires
        0 <= i < bs.len(),
    ensures
        total_free(bs.update(i, b)) == total_free(bs) - bs[i].size + b.size,
    decreases bs.len(),
{
    let u = bs.update(i, b);
    if i == 0 {
        assert(u.drop_first() =~= bs.drop_first());
    } else {
        assert(u.drop_first() =~= bs.drop_first().update(i - 1, b));
        lemma_total_update(bs.drop_first(), i - 1, b);
    }
}

/// Inserting a block adds its size to the free-byte total.
pub proof fn lemma_total_insert(bs: Seq<FreeBlock>, i: int, b: FreeBlock)
    requires
        0 <= i <= bs.len(),
    ensures
        total_free(bs.insert(i, b)) == total_free(bs) + b.size,
    decreases bs.len(),
{
    let u = bs.insert(i, b);
    if i == 0 {
        assert(u[0] == b);
        assert(u.drop_first() =~= bs);
    } else {
        assert(u[0] == bs[0]);
        assert(u.drop_first() =~= bs.drop_first().insert(i - 1, b));
        lemma_total_insert(bs.drop_first(), i - 1, b);
    }
}

/// Removing a block subtracts its size from the free-byte total.
pub proof fn lemma_total_remove(bs: Seq<FreeBlock>, i: int)
    requires
        0 <= i < bs.len(),
    ensures
        total_free(bs.remove(i)) == total_free(bs) - bs[i].size,
    decreases bs.len(),
{
    let u = bs.remove(i);
    if i == 0 {
        assert(u =~= bs.drop_first());
    } else {
        assert(u[0] == bs[0]);
        assert(u.drop_first() =~= bs.drop_first().remove(i - 1));
        lemma_total_remove(bs.drop_first(), i - 1);
    }
}

/// Whether carving this request out of block `b` leaves both a
/// non-empty padding run in front of the aligned address and a
/// non-empty remainder behind the carved bytes, so that a second
/// descriptor is needed.
pub open spec fn split_needs_node(b: FreeBlock, size: int, align: int) -> bool {
    let a = spec_align_up(b.start as int, align);
    b.start < a && a + size < b.end()
}

/// The singly-linked, address-ordered free list.  The descriptor chain
/// is held as a vector in link order; index `i + 1` plays the role of
/// the `next` link of node `i`.
pub struct FreeMemList {
    blocks: Vec<FreeBlock>,
}

impl View for FreeMemList {
    type V = Seq<FreeBlock>;

    closed spec fn view(&self) -> Seq<FreeBlock> {
        self.blocks@
    }
}

impl FreeMemList {
    /// An empty list, holding no free bytes at all.
    pub fn new() -> (r: FreeMemList)
        ensures
            r@ == Seq::<FreeBlock>::empty(),
    {
        let r = FreeMemList { blocks: Vec::new() };
        proof {
            assert(r@ =~= Seq::<FreeBlock>::empty());
        }
        r
    }

    /// A list holding the single block that spans the whole arena: the
    /// pristine state right after lazy initialization.
    pub fn full_arena() -> (r: FreeMemList)
        ensures
            r@ =~= seq![FreeBlock { start: 0, size: ARENA_SIZE }],
            blocks_wf(r@),
    {
        let mut blocks: Vec<FreeBlock> = Vec::new();
        blocks.push(FreeBlock { start: 0, size: ARENA_SIZE });
        FreeMemList { blocks }
    }

    pub fn len(&self) -> (r: usize)
        ensures
            r == self@.len(),
    {
        self.blocks.len()
    }

    /// First-fit scan in ascending address order.
    pub fn find_fit(&self, size: usize, align: usize) -> (r: Option<usize>)
        requires
            blocks_wf(self@),
            1 <= align <= crate::arena::MAX_SUPPORTED_ALIGN,
        ensures
            match r {
                Some(i) => Some(i as int) == spec_find_fit(self@, size as int, align as int),
                None => spec_find_fit(self@, size as int, align as int) is None,
            },
    {
        let n = self.blocks.len();
        let mut i: usize = 0;
        while i < n
            invariant
                blocks_wf(self@),
                1 <= align <= crate::arena::MAX_SUPPORTED_ALIGN,
                n == self@.len(),
                0 <= i <= n,
                forall|j: int| 0 <= j < i ==> !block_fits(#[trigger] self@[j], size as int,
                    align as int),
            decreases n - i,
    {
            let b = self.blocks[i];
            let end = b.start + b.size;
            let aligned = align_up(b.start, align);
            if aligned <= end && size <= end - aligned {
                proof {
                    lemma_find_fit_characterization(self@, size as int, align as int);
                }
                return Some(i);
            }
            assert(!block_fits(self@[i as int], size as int, align as int));
            i = i + 1;
        }
        proof {
            lemma_find_fit_characterization(self@, size as int, align as int);
        }
        None
    }


    /// Carves `size` bytes at alignment `align` out of block `i`,
    /// which must fit the request, and returns the carved offset.  The
    /// padding in front of the aligned address and the remainder
    /// behind the carved bytes each stay on the list when at least
    /// `MIN_BLOCK_SIZE` bytes long; a block shrunk from one side keeps
    /// its descriptor in place, while padding and remainder together
    /// need one fresh descriptor from the bootstrap allocator, whose
    /// exhaustion is the one way this call fails.
    pub fn split(&mut self, i: usize, size: usize, align: usize, boot: &mut BootstrapAlloc) -> (r:
        Result<usize, ()>)
        requires
            blocks_wf(old(self)@),
            old(boot).wf(),
            i < old(self)@.len(),
            1 <= size,
            1 <= align <= MAX_SUPPORTED_ALIGN,
            block_fits(old(self)@[i as int], size as int, align as int),
        ensures
            blocks_wf(final(self)@),
            final(boot).wf(),
            r is Err <==> (split_needs_node(old(self)@[i as int], size as int, align as int)
                && !old(boot).has_slot()),
            match r {
                Ok(off) => {
                    &&& off as int == spec_align_up(old(self)@[i as int].start as int,
                        align as int)
                    &&& off as int % align as int == 0
                    &&& off + size <= ARENA_SIZE
                    &&& forall|x: int| #[trigger] covers(final(self)@, x) <==> (covers(old(self)@,
                        x) && !(off <= x < off + size))
                    &&& forall|x: int| off <= x < off + size ==> covers(old(self)@, x)
                    &&& total_free(final(self)@) == total_free(old(self)@) - size
                    &&& final(boot).cursor() == old(boot).cursor() + (
                    if split_needs_node(old(self)@[i as int], size as int, align as int) {
                        crate::bootstrap::META_NODE_SIZE as int
                    } else {
                        0
                    })
                },
                Err(_) => {
                    &&& final(self)@ == old(self)@
                    &&& *final(boot) == *old(boot)
                },
            },
    {
        let ghost bs = self@;
        let n = self.blocks.len();
        let b = self.blocks[i];
        let end = b.start + b.size;
        let aligned = align_up(b.start, align);
        let pad = aligned - b.start;
        let tail = end - (aligned + size);
        proof {
            lemma_split_result(bs, i as int, size as int, align as int);
        }
        if pad >= MIN_BLOCK_SIZE && tail >= MIN_BLOCK_SIZE {
            match boot.alloc_node() {
                None => {
                    return Err(());
                },
                Some(_slot) => {
                    let front = FreeBlock { start: b.start, size: pad };
                    let back = FreeBlock { start: aligned + size, size: tail };
                    self.blocks[i] = front;
                    self.blocks.insert(i + 1, back);
                    proof {
                        assert(self@ == split_result(bs, i as int, size as int, align as int));
                    }
                    Ok(aligned)
                },
            }
        } else if pad >= MIN_BLOCK_SIZE {
            let front = FreeBlock { start: b.start, size: pad };
            self.blocks[i] = front;
            proof {
                assert(self@ == split_result(bs, i as int, size as int, align as int));
            }
            Ok(aligned)
        } else if tail >= MIN_BLOCK_SIZE {
            let back = FreeBlock { start: aligned + size, size: tail };
            self.blocks[i] = back;
            proof {
                assert(self@ == split_result(bs, i as int, size as int, align as int));
            }
            Ok(aligned)
        } else {
            self.blocks.remove(i);
            proof {
                assert(self@ == split_result(bs, i as int, size as int, align as int));
            }
            Ok(aligned)
        }
    }

    /// Total free bytes on the list, the sum of all block sizes.
    pub fn total(&self) -> (r: usize)
        requires
            blocks_wf(self@),
        ensures
            r == total_free(self@),
    {
        proof {
            assert(self@.take(0) =~= Seq::<FreeBlock>::empty());
        }
        let n = self.blocks.len();
        let mut acc: usize = 0;
        let mut i: usize = 0;
        while i < n
            invariant
                blocks_wf(self@),
                n == self@.len(),
                0 <= i <= n,
                acc == total_free(self@.take(i as int)),
            decreases n - i,
        {
            proof {
                lemma_prefix_wf(self@, i as int);
                lemma_total_le_start(self@.take(i as int));
                lemma_total_take_succ(self@, i as int);
            }
            acc = acc + self.blocks[i].size;
            i = i + 1;
        }
        proof {
            assert(self@.take(n as int) =~= self@);
        }
        acc
    }

    /// Inserts the released range `[start, start + size)` at its
    /// address-ordered slot, coalescing with a touching predecessor or
    /// successor so that no two free blocks ever touch.  Only a range
    /// that coalesces with neither neighbour draws a fresh descriptor
    /// from the bootstrap allocator; its exhaustion is the one way
    /// this call fails, and it leaves the list unchanged.
    pub fn insert(&mut self, start: usize, size: usize, boot: &mut BootstrapAlloc) -> (r: Result<
        (),
        (),
    >)
        requires
            blocks_wf(old(self)@),
            old(boot).wf(),
            1 <= size,
            start + size <= ARENA_SIZE,
            forall|x: int| start <= x < start + size ==> !covers(old(self)@, x),
        ensures
            blocks_wf(final(self)@),
            final(boot).wf(),
            r is Err <==> (insert_needs_node(old(self)@, start as int, size as int) && !old(
                boot,
            ).has_slot()),
            match r {
                Ok(_) => {
                    &&& forall|x: int| #[trigger] covers(final(self)@, x) <==> (covers(old(self)@,
                        x) || (start <= x < start + size))
                    &&& total_free(final(self)@) == total_free(old(self)@) + size
                    &&& final(boot).cursor() == old(boot).cursor() + (
                    if insert_needs_node(old(self)@, start as int, size as int) {
                        crate::bootstrap::META_NODE_SIZE as int
                    } else {
                        0
                    })
                },
                Err(_) => {
                    &&& final(self)@ == old(self)@
                    &&& *final(boot) == *old(boot)
                },
            },
    {
        let ghost bs = self@;
        let n = self.blocks.len();
        let mut j: usize = 0;
        while j < n && self.blocks[j].start <= start
            invariant
                n == self@.len(),
                self@ == bs,
                0 <= j <= n,
                forall|k: int| 0 <= k < j ==> (#[trigger] bs[k]).start <= start,
            decreases n - j,
        {
            j = j + 1;
        }
        proof {
            lemma_insert_pos_characterization(bs, start as int);
            let p = insert_pos(bs, start as int);
            if j < p {
                assert(bs[j as int].start <= start);
            }
            if p < j {
                assert(bs[p].start <= start);
            }
            assert(j == p);
            lemma_insert_result(bs, start as int, size as int);
        }
        let mut pred_touch = false;
        if j > 0 {
            let p = self.blocks[j - 1];
            pred_touch = p.start + p.size == start;
        }
        let mut succ_touch = false;
        if j < n {
            succ_touch = self.blocks[j].start == start + size;
        }
        if pred_touch && succ_touch {
            let p = self.blocks[j - 1];
            let q = self.blocks[j];
            proof {
                lemma_blocks_ordered(bs, j - 1 as int, j as int);
            }
            self.blocks[j - 1] = FreeBlock { start: p.start, size: p.size + size + q.size };
            self.blocks.remove(j);
            proof {
                assert(self@ == insert_result(bs, start as int, size as int));
            }
            Ok(())
        } else if pred_touch {
            let p = self.blocks[j - 1];
            self.blocks[j - 1] = FreeBlock { start: p.start, size: p.size + size };
            proof {
                assert(self@ == insert_result(bs, start as int, size as int));
            }
            Ok(())
        } else if succ_touch {
            let q = self.blocks[j];
            self.blocks[j] = FreeBlock { start, size: size + q.size };
            proof {
                assert(self@ == insert_result(bs, start as int, size as int));
            }
            Ok(())
        } else {
            match boot.alloc_node() {
                None => Err(()),
                Some(_slot) => {
                    self.blocks.insert(j, FreeBlock { start, size });
                    proof {
                        assert(self@ == insert_result(bs, start as int, size as int));
                    }
                    Ok(())
                },
            }
        }
    }
}

/// The aligned offset that a request carves out of block `i`.
pub open spec fn split_off(bs: Seq<FreeBlock>, i: int, align: int) -> int {
    spec_align_up(bs[i].start as int, align)
}

/// The list that remains after carving the request out of block `i`:
/// the padding in front of the aligned offset and the remainder behind
/// the carved bytes stay free, each under its own descriptor.
pub open spec fn split_result(bs: Seq<FreeBlock>, i: int, size: int, align: int) -> Seq<
    FreeBlock,
> {
    let b = bs[i];
    let a = split_off(bs, i, align);
    let pad = a - b.start;
    let tail = b.end() - (a + size);
    let front = FreeBlock { start: b.start, size: pad as usize };
    let back = FreeBlock { start: (a + size) as usize, size: tail as usize };
    if pad > 0 && tail > 0 {
        bs.update(i, front).insert(i + 1, back)
    } else if pad > 0 {
        bs.update(i, front)
    } else if tail > 0 {
        bs.update(i, back)
    } else {
        bs.remove(i)
    }
}

/// Carving a fitting request out of block `i` removes exactly the
/// carved bytes from the free set, keeps the list well formed, and
/// lowers the free-byte total by exactly the request size.
pub proof fn lemma_split_result(bs: Seq<FreeBlock>, i: int, size: int, align: int)
    requires
        blocks_wf(bs),
        0 <= i < bs.len(),
        1 <= size,
        1 <= align,
        block_fits(bs[i], size, align),
    ensures
        blocks_wf(split_result(bs, i, size, align)),
        forall|x: int| #[trigger] covers(split_result(bs, i, size, align), x) <==> (covers(bs, x)
            && !(split_off(bs, i, align) <= x < split_off(bs, i, align) + size)),
        forall|x: int| split_off(bs, i, align) <= x < split_off(bs, i, align) + size ==> covers(
            bs, x),
        total_free(split_result(bs, i, size, align)) == total_free(bs) - size,
{
    let a = split_off(bs, i, align);
    lemma_align_up_props(bs[i].start as int, align);
    assert forall|x: int| a <= x < a + size implies covers(bs, x) by {
        assert(bs[i].contains(x));
    }
    if bs[i].start < a && a + size < bs[i].end() {
        lemma_split_case_both(bs, i, size, align);
    } else if bs[i].start < a || a + size < bs[i].end() {
        lemma_split_case_one_side(bs, i, size, align);
    } else {
        lemma_split_case_exact(bs, i, size, align);
    }
}

/// Case of `lemma_split_result` where padding and remainder are both
/// retained, under two descriptors.
#[verifier::spinoff_prover]
#[verifier::rlimit(100)]
proof fn lemma_split_case_both(bs: Seq<FreeBlock>, i: int, size: int, align: int)
    requires
        blocks_wf(bs),
        0 <= i < bs.len(),
        1 <= size,
        1 <= align,
        block_fits(bs[i], size, align),
        bs[i].start < split_off(bs, i, align),
        split_off(bs, i, align) + size < bs[i].end(),
    ensures
        blocks_wf(split_result(bs, i, size, align)),
        forall|x: int| #[trigger] covers(split_result(bs, i, size, align), x) <==> (covers(bs, x)
            && !(split_off(bs, i, align) <= x < split_off(bs, i, align) + size)),
        total_free(split_result(bs, i, size, align)) == total_free(bs) - size,
{
    let b = bs[i];
    let s = b.start as int;
    let e = b.end();
    let a = split_off(bs, i, align);
    let pad = a - s;
    let tail = e - (a + size);
    let front = FreeBlock { start: b.start, size: pad as usize };
    let back = FreeBlock { start: (a + size) as usize, size: tail as usize };
    let new = split_result(bs, i, size, align);
    lemma_align_up_props(s, align);
    assert(new == bs.update(i, front).insert(i + 1, back));
    lemma_total_update(bs, i, front);
    lemma_total_insert(bs.update(i, front), i + 1, back);
    assert forall|j: int| 0 <= j < new.len() implies (#[trigger] new[j]).wf() by {
        if j > i + 1 {
            assert(new[j] == bs[j - 1]);
        }
    }
    assert forall|j: int| 0 <= j && j + 1 < new.len() implies (#[trigger] new[j]).end() < new[j
        + 1].start by {
        if j + 1 < i {
            assert(new[j] == bs[j] && new[j + 1] == bs[j + 1]);
        } else if j + 1 == i {
            assert(new[j] == bs[j] && new[i] == front);
        } else if j > i + 1 {
            assert(new[j] == bs[j - 1] && new[j + 1] == bs[j]);
        }
    }
    assert forall|x: int| #[trigger] covers(new, x) <==> (covers(bs, x) && !(a <= x < a + size))
        by {
        if covers(new, x) {
            let k = choose|k: int| 0 <= k < new.len() && (#[trigger] new[k]).contains(x);
            if k < i {
                assert(bs[k].contains(x));
                lemma_blocks_disjoint(bs, k, i, x);
            } else if k <= i + 1 {
                assert(bs[i].contains(x));
            } else {
                assert(new[k] == bs[k - 1]);
                assert(bs[k - 1].contains(x));
                lemma_blocks_disjoint(bs, k - 1, i, x);
            }
        }
        if covers(bs, x) && !(a <= x < a + size) {
            let k = choose|k: int| 0 <= k < bs.len() && (#[trigger] bs[k]).contains(x);
            if k < i {
                assert(new[k].contains(x));
            } else if k == i {
                if x < a {
                    assert(new[i].contains(x));
                } else {
                    assert(new[i + 1].contains(x));
                }
            } else {
                assert(new[k + 1] == bs[k]);
                assert(new[k + 1].contains(x));
            }
        }
    }
}

/// Case of `lemma_split_result` where exactly one of padding and
/// remainder is retained: the descriptor is shrunk in place.
#[verifier::spinoff_prover]
#[verifier::rlimit(100)]
proof fn lemma_split_case_one_side(bs: Seq<FreeBlock>, i: int, size: int, align: int)
    requires
        blocks_wf(bs),
        0 <= i < bs.len(),
        1 <= size,
        1 <= align,
        block_fits(bs[i], size, align),
        bs[i].start < split_off(bs, i, align) || split_off(bs, i, align) + size < bs[i].end(),
        !(bs[i].start < split_off(bs, i, align) && split_off(bs, i, align) + size < bs[i].end()),
    ensures
        blocks_wf(split_result(bs, i, size, align)),
        forall|x: int| #[trigger] covers(split_result(bs, i, size, align), x) <==> (covers(bs, x)
            && !(split_off(bs, i, align) <= x < split_off(bs, i, align) + size)),
        total_free(split_result(bs, i, size, align)) == total_free(bs) - size,
{
    let b = bs[i];
    let s = b.start as int;
    let e = b.end();
    let a = split_off(bs, i, align);
    let pad = a - s;
    let tail = e - (a + size);
    let front = FreeBlock { start: b.start, size: pad as usize };
    let back = FreeBlock { start: (a + size) as usize, size: tail as usize };
    let new = split_result(bs, i, size, align);
    lemma_align_up_props(s, align);
    let repl = if pad > 0 {
        front
    } else {
        back
    };
    assert(new == bs.update(i, repl));
    lemma_total_update(bs, i, repl);
    assert forall|x: int| #[trigger] covers(new, x) <==> (covers(bs, x) && !(a <= x < a + size))
        by {
        if covers(new, x) {
            let k = choose|k: int| 0 <= k < new.len() && (#[trigger] new[k]).contains(x);
            if k != i {
                assert(bs[k].contains(x));
                lemma_blocks_disjoint(bs, k, i, x);
            } else {
                assert(bs[i].contains(x));
            }
        }
        if covers(bs, x) && !(a <= x < a + size) {
            let k = choose|k: int| 0 <= k < bs.len() && (#[trigger] bs[k]).contains(x);
            assert(new[k].contains(x));
        }
    }
}

/// Case of `lemma_split_result` where the request consumes the block
/// exactly and its descriptor is unlinked.
#[verifier::spinoff_prover]
#[verifier::rlimit(100)]
proof fn lemma_split_case_exact(bs: Seq<FreeBlock>, i: int, size: int, align: int)
    requires
        blocks_wf(bs),
        0 <= i < bs.len(),
        1 <= size,
        1 <= align,
        block_fits(bs[i], size, align),
        bs[i].start == split_off(bs, i, align),
        split_off(bs, i, align) + size == bs[i].end(),
    ensures
        blocks_wf(split_result(bs, i, size, align)),
        forall|x: int| #[trigger] covers(split_result(bs, i, size, align), x) <==> (covers(bs, x)
            && !(split_off(bs, i, align) <= x < split_off(bs, i, align) + size)),
        total_free(split_result(bs, i, size, align)) == total_free(bs) - size,
{
    let a = split_off(bs, i, align);
    let new = split_result(bs, i, size, align);
    lemma_align_up_props(bs[i].start as int, align);
    assert(new == bs.remove(i));
    lemma_total_remove(bs, i);
    assert forall|j: int| 0 <= j < new.len() implies (#[trigger] new[j]).wf() by {
        if j >= i {
            assert(new[j] == bs[j + 1]);
        }
    }
    assert forall|j: int| 0 <= j && j + 1 < new.len() implies (#[trigger] new[j]).end() < new[j
        + 1].start by {
        if j + 1 < i {
            assert(new[j] == bs[j] && new[j + 1] == bs[j + 1]);
        } else if j + 1 == i {
            assert(new[j] == bs[j] && new[j + 1] == bs[i + 1]);
            assert(bs[j].end() < bs[i].start);
            assert(bs[i].end() < bs[i + 1].start);
        } else {
            assert(new[j] == bs[j + 1] && new[j + 1] == bs[j + 2]);
        }
    }
    assert forall|x: int| #[trigger] covers(new, x) <==> (covers(bs, x) && !(a <= x < a + size))
        by {
        if covers(new, x) {
            let k = choose|k: int| 0 <= k < new.len() && (#[trigger] new[k]).contains(x);
            if k < i {
                assert(bs[k].contains(x));
                lemma_blocks_disjoint(bs, k, i, x);
            } else {
                assert(new[k] == bs[k + 1]);
                assert(bs[k + 1].contains(x));
                lemma_blocks_disjoint(bs, k + 1, i, x);
            }
        }
        if covers(bs, x) && !(a <= x < a + size) {
            let k = choose|k: int| 0 <= k < bs.len() && (#[trigger] bs[k]).contains(x);
            if k < i {
                assert(new[k].contains(x));
            } else {
                assert(k != i);
                assert(new[k - 1] == bs[k]);
                assert(new[k - 1].contains(x));
            }
        }
    }
}


/// The address-ordered position at which a released range starting at
/// `start` belongs: the index of the first block above it.
pub open spec fn insert_pos(bs: Seq<FreeBlock>, start: int) -> int
    decreases bs.len(),
{
    if bs.len() == 0 {
        0
    } else if bs[0].start > start {
        0
    } else {
        1 + insert_pos(bs.drop_first(), start)
    }
}

/// `insert_pos` finds the one index that splits the list into blocks
/// at or below `start` and blocks above it.
pub proof fn lemma_insert_pos_characterization(bs: Seq<FreeBlock>, start: int)
    ensures
        0 <= insert_pos(bs, start) <= bs.len(),
        forall|k: int| 0 <= k < insert_pos(bs, start) ==> (#[trigger] bs[k]).start <= start,
        insert_pos(bs, start) < bs.len() ==> bs[insert_pos(bs, start)].start > start,
    decreases bs.len(),
{
    if bs.len() > 0 && !(bs[0].start > start) {
        let rest = bs.drop_first();
        lemma_insert_pos_characterization(rest, start);
        assert forall|k: int| 0 <= k < insert_pos(bs, start) implies (#[trigger] bs[k]).start
            <= start by {
            if k > 0 {
                assert(rest[k - 1] == bs[k]);
                assert(rest[k - 1].start <= start);
            }
        }
    }
}

/// Whether inserting the released range `[start, start + size)` needs
/// a fresh descriptor: it coalesces with no neighbour, neither with a
/// predecessor ending exactly at `start` nor with a successor starting
/// exactly at `start + size`.
pub open spec fn insert_needs_node(bs: Seq<FreeBlock>, start: int, size: int) -> bool {
    let j = insert_pos(bs, start);
    &&& !(j > 0 && bs[j - 1].end() == start)
    &&& !(j < bs.len() && bs[j].start == start + size)
}

/// The list after inserting the released range `[start, start + size)`
/// at its address-ordered position: a touching predecessor is extended
/// in place, a touching successor is merged in and unlinked, and only
/// an isolated range gets a descriptor of its own.
pub open spec fn insert_result(bs: Seq<FreeBlock>, start: int, size: int) -> Seq<FreeBlock> {
    let j = insert_pos(bs, start);
    let pred_touch = j > 0 && bs[j - 1].end() == start;
    let succ_touch = j < bs.len() && bs[j].start == start + size;
    if pred_touch && succ_touch {
        bs.update(j - 1, FreeBlock {
            start: bs[j - 1].start,
            size: (bs[j - 1].size + size + bs[j].size) as usize,
        }).remove(j)
    } else if pred_touch {
        bs.update(j - 1, FreeBlock { start: bs[j - 1].start, size: (bs[j - 1].size + size) as usize })
    } else if succ_touch {
        bs.update(j, FreeBlock { start: start as usize, size: (size + bs[j].size) as usize })
    } else {
        bs.insert(j, FreeBlock { start: start as usize, size: size as usize })
    }
}

/// Inserting a released range that overlaps no free block adds exactly
/// its bytes to the free set, keeps the list well formed and strictly
/// coalesced, and raises the free-byte total by exactly its size.
pub proof fn lemma_insert_result(bs: Seq<FreeBlock>, start: int, size: int)
    requires
        blocks_wf(bs),
        0 <= start,
        1 <= size,
        start + size <= ARENA_SIZE,
        forall|x: int| start <= x < start + size ==> !covers(bs, x),
    ensures
        blocks_wf(insert_result(bs, start, size)),
        forall|x: int| #[trigger] covers(insert_result(bs, start, size), x) <==> (covers(bs, x)
            || (start <= x < start + size)),
        total_free(insert_result(bs, start, size)) == total_free(bs) + size,
{
    let j = insert_pos(bs, start);
    let n = bs.len() as int;
    let new = insert_result(bs, start, size);
    lemma_insert_pos_characterization(bs, start);
    if j > 0 {
        assert(!covers(bs, start));
        assert(!bs[j - 1].contains(start));
        assert(bs[j - 1].end() <= start);
    }
    if j < n {
        if bs[j].start < start + size {
            assert(bs[j].contains(bs[j].start as int));
            assert(covers(bs, bs[j].start as int));
            assert(false);
        }
        assert(bs[j].start >= start + size);
    }
    let pred_touch = j > 0 && bs[j - 1].end() == start;
    let succ_touch = j < n && bs[j].start == start + size;
    if pred_touch && succ_touch {
        lemma_insert_case_merge_both(bs, start, size);
    } else if pred_touch {
        lemma_insert_case_extend_pred(bs, start, size);
    } else if succ_touch {
        lemma_insert_case_extend_succ(bs, start, size);
    } else {
        lemma_insert_case_fresh_node(bs, start, size);
    }
}

/// Case of `lemma_insert_result` where the range touches both
/// neighbours: the predecessor absorbs range and successor.
#[verifier::spinoff_prover]
#[verifier::rlimit(100)]
proof fn lemma_insert_case_merge_both(bs: Seq<FreeBlock>, start: int, size: int)
    requires
        blocks_wf(bs),
        0 <= start,
        1 <= size,
        start + size <= ARENA_SIZE,
        forall|x: int| start <= x < start + size ==> !covers(bs, x),
        insert_pos(bs, start) > 0 && bs[insert_pos(bs, start) - 1].end() == start,
        insert_pos(bs, start) < bs.len() && bs[insert_pos(bs, start)].start == start + size,
    ensures
        blocks_wf(insert_result(bs, start, size)),
        forall|x: int| #[trigger] covers(insert_result(bs, start, size), x) <==> (covers(bs, x)
            || (start <= x < start + size)),
        total_free(insert_result(bs, start, size)) == total_free(bs) + size,
{
    let j = insert_pos(bs, start);
    let n = bs.len() as int;
    let new = insert_result(bs, start, size);
    lemma_insert_pos_characterization(bs, start);
    if j > 0 {
        assert(!covers(bs, start));
        assert(!bs[j - 1].contains(start));
        assert(bs[j - 1].end() <= start);
    }
    if j < n {
        if bs[j].start < start + size {
            assert(bs[j].contains(bs[j].start as int));
            assert(covers(bs, bs[j].start as int));
            assert(false);
        }
        assert(bs[j].start >= start + size);
    }
    let m = FreeBlock {
        start: bs[j - 1].start,
        size: (bs[j - 1].size + size + bs[j].size) as usize,
    };
    let u = bs.update(j - 1, m);
    assert(new == u.remove(j));
    lemma_total_update(bs, j - 1, m);
    lemma_total_remove(u, j);
    assert forall|k: int| 0 <= k < new.len() implies (#[trigger] new[k]).wf() by {
        if k >= j {
            assert(new[k] == bs[k + 1]);
        }
    }
    assert forall|k: int| 0 <= k && k + 1 < new.len() implies (#[trigger] new[k]).end() < new[k
        + 1].start by {
        if k + 1 < j - 1 {
            assert(new[k] == bs[k] && new[k + 1] == bs[k + 1]);
        } else if k + 1 == j - 1 {
            assert(new[k] == bs[k] && new[k + 1] == m);
        } else if k == j - 1 {
            assert(new[k] == m && new[k + 1] == bs[j + 1]);
            assert(bs[j].end() < bs[j + 1].start);
        } else {
            assert(new[k] == bs[k + 1] && new[k + 1] == bs[k + 2]);
        }
    }
    assert forall|x: int| #[trigger] covers(new, x) <==> (covers(bs, x) || (start <= x < start
        + size)) by {
        if covers(new, x) {
            let k = choose|k: int| 0 <= k < new.len() && (#[trigger] new[k]).contains(x);
            if k < j - 1 {
                assert(bs[k].contains(x));
            } else if k == j - 1 {
                if x < start {
                    assert(bs[j - 1].contains(x));
                } else if x >= start + size {
                    assert(bs[j].contains(x));
                }
            } else {
                assert(new[k] == bs[k + 1]);
                assert(bs[k + 1].contains(x));
            }
        }
        if covers(bs, x) {
            let k = choose|k: int| 0 <= k < bs.len() && (#[trigger] bs[k]).contains(x);
            if k < j - 1 {
                assert(new[k].contains(x));
            } else if k == j - 1 || k == j {
                assert(new[j - 1].contains(x));
            } else {
                assert(new[k - 1] == bs[k]);
                assert(new[k - 1].contains(x));
            }
        }
        if start <= x < start + size {
            assert(new[j - 1].contains(x));
        }
    }
}

/// Case of `lemma_insert_result` where only the predecessor touches
/// the range and is extended in place.
#[verifier::spinoff_prover]
#[verifier::rlimit(100)]
proof fn lemma_insert_case_extend_pred(bs: Seq<FreeBlock>, start: int, size: int)
    requires
        blocks_wf(bs),
        0 <= start,
        1 <= size,
        start + size <= ARENA_SIZE,
        forall|x: int| start <= x < start + size ==> !covers(bs, x),
        insert_pos(bs, start) > 0 && bs[insert_pos(bs, start) - 1].end() == start,
        !(insert_pos(bs, start) < bs.len() && bs[insert_pos(bs, start)].start == start + size),
    ensures
        blocks_wf(insert_result(bs, start, size)),
        forall|x: int| #[trigger] covers(insert_result(bs, start, size), x) <==> (covers(bs, x)
            || (start <= x < start + size)),
        total_free(insert_result(bs, start, size)) == total_free(bs) + size,
{
    let j = insert_pos(bs, start);
    let n = bs.len() as int;
    let new = insert_result(bs, start, size);
    lemma_insert_pos_characterization(bs, start);
    if j > 0 {
        assert(!covers(bs, start));
        assert(!bs[j - 1].contains(start));
        assert(bs[j - 1].end() <= start);
    }
    if j < n {
        if bs[j].start < start + size {
            assert(bs[j].contains(bs[j].start as int));
            assert(covers(bs, bs[j].start as int));
            assert(false);
        }
        assert(bs[j].start >= start + size);
    }
    let m = FreeBlock { start: bs[j - 1].start, size: (bs[j - 1].size + size) as usize };
    assert(new == bs.update(j - 1, m));
    lemma_total_update(bs, j - 1, m);
    assert forall|k: int| 0 <= k && k + 1 < new.len() implies (#[trigger] new[k]).end() < new[k
        + 1].start by {
        if k == j - 1 {
            assert(new[k] == m && new[k + 1] == bs[j]);
            assert(bs[j].start >= start + size && bs[j].start != start + size);
        }
    }
    assert forall|x: int| #[trigger] covers(new, x) <==> (covers(bs, x) || (start <= x < start
        + size)) by {
        if covers(new, x) {
            let k = choose|k: int| 0 <= k < new.len() && (#[trigger] new[k]).contains(x);
            if k == j - 1 {
                if x < start {
                    assert(bs[j - 1].contains(x));
                }
            } else {
                assert(bs[k].contains(x));
            }
        }
        if covers(bs, x) {
            let k = choose|k: int| 0 <= k < bs.len() && (#[trigger] bs[k]).contains(x);
            assert(new[k].contains(x));
        }
        if start <= x < start + size {
            assert(new[j - 1].contains(x));
        }
    }
}

/// Case of `lemma_insert_result` where only the successor touches the
/// range and is extended downwards in place.
#[verifier::spinoff_prover]
#[verifier::rlimit(100)]
proof fn lemma_insert_case_extend_succ(bs: Seq<FreeBlock>, start: int, size: int)
    requires
        blocks_wf(bs),
        0 <= start,
        1 <= size,
        start + size <= ARENA_SIZE,
        forall|x: int| start <= x < start + size ==> !covers(bs, x),
        !(insert_pos(bs, start) > 0 && bs[insert_pos(bs, start) - 1].end() == start),
        insert_pos(bs, start) < bs.len() && bs[insert_pos(bs, start)].start == start + size,
    ensures
        blocks_wf(insert_result(bs, start, size)),
        forall|x: int| #[trigger] covers(insert_result(bs, start, size), x) <==> (covers(bs, x)
            || (start <= x < start + size)),
        total_free(insert_result(bs, start, size)) == total_free(bs) + size,
{
    let j = insert_pos(bs, start);
    let n = bs.len() as int;
    let new = insert_result(bs, start, size);
    lemma_insert_pos_characterization(bs, start);
    if j > 0 {
        assert(!covers(bs, start));
        assert(!bs[j - 1].contains(start));
        assert(bs[j - 1].end() <= start);
    }
    if j < n {
        if bs[j].start < start + size {
            assert(bs[j].contains(bs[j].start as int));
            assert(covers(bs, bs[j].start as int));
            assert(false);
        }
        assert(bs[j].start >= start + size);
    }
    let m = FreeBlock { start: start as usize, size: (size + bs[j].size) as usize };
    assert(new == bs.update(j, m));
    lemma_total_update(bs, j, m);
    assert forall|k: int| 0 <= k && k + 1 < new.len() implies (#[trigger] new[k]).end() < new[k
        + 1].start by {
        if k + 1 == j {
            assert(new[k] == bs[k] && new[j] == m);
            assert(bs[j - 1].end() <= start && bs[j - 1].end() != start);
        } else if k == j {
            assert(new[k] == m && new[k + 1] == bs[j + 1]);
        }
    }
    assert forall|x: int| #[trigger] covers(new, x) <==> (covers(bs, x) || (start <= x < start
        + size)) by {
        if covers(new, x) {
            let k = choose|k: int| 0 <= k < new.len() && (#[trigger] new[k]).contains(x);
            if k == j {
                if x >= start + size {
                    assert(bs[j].contains(x));
                }
            } else {
                assert(bs[k].contains(x));
            }
        }
        if covers(bs, x) {
            let k = choose|k: int| 0 <= k < bs.len() && (#[trigger] bs[k]).contains(x);
            assert(new[k].contains(x));
        }
        if start <= x < start + size {
            assert(new[j].contains(x));
        }
    }
}

/// Case of `lemma_insert_result` where the range touches neither
/// neighbour and a fresh descriptor is linked in.
#[verifier::spinoff_prover]
#[verifier::rlimit(100)]
proof fn lemma_insert_case_fresh_node(bs: Seq<FreeBlock>, start: int, size: int)
    requires
        blocks_wf(bs),
        0 <= start,
        1 <= size,
        start + size <= ARENA_SIZE,
        forall|x: int| start <= x < start + size ==> !covers(bs, x),
        insert_needs_node(bs, start, size),
    ensures
        blocks_wf(insert_result(bs, start, size)),
        forall|x: int| #[trigger] covers(insert_result(bs, start, size), x) <==> (covers(bs, x)
            || (start <= x < start + size)),
        total_free(insert_result(bs, start, size)) == total_free(bs) + size,
{
    let j = insert_pos(bs, start);
    let n = bs.len() as int;
    let new = insert_result(bs, start, size);
    lemma_insert_pos_characterization(bs, start);
    if j > 0 {
        assert(!covers(bs, start));
        assert(!bs[j - 1].contains(start));
        assert(bs[j - 1].end() <= start);
    }
    if j < n {
        if bs[j].start < start + size {
            assert(bs[j].contains(bs[j].start as int));
            assert(covers(bs, bs[j].start as int));
            assert(false);
        }
        assert(bs[j].start >= start + size);
    }
    let m = FreeBlock { start: start as usize, size: size as usize };
    assert(new == bs.insert(j, m));
    lemma_total_insert(bs, j, m);
    assert forall|k: int| 0 <= k < new.len() implies (#[trigger] new[k]).wf() by {
        if k > j {
            assert(new[k] == bs[k - 1]);
        }
    }
    assert forall|k: int| 0 <= k && k + 1 < new.len() implies (#[trigger] new[k]).end() < new[k
        + 1].start by {
        if k + 1 < j {
            assert(new[k] == bs[k] && new[k + 1] == bs[k + 1]);
        } else if k + 1 == j {
            assert(new[k] == bs[k] && new[j] == m);
            assert(bs[j - 1].end() <= start && bs[j - 1].end() != start);
        } else if k == j {
            assert(new[k + 1] == bs[j]);
            assert(bs[j].start >= start + size && bs[j].start != start + size);
        } else {
            assert(new[k] == bs[k - 1] && new[k + 1] == bs[k]);
        }
    }
    assert forall|x: int| #[trigger] covers(new, x) <==> (covers(bs, x) || (start <= x < start
        + size)) by {
        if covers(new, x) {
            let k = choose|k: int| 0 <= k < new.len() && (#[trigger] new[k]).contains(x);
            if k < j {
                assert(bs[k].contains(x));
            } else if k > j {
                assert(new[k] == bs[k - 1]);
                assert(bs[k - 1].contains(x));
            }
        }
        if covers(bs, x) {
            let k = choose|k: int| 0 <= k < bs.len() && (#[trigger] bs[k]).contains(x);
            if k < j {
                assert(new[k].contains(x));
            } else {
                assert(new[k + 1] == bs[k]);
                assert(new[k + 1].contains(x));
            }
        }
        if start <= x < start + size {
            assert(new[j].contains(x));
        }
    }
}

/// A prefix of a well-formed list is well formed.
pub proof fn lemma_prefix_wf(bs: Seq<FreeBlock>, i: int)
    requires
        blocks_wf(bs),
        0 <= i <= bs.len(),
    ensures
        blocks_wf(bs.take(i)),
{
    assert forall|j: int| 0 <= j < i implies (#[trigger] bs.take(i)[j]).wf() by {
        assert(bs.take(i)[j] == bs[j]);
    }
}

/// A well-formed list holds at most the arena's bytes: all blocks lie
/// between the first block's start and the arena's end, disjointly.
pub proof fn lemma_total_le_start(bs: Seq<FreeBlock>)
    requires
        blocks_wf(bs),
    ensures
        bs.len() == 0 ==> total_free(bs) == 0,
        bs.len() > 0 ==> total_free(bs) <= ARENA_SIZE - bs[0].start,
        total_free(bs) <= ARENA_SIZE,
    decreases bs.len(),
{
    if bs.len() > 0 {
        let rest = bs.drop_first();
        assert forall|j: int| 0 <= j < rest.len() implies (#[trigger] rest[j]).wf() by {
            assert(rest[j] == bs[j + 1]);
        }
        assert forall|j: int| 0 <= j && j + 1 < rest.len() implies (#[trigger] rest[j]).end()
            < rest[j + 1].start by {
            assert(rest[j] == bs[j + 1] && rest[j + 1] == bs[j + 2]);
        }
        lemma_total_le_start(rest);
        if rest.len() > 0 {
            assert(rest[0] == bs[1]);
            assert(bs[0].end() < bs[1].start);
        }
    }
}

/// Extending a prefix by one block adds that block's size to its
/// free-byte total.
pub proof fn lemma_total_take_succ(bs: Seq<FreeBlock>, i: int)
    requires
        0 <= i < bs.len(),
    ensures
        total_free(bs.take(i + 1)) == total_free(bs.take(i)) + bs[i].size,
    decreases i,
{
    if i == 0 {
        assert(bs.take(1)[0] == bs[0]);
        assert(bs.take(1).drop_first() =~= Seq::<FreeBlock>::empty());
        assert(bs.take(0) =~= Seq::<FreeBlock>::empty());
    } else {
        assert(bs.take(i + 1)[0] == bs[0]);
        assert(bs.take(i)[0] == bs[0]);
        assert(bs.take(i + 1).drop_first() =~= bs.drop_first().take(i));
        assert(bs.take(i).drop_first() =~= bs.drop_first().take(i - 1));
        assert(bs.drop_first()[i - 1] == bs[i]);
        lemma_total_take_succ(bs.drop_first(), i - 1);
    }
}

} // verus!

