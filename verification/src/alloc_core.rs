//! Allocator Core: the public alloc/dealloc entry points.
//!
//! The core owns the arena bytes, the free list and the bootstrap
//! metadata allocator, validates each request, and keeps the central
//! invariant: every arena byte is either free (on the free list) or
//! live (owned by exactly one outstanding allocation), never both.
//! Live allocations are not tracked at run time — the caller's
//! (offset, size, align) triple is the only record, supplied again at
//! release time — but a ghost sequence of them carries the invariant.
//!
//! The host shim serializes calls: each `allocate` or `deallocate` call is
//! one critical section, so the core itself is a plain sequential
//! state machine `UNINITIALIZED -> READY`, with a permanently `FAILED`
//! state after a fatal bootstrap exhaustion (the permanent-fatal
//! policy: a failed bootstrap is never retried, and every later call
//! is refused at once).

use vstd::prelude::*;

use crate::arena::{ARENA_SIZE, MAX_SUPPORTED_ALIGN, SENTINEL_BYTE};
use crate::bootstrap::{BootstrapAlloc, META_NODE_SIZE};
use crate::free_list::{
    blocks_wf, covers, insert_needs_node, spec_find_fit, split_needs_node, split_off, total_free,
    FreeBlock, FreeMemList,
};

verus! {

/// Every way an allocator call can fail.
#[derive(Clone, Copy, PartialEq, Eq, Structural, Debug)]
pub enum AllocError {
    /// The requested alignment exceeds `MAX_SUPPORTED_ALIGN`;
    /// caller-recoverable, never retried internally.
    UnsupportedAlignment,
    /// No free block is large enough for the request; recoverable only
    /// by the caller releasing other allocations first.
    OutOfMemory,
    /// The bootstrap descriptor storage is exhausted; fatal for the
    /// whole allocator, which refuses all further traffic.
    MetadataExhausted,
    /// A release named bytes outside the arena: a caller contract
    /// breach, detected defensively and left without effect.
    InvalidFree,
}

/// Lifecycle of the allocator singleton.
#[derive(Clone, Copy, PartialEq, Eq, Structural)]
enum AllocState {
    Uninitialized,
    Ready,
    Failed,
}

/// Ghost record of one outstanding allocation: the caller's (offset,
/// size, align) triple.
pub struct LiveSpan {
    pub start: int,
    pub size: int,
    pub align: int,
}

/// A live span that could have been handed out: non-empty, inside the
/// arena, with a supported positive alignment that its offset obeys.
pub open spec fn span_inv(l: LiveSpan) -> bool {
    &&& 0 <= l.start
    &&& 1 <= l.size
    &&& l.start + l.size <= ARENA_SIZE
    &&& 1 <= l.align
    &&& l.start % l.align == 0
}

/// Whether the byte at offset `x` belongs to live span `l`.
pub open spec fn span_contains(l: LiveSpan, x: int) -> bool {
    l.start <= x < l.start + l.size
}

/// Whether two live spans share no byte.
pub open spec fn spans_disjoint(a: LiveSpan, b: LiveSpan) -> bool {
    a.start + a.size <= b.start || b.start + b.size <= a.start
}

pub open spec fn live_wf(ls: Seq<LiveSpan>) -> bool {
    forall|k: int| 0 <= k < ls.len() ==> span_inv(#[trigger] ls[k])
}

pub open spec fn live_pairwise_disjoint(ls: Seq<LiveSpan>) -> bool {
    forall|k1: int, k2: int|
        0 <= k1 < ls.len() && 0 <= k2 < ls.len() && k1 != k2 ==> spans_disjoint(
            #[trigger] ls[k1],
            #[trigger] ls[k2],
        )
}

/// Whether the byte at offset `x` belongs to some live allocation.
pub open spec fn live_covers(ls: Seq<LiveSpan>, x: int) -> bool {
    exists|k: int| 0 <= k < ls.len() && span_contains(#[trigger] ls[k], x)
}

/// Total number of live bytes.
pub open spec fn live_total(ls: Seq<LiveSpan>) -> int
    decreases ls.len(),
{
    if ls.len() == 0 {
        0
    } else {
        ls[0].size + live_total(ls.drop_first())
    }
}

/// Whether the triple (start, size, align) names an outstanding
/// allocation.
pub open spec fn live_has(ls: Seq<LiveSpan>, start: int, size: int, align: int) -> bool {
    exists|k: int|
        0 <= k < ls.len() && #[trigger] ls[k] == LiveSpan { start, size, align }
}

/// Whether a released range passes the defensive bounds validation.
pub open spec fn dealloc_in_bounds(ptr: int, size: int) -> bool {
    1 <= size && 0 <= ptr && ptr + size <= ARENA_SIZE
}

pub proof fn lemma_live_total_push(ls: Seq<LiveSpan>, l: LiveSpan)
    ensures
        live_total(ls.push(l)) == live_total(ls) + l.size,
    decreases ls.len(),
{
    let u = ls.push(l);
    assert(u.len() == ls.len() + 1);
    assert(live_total(u) == u[0].size + live_total(u.drop_first()));
    if ls.len() == 0 {
        assert(u[0] == l);
        assert(u.drop_first() =~= Seq::<LiveSpan>::empty());
        assert(live_total(u.drop_first()) == 0);
    } else {
        assert(u[0] == ls[0]);
        assert(u.drop_first() =~= ls.drop_first().push(l));
        lemma_live_total_push(ls.drop_first(), l);
        assert(live_total(ls) == ls[0].size + live_total(ls.drop_first()));
    }
}

pub proof fn lemma_live_total_remove(ls: Seq<LiveSpan>, k: int)
    requires
        0 <= k < ls.len(),
    ensures
        live_total(ls.remove(k)) == live_total(ls) - ls[k].size,
    decreases ls.len(),
{
    let u = ls.remove(k);
    if k == 0 {
        assert(u =~= ls.drop_first());
    } else {
        assert(u[0] == ls[0]);
        assert(u.drop_first() =~= ls.drop_first().remove(k - 1));
        lemma_live_total_remove(ls.drop_first(), k - 1);
    }
}

/// Recording a freshly carved range as live keeps the partition
/// invariant: the range moved from the free side to the live side and
/// every arena byte still lies on exactly one side.
#[verifier::spinoff_prover]
#[verifier::rlimit(100)]
pub proof fn lemma_live_after_alloc(
    bs: Seq<FreeBlock>,
    nf: Seq<FreeBlock>,
    ls: Seq<LiveSpan>,
    off: int,
    size: int,
    align: int,
)
    requires
        0 <= off,
        1 <= size,
        off + size <= ARENA_SIZE,
        1 <= align,
        off % align == 0,
        live_wf(ls),
        live_pairwise_disjoint(ls),
        forall|x: int| #[trigger] covers(nf, x) <==> (covers(bs, x) && !(off <= x < off + size)),
        forall|x: int| off <= x < off + size ==> covers(bs, x),
        forall|x: int| 0 <= x < ARENA_SIZE ==> #[trigger] covers(bs, x) || live_covers(ls, x),
        forall|x: int| #[trigger] covers(bs, x) ==> !live_covers(ls, x),
    ensures
        live_wf(ls.push(LiveSpan { start: off, size, align })),
        live_pairwise_disjoint(ls.push(LiveSpan { start: off, size, align })),
        forall|x: int|
            0 <= x < ARENA_SIZE ==> #[trigger] covers(nf, x) || live_covers(
                ls.push(LiveSpan { start: off, size, align }),
                x,
            ),
        forall|x: int|
            #[trigger] covers(nf, x) ==> !live_covers(
                ls.push(LiveSpan { start: off, size, align }),
                x,
            ),
{
    let l = LiveSpan { start: off, size, align };
    let nl = ls.push(l);
    let n = ls.len() as int;
    assert forall|k1: int, k2: int|
        0 <= k1 < nl.len() && 0 <= k2 < nl.len() && k1 != k2 implies spans_disjoint(
        #[trigger] nl[k1],
        #[trigger] nl[k2],
    ) by {
        if k1 == n || k2 == n {
            let ko = if k1 == n {
                k2
            } else {
                k1
            };
            let o = ls[ko];
            if !spans_disjoint(o, l) {
                let w = if l.start >= o.start {
                    l.start
                } else {
                    o.start
                };
                assert(span_contains(o, w) && span_contains(l, w));
                assert(covers(bs, w));
                assert(live_covers(ls, w));
            }
        }
    }
    assert forall|x: int| 0 <= x < ARENA_SIZE implies #[trigger] covers(nf, x) || live_covers(
        nl,
        x,
    ) by {
        if off <= x < off + size {
            assert(span_contains(nl[n], x));
        } else if covers(bs, x) {
            assert(covers(nf, x));
        } else {
            let k = choose|k: int| 0 <= k < ls.len() && span_contains(#[trigger] ls[k], x);
            assert(span_contains(nl[k], x));
        }
    }
    assert forall|x: int| #[trigger] covers(nf, x) implies !live_covers(nl, x) by {
        assert(covers(bs, x));
        if live_covers(nl, x) {
            let k = choose|k: int| 0 <= k < nl.len() && span_contains(#[trigger] nl[k], x);
            if k < n {
                assert(span_contains(ls[k], x));
                assert(live_covers(ls, x));
            }
        }
    }
}

/// Releasing live span `k` back to the free side keeps the partition
/// invariant.
#[verifier::spinoff_prover]
#[verifier::rlimit(100)]
pub proof fn lemma_live_after_dealloc(
    bs: Seq<FreeBlock>,
    nf: Seq<FreeBlock>,
    ls: Seq<LiveSpan>,
    k: int,
)
    requires
        0 <= k < ls.len(),
        live_wf(ls),
        live_pairwise_disjoint(ls),
        forall|x: int|
            #[trigger] covers(nf, x) <==> (covers(bs, x) || (ls[k].start <= x < ls[k].start
                + ls[k].size)),
        forall|x: int| 0 <= x < ARENA_SIZE ==> #[trigger] covers(bs, x) || live_covers(ls, x),
        forall|x: int| #[trigger] covers(bs, x) ==> !live_covers(ls, x),
    ensures
        live_wf(ls.remove(k)),
        live_pairwise_disjoint(ls.remove(k)),
        forall|x: int|
            0 <= x < ARENA_SIZE ==> #[trigger] covers(nf, x) || live_covers(ls.remove(k), x),
        forall|x: int| #[trigger] covers(nf, x) ==> !live_covers(ls.remove(k), x),
{
    let nl = ls.remove(k);
    assert forall|x: int| 0 <= x < ARENA_SIZE implies #[trigger] covers(nf, x) || live_covers(
        nl,
        x,
    ) by {
        if !covers(nf, x) {
            assert(!covers(bs, x));
            let k2 = choose|k2: int| 0 <= k2 < ls.len() && span_contains(#[trigger] ls[k2], x);
            assert(k2 != k);
            if k2 < k {
                assert(nl[k2] == ls[k2]);
                assert(span_contains(nl[k2], x));
            } else {
                assert(nl[k2 - 1] == ls[k2]);
                assert(span_contains(nl[k2 - 1], x));
            }
        }
    }
    assert forall|x: int| #[trigger] covers(nf, x) implies !live_covers(nl, x) by {
        if live_covers(nl, x) {
            let k2 = choose|k2: int| 0 <= k2 < nl.len() && span_contains(#[trigger] nl[k2], x);
            let ko = if k2 < k {
                k2
            } else {
                k2 + 1
            };
            assert(nl[k2] == ls[ko]);
            assert(span_contains(ls[ko], x));
            assert(live_covers(ls, x));
            assert(!covers(bs, x));
            assert(ls[k].start <= x < ls[k].start + ls[k].size);
            assert(spans_disjoint(ls[ko], ls[k]));
        }
    }
}

/// The single process-wide fixed-arena allocator: arena bytes, free
/// list, bootstrap metadata cursor and lifecycle state.
pub struct ReallyCoolAllocator {
    arena: Vec<u8>,
    mem_list: FreeMemList,
    boot: BootstrapAlloc,
    state: AllocState,
    live: Ghost<Seq<LiveSpan>>,
}

impl ReallyCoolAllocator {
    /// The free-block descriptors, in ascending address order.
    pub closed spec fn free_blocks(self) -> Seq<FreeBlock> {
        self.mem_list@
    }

    /// The outstanding allocations, in order of allocation.
    pub closed spec fn live(self) -> Seq<LiveSpan> {
        self.live@
    }

    /// The arena's shadow bytes.
    pub closed spec fn arena_bytes(self) -> Seq<u8> {
        self.arena@
    }

    /// Bytes of bootstrap metadata handed out so far.
    pub closed spec fn boot_cursor(self) -> int {
        self.boot.cursor()
    }

    /// Whether one more free-block descriptor can still be issued.
    pub open spec fn boot_has_slot(self) -> bool {
        self.boot_cursor() + META_NODE_SIZE <= crate::bootstrap::META_REGION_SIZE
    }

    pub closed spec fn is_uninitialized(self) -> bool {
        self.state is Uninitialized
    }

    pub closed spec fn is_ready(self) -> bool {
        self.state is Ready
    }

    pub closed spec fn is_failed(self) -> bool {
        self.state is Failed
    }

    /// The free list an incoming request is served from: lazy
    /// initialization means a pristine allocator behaves as one whose
    /// list is the single block spanning the whole arena.
    pub open spec fn effective_free(self) -> Seq<FreeBlock> {
        if self.is_uninitialized() {
            seq![FreeBlock { start: 0, size: ARENA_SIZE }]
        } else {
            self.free_blocks()
        }
    }

    /// The central invariant.  In `READY` state the free list is well
    /// formed and fully coalesced, live allocations are well formed
    /// and mutually disjoint, every arena byte is free or live but
    /// never both, and the byte totals add up to the arena capacity.
    pub closed spec fn inv_ready(self) -> bool {
        &&& blocks_wf(self.free_blocks())
        &&& live_wf(self.live())
        &&& live_pairwise_disjoint(self.live())
        &&& forall|x: int|
            0 <= x < ARENA_SIZE ==> #[trigger] covers(self.free_blocks(), x) || live_covers(
                self.live(),
                x,
            )
        &&& forall|x: int|
            #[trigger] covers(self.free_blocks(), x) ==> !live_covers(self.live(), x)
        &&& total_free(self.free_blocks()) + live_total(self.live()) == ARENA_SIZE
    }

    pub closed spec fn wf(self) -> bool {
        &&& self.arena@.len() == ARENA_SIZE
        &&& self.boot.wf()
        &&& (self.is_uninitialized() ==> self.free_blocks().len() == 0 && self.live().len() == 0)
        &&& (self.is_ready() ==> self.inv_ready())
    }

    /// A fresh, still uninitialized allocator over an arena filled
    /// with the sentinel pattern.
    pub fn new() -> (r: ReallyCoolAllocator)
        ensures
            r.wf(),
            r.is_uninitialized(),
            r.live().len() == 0,
            r.boot_cursor() == 0,
            r.arena_bytes().len() == ARENA_SIZE,
            forall|x: int| 0 <= x < ARENA_SIZE ==> r.arena_bytes()[x] == SENTINEL_BYTE,
    {
        let mut arena: Vec<u8> = Vec::new();
        while arena.len() < ARENA_SIZE
            invariant
                arena@.len() <= ARENA_SIZE,
                forall|x: int| 0 <= x < arena@.len() ==> arena@[x] == SENTINEL_BYTE,
            decreases ARENA_SIZE - arena@.len(),
        {
            arena.push(SENTINEL_BYTE);
        }
        ReallyCoolAllocator {
            arena,
            mem_list: FreeMemList::new(),
            boot: BootstrapAlloc::new(),
            state: AllocState::Uninitialized,
            live: Ghost(Seq::empty()),
        }
    }

    /// Serves an allocation request.  The alignment is validated
    /// first; the free list is lazily initialized on first use; then
    /// the first fitting block in address order is carved.  A returned
    /// offset is aligned to `align` and owns exactly `size` bytes of
    /// the arena exclusively until the matching `deallocate`.  Out of
    /// memory is never retried internally; a bootstrap exhaustion is
    /// fatal and leaves the allocator refusing all further requests.
    #[verifier::rlimit(100)]
    pub fn allocate(&mut self, size: usize, align: usize) -> (r: Result<usize, AllocError>)
        requires
            old(self).wf(),
            1 <= size,
            1 <= align,
        ensures
            final(self).wf(),
            final(self).arena_bytes() == old(self).arena_bytes(),
            align > MAX_SUPPORTED_ALIGN ==> r == Err::<usize, AllocError>(
                AllocError::UnsupportedAlignment,
            ) && *final(self) == *old(self),
            align <= MAX_SUPPORTED_ALIGN && old(self).is_failed() ==> r == Err::<
                usize,
                AllocError,
            >(AllocError::MetadataExhausted) && *final(self) == *old(self),
            align <= MAX_SUPPORTED_ALIGN && old(self).is_uninitialized() && !old(self).boot_has_slot() ==> r == Err::<usize, AllocError>(AllocError::MetadataExhausted)
                && final(self).is_failed() && final(self).free_blocks() == old(self).free_blocks()
                && final(self).live() == old(self).live()
                && final(self).boot_cursor() == old(self).boot_cursor(),
            (align <= MAX_SUPPORTED_ALIGN && (old(self).is_ready() || (old(self).is_uninitialized() && old(self).boot_has_slot()))) ==> ({
                let bs = old(self).effective_free();
                let boot0 = old(self).boot_cursor() + if old(self).is_uninitialized() {
                    META_NODE_SIZE as int
                } else {
                    0
                };
                match spec_find_fit(bs, size as int, align as int) {
                    None => {
                        &&& r == Err::<usize, AllocError>(AllocError::OutOfMemory)
                        &&& final(self).is_ready()
                        &&& final(self).free_blocks() == bs
                        &&& final(self).live() == old(self).live()
                        &&& final(self).boot_cursor() == boot0
                    },
                    Some(i) => {
                        if split_needs_node(bs[i], size as int, align as int) && boot0
                            + META_NODE_SIZE > crate::bootstrap::META_REGION_SIZE {
                            &&& r == Err::<usize, AllocError>(AllocError::MetadataExhausted)
                            &&& final(self).is_failed()
                            &&& final(self).free_blocks() == bs
                            &&& final(self).live() == old(self).live()
                            &&& final(self).boot_cursor() == boot0
                        } else {
                            let off = split_off(bs, i, align as int);
                            &&& r == Ok::<usize, AllocError>(off as usize)
                            &&& off % (align as int) == 0
                            &&& 0 <= off && off + size <= ARENA_SIZE
                            &&& final(self).is_ready()
                            &&& final(self).live() == old(self).live().push(
                                LiveSpan { start: off, size: size as int, align: align as int },
                            )
                            &&& forall|x: int|
                                #[trigger] covers(final(self).free_blocks(), x) <==> (covers(
                                    bs,
                                    x,
                                ) && !(off <= x < off + size))
                            &&& final(self).boot_cursor() == boot0 + (
                            if split_needs_node(bs[i], size as int, align as int) {
                                META_NODE_SIZE as int
                            } else {
                                0
                            })
                        }
                    },
                }
            }),
    {
        if align > MAX_SUPPORTED_ALIGN {
            return Err(AllocError::UnsupportedAlignment);
        }
        match self.state {
            AllocState::Failed => {
                return Err(AllocError::MetadataExhausted);
            },
            AllocState::Uninitialized => {
                match self.boot.alloc_node() {
                    None => {
                        self.state = AllocState::Failed;
                        return Err(AllocError::MetadataExhausted);
                    },
                    Some(_slot) => {
                        self.mem_list = FreeMemList::full_arena();
                        self.state = AllocState::Ready;
                        proof {
                            let bs = self.mem_list@;
                            assert(bs.drop_first() =~= Seq::<FreeBlock>::empty());
                            assert(total_free(bs) == bs[0].size + total_free(bs.drop_first()));
                            assert forall|x: int|
                                0 <= x < ARENA_SIZE implies #[trigger] covers(bs, x)
                                || live_covers(self.live@, x) by {
                                assert(bs[0].contains(x));
                            }
                        }
                    },
                }
            },
            AllocState::Ready => {},
        }
        let ghost bs = self.mem_list@;
        let ghost ls = self.live@;
        match self.mem_list.find_fit(size, align) {
            None => Err(AllocError::OutOfMemory),
            Some(i) => {
                proof {
                    crate::free_list::lemma_find_fit_characterization(
                        bs,
                        size as int,
                        align as int,
                    );
                }
                match self.mem_list.split(i, size, align, &mut self.boot) {
                    Err(_) => {
                        self.state = AllocState::Failed;
                        Err(AllocError::MetadataExhausted)
                    },
                    Ok(off) => {
                        let ghost l = LiveSpan {
                            start: off as int,
                            size: size as int,
                            align: align as int,
                        };
                        proof {
                            lemma_live_after_alloc(
                                bs,
                                self.mem_list@,
                                ls,
                                off as int,
                                size as int,
                                align as int,
                            );
                            lemma_live_total_push(ls, l);
                        }
                        self.live = Ghost(self.live@.push(l));
                        Ok(off)
                    },
                }
            },
        }
    }

    /// Releases the range `[ptr, ptr + size)` handed out by `allocate`,
    /// supplied again with the same size and alignment.  The pointer
    /// is validated against the arena bounds defensively and an
    /// out-of-bounds release is reported as `InvalidFree` with no
    /// state change; a triple that passes the bounds check but names
    /// no outstanding allocation is undefined behaviour, excluded by
    /// contract rather than detected.  Freed bytes are overwritten
    /// with the sentinel pattern, and the range is returned to the
    /// free list with full coalescing.
    #[verifier::rlimit(100)]
    pub fn deallocate(&mut self, ptr: usize, size: usize, align: usize) -> (r: Result<
        (),
        AllocError,
    >)
        requires
            old(self).wf(),
            !old(self).is_failed() && dealloc_in_bounds(ptr as int, size as int) ==> live_has(
                old(self).live(),
                ptr as int,
                size as int,
                align as int,
            ),
        ensures
            final(self).wf(),
            old(self).is_failed() ==> r == Err::<(), AllocError>(AllocError::MetadataExhausted)
                && *final(self) == *old(self),
            !old(self).is_failed() && !dealloc_in_bounds(ptr as int, size as int) ==> r == Err::<
                (),
                AllocError,
            >(AllocError::InvalidFree) && *final(self) == *old(self),
            !old(self).is_failed() && dealloc_in_bounds(ptr as int, size as int) ==> ({
                if insert_needs_node(old(self).free_blocks(), ptr as int, size as int) && !old(self).boot_has_slot() {
                    &&& r == Err::<(), AllocError>(AllocError::MetadataExhausted)
                    &&& final(self).is_failed()
                    &&& final(self).free_blocks() == old(self).free_blocks()
                    &&& final(self).live() == old(self).live()
                    &&& final(self).arena_bytes() == old(self).arena_bytes()
                    &&& final(self).boot_cursor() == old(self).boot_cursor()
                } else {
                    &&& r == Ok::<(), AllocError>(())
                    &&& final(self).is_ready()
                    &&& exists|k: int|
                        0 <= k < old(self).live().len() && old(self).live()[k] == (LiveSpan {
                            start: ptr as int,
                            size: size as int,
                            align: align as int,
                        }) && final(self).live() == old(self).live().remove(k)
                    &&& forall|x: int|
                        #[trigger] covers(final(self).free_blocks(), x) <==> (covers(
                            old(self).free_blocks(),
                            x,
                        ) || (ptr <= x < ptr + size))
                    &&& final(self).arena_bytes().len() == ARENA_SIZE
                    &&& forall|x: int|
                        0 <= x < ARENA_SIZE ==> final(self).arena_bytes()[x] == (
                        if ptr <= x < ptr + size {
                            SENTINEL_BYTE
                        } else {
                            old(self).arena_bytes()[x]
                        })
                    &&& final(self).boot_cursor() == old(self).boot_cursor() + (
                    if insert_needs_node(old(self).free_blocks(), ptr as int, size as int) {
                        META_NODE_SIZE as int
                    } else {
                        0
                    })
                }
            }),
    {
        match self.state {
            AllocState::Failed => {
                return Err(AllocError::MetadataExhausted);
            },
            _ => {},
        }
        if size == 0 || ptr > ARENA_SIZE || size > ARENA_SIZE - ptr {
            return Err(AllocError::InvalidFree);
        }
        match self.state {
            AllocState::Uninitialized => {
                // Unreachable: nothing is outstanding before the first
                // allocation, so no in-bounds release can name a live
                // triple.
                proof {
                    assert(false);
                }
                return Err(AllocError::InvalidFree);
            },
            _ => {},
        }
        let ghost bs = self.mem_list@;
        let ghost ls = self.live@;
        let ghost l = LiveSpan { start: ptr as int, size: size as int, align: align as int };
        let ghost k = choose|k: int| 0 <= k < ls.len() && ls[k] == l;
        proof {
            assert forall|x: int| ptr <= x < ptr + size implies !covers(bs, x) by {
                assert(span_contains(ls[k], x));
                assert(live_covers(ls, x));
                if covers(bs, x) {
                    assert(!live_covers(ls, x));
                }
            }
        }
        match self.mem_list.insert(ptr, size, &mut self.boot) {
            Err(_) => {
                self.state = AllocState::Failed;
                Err(AllocError::MetadataExhausted)
            },
            Ok(_) => {
                let ghost nf = self.mem_list@;
                let ghost boot1 = self.boot;
                let ghost arena0 = self.arena@;
                let mut idx = ptr;
                while idx < ptr + size
                    invariant
                        ptr <= idx <= ptr + size,
                        ptr + size <= ARENA_SIZE,
                        self.arena@.len() == ARENA_SIZE,
                        forall|x: int|
                            0 <= x < ARENA_SIZE ==> self.arena@[x] == (
                            if ptr <= x < idx {
                                SENTINEL_BYTE
                            } else {
                                arena0[x]
                            }),
                        self.mem_list@ == nf,
                        self.boot == boot1,
                        self.live@ == ls,
                        self.state is Ready,
                    decreases ptr + size - idx,
                {
                    self.arena[idx] = SENTINEL_BYTE;
                    idx = idx + 1;
                }
                proof {
                    lemma_live_after_dealloc(bs, nf, ls, k);
                    lemma_live_total_remove(ls, k);
                }
                self.live = Ghost(self.live@.remove(k));
                Ok(())
            },
        }
    }

    /// Whether the allocator has been initialized and is serving
    /// requests.
    pub fn ready(&self) -> (r: bool)
        ensures
            r == self.is_ready(),
    {
        match self.state {
            AllocState::Ready => true,
            _ => false,
        }
    }

    /// Whether a fatal bootstrap exhaustion has shut the allocator
    /// down for good.
    pub fn failed(&self) -> (r: bool)
        ensures
            r == self.is_failed(),
    {
        match self.state {
            AllocState::Failed => true,
            _ => false,
        }
    }

    /// Number of free blocks currently on the list.
    pub fn free_block_count(&self) -> (r: usize)
        ensures
            r == self.free_blocks().len(),
    {
        self.mem_list.len()
    }

    /// Total number of free bytes currently on the list.
    pub fn free_bytes(&self) -> (r: usize)
        requires
            self.wf(),
            self.is_ready(),
        ensures
            r == total_free(self.free_blocks()),
    {
        self.mem_list.total()
    }

    /// Reads one arena byte; until a caller writes it, it holds the
    /// sentinel pattern.
    pub fn read_byte(&self, off: usize) -> (r: u8)
        requires
            self.wf(),
            off < ARENA_SIZE,
        ensures
            r == self.arena_bytes()[off as int],
    {
        self.arena[off]
    }

    /// Writes one arena byte.  Which bytes a caller may touch is part
    /// of its ownership contract: only offsets inside an allocation it
    /// holds.
    pub fn write_byte(&mut self, off: usize, value: u8)
        requires
            old(self).wf(),
            off < ARENA_SIZE,
        ensures
            final(self).wf(),
            final(self).arena_bytes() == old(self).arena_bytes().update(off as int, value),
            final(self).free_blocks() == old(self).free_blocks(),
            final(self).live() == old(self).live(),
            final(self).boot_cursor() == old(self).boot_cursor(),
            final(self).is_ready() == old(self).is_ready(),
            final(self).is_failed() == old(self).is_failed(),
            final(self).is_uninitialized() == old(self).is_uninitialized(),
    {
        self.arena[off] = value;
    }
}

/// The lifecycle states are mutually exclusive and exhaustive.
pub proof fn lemma_states_exclusive(a: ReallyCoolAllocator)
    ensures
        a.is_uninitialized() ==> !a.is_ready() && !a.is_failed(),
        a.is_ready() ==> !a.is_uninitialized() && !a.is_failed(),
        a.is_failed() ==> !a.is_uninitialized() && !a.is_ready(),
        a.is_uninitialized() || a.is_ready() || a.is_failed(),
{
}

/// Everything the central invariant guarantees of a ready allocator,
/// stated over the public views for use outside this module.
pub proof fn lemma_ready_invariant(a: ReallyCoolAllocator)
    requires
        a.wf(),
        a.is_ready(),
    ensures
        blocks_wf(a.free_blocks()),
        live_wf(a.live()),
        live_pairwise_disjoint(a.live()),
        forall|x: int|
            0 <= x < ARENA_SIZE ==> #[trigger] covers(a.free_blocks(), x) || live_covers(
                a.live(),
                x,
            ),
        forall|x: int| #[trigger] covers(a.free_blocks(), x) ==> !live_covers(a.live(), x),
        total_free(a.free_blocks()) + live_total(a.live()) == ARENA_SIZE,
{
}

} // verus!
