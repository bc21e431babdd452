//! The global-allocator adapter's state: one heap, first uninitialized,
//! then initialized exactly once, then serving allocations and frees for
//! the rest of the process's life.
//!
//! The kernel keeps a single instance of this state in a process-wide
//! variable behind a mutual-exclusion lock, held for the whole of each
//! call; that lock and that variable live outside the verified library,
//! which holds the state itself and every decision taken on it.

use crate::free_bytes;
use crate::is_pow2;
use crate::range_set;
use crate::spec_normalize;
use crate::split_fits;
use crate::Heap;
use crate::OutOfMemory;
use crate::MIN_SIZE;
use vstd::prelude::*;

verus! {

/// The process-wide allocator: uninitialized until the kernel's early
/// memory-management step hands it the usable RAM bounds, initialized
/// from then on.  Calling `allocate` or `deallocate` while uninitialized is a
/// fatal precondition violation; the unverified caller must check
/// `is_initialized` and halt instead.
pub struct Allocator {
    /// The managed heap, present once `init` has run.
    pub heap: Option<Heap>,
}

impl Allocator {
    /// The adapter invariant: whatever heap is present is well formed.
    pub open spec fn wf(&self) -> bool {
        self.heap matches Some(h) ==> h.wf()
    }

    /// Whether `init` has run.
    pub open spec fn spec_initialized(&self) -> bool {
        self.heap is Some
    }

    /// An adapter in the uninitialized state: no heap, every call refused.
    pub fn empty() -> (r: Allocator)
        ensures
            !r.spec_initialized(),
            r.wf(),
    {
        Allocator { heap: None }
    }

    /// Whether `init` has run; callers that cannot meet the preconditions
    /// of `allocate` and `deallocate` test this and halt.
    pub fn is_initialized(&self) -> (r: bool)
        ensures
            r == self.spec_initialized(),
    {
        self.heap.is_some()
    }

    /// The one-way transition from uninitialized to initialized: adopts
    /// the region `[heap_base, heap_base + heap_size)` as the heap.  To be
    /// called exactly once, when usable RAM bounds are known; the region
    /// must not be used for anything else afterwards.
    pub fn init(&mut self, heap_base: usize, heap_size: usize)
        requires
            !old(self).spec_initialized(),
            heap_base + heap_size <= usize::MAX,
            heap_size == 0 || heap_size >= MIN_SIZE,
        ensures
            final(self).spec_initialized(),
            final(self).wf(),
            final(self).heap matches Some(h) && h.base == heap_base && h.size == heap_size
                && free_bytes(h.free_list@) == range_set(heap_base as int, heap_size as int),
    {
        self.heap = Some(Heap::new(heap_base, heap_size));
    }

    /// Allocates `size` bytes at alignment `align` (a power of two) from
    /// the heap, first-fit; fails with `OutOfMemory` exactly when no free
    /// chunk holds the normalized request.  The adapter must be
    /// initialized: serving an allocation before `init` is a fatal
    /// precondition violation.
    pub fn allocate(&mut self, size: usize, align: usize) -> (r: Result<usize, OutOfMemory>)
        requires
            old(self).wf(),
            old(self).spec_initialized(),
            is_pow2(align as int),
        ensures
            final(self).wf(),
            final(self).spec_initialized(),
            final(self).heap->0.base == old(self).heap->0.base,
            final(self).heap->0.size == old(self).heap->0.size,
            (r is Err) <==> (forall|j: int|
                0 <= j < old(self).heap->0.free_list@.len() ==> !split_fits(
                    #[trigger] old(self).heap->0.free_list@[j],
                    spec_normalize(size as int),
                    align as int,
                )),
            r matches Ok(a) ==> ({
                let h1 = old(self).heap->0;
                let h2 = final(self).heap->0;
                let n = spec_normalize(size as int);
                &&& a as int % align as int == 0
                &&& h1.base <= a
                &&& a + n <= h1.base + h1.size
                &&& range_set(a as int, n).subset_of(free_bytes(h1.free_list@))
                &&& free_bytes(h2.free_list@) == free_bytes(h1.free_list@).difference(
                    range_set(a as int, n),
                )
            }),
    {
        match &mut self.heap {
            Some(h) => h.allocate_first_fit(size, align),
            None => Err(OutOfMemory),
        }
    }

    /// Frees the block `[addr, addr + size)` previously returned by
    /// `allocate` with this very size.  Returns `false`, touching nothing,
    /// exactly when the free violates the heap's contract — a double
    /// free, a block never handed out, or a range outside the region;
    /// the unverified caller treats that as fatal and halts.  The
    /// alignment is accepted for symmetry with `allocate` and not consulted.
    pub fn deallocate(&mut self, addr: usize, size: usize, _align: usize) -> (ok: bool)
        requires
            old(self).wf(),
            old(self).spec_initialized(),
        ensures
            final(self).wf(),
            final(self).spec_initialized(),
            final(self).heap->0.base == old(self).heap->0.base,
            final(self).heap->0.size == old(self).heap->0.size,
            ok == old(self).heap->0.can_deallocate(addr as int, size as int),
            ok ==> free_bytes(final(self).heap->0.free_list@) == free_bytes(
                old(self).heap->0.free_list@,
            ).union(range_set(addr as int, spec_normalize(size as int))),
            !ok ==> *final(self) == *old(self),
    {
        match &mut self.heap {
            Some(h) => h.try_deallocate(addr, size),
            None => false,
        }
    }
}

} // verus!
