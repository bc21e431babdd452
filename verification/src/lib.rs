//! A first-fit dynamic-memory allocator for a single fixed region, modelled
//! as a sorted list of free chunks with alignment-aware splitting on
//! allocation and adjacency-based coalescing on deallocation.

use vstd::arithmetic::div_mod::lemma_fundamental_div_mod;
use vstd::arithmetic::div_mod::lemma_mod_division_less_than_divisor;
use vstd::arithmetic::div_mod::lemma_mod_multiples_basic;
use vstd::arithmetic::div_mod::lemma_small_mod;
use vstd::arithmetic::div_mod::lemma_add_mod_noop;
use vstd::arithmetic::div_mod::lemma_fundamental_div_mod_converse_mod;
use vstd::arithmetic::mul::lemma_mul_is_commutative;
use vstd::prelude::*;

pub mod allocator;
pub mod arch;
pub mod list;
pub mod thread;

pub use allocator::Allocator;
pub use arch::arch_early_init;
pub use thread::thread_early_init;
pub use thread::Thread;
pub use thread::ThreadState;
pub use list::Chunk;
pub use list::ChunkInfo;
pub use list::FreeChunkList;
pub use list::OutOfMemory;
pub use list::MIN_SIZE;
pub use list::CHUNK_ALIGN;
pub use list::free_bytes;
pub use list::in_chunk;
pub use list::range_set;
pub use list::split_aligned_addr;
pub use list::split_fits;
pub use list::wf_chunks;

verus! {

/// Whether `n` is a power of two.  Alignments must satisfy this.
pub open spec fn is_pow2(n: int) -> bool
    decreases n,
{
    if n <= 0 {
        false
    } else if n == 1 {
        true
    } else {
        n % 2 == 0 && is_pow2(n / 2)
    }
}

/// The greatest multiple of `align` that is at most `addr`.
pub open spec fn spec_align_down(addr: int, align: int) -> int
    recommends
        align >= 1,
{
    addr - addr % align
}

/// The least multiple of `align` that is at least `addr`.
pub open spec fn spec_align_up(addr: int, align: int) -> int
    recommends
        align >= 1,
{
    spec_align_down(addr + align - 1, align)
}

/// The facts callers need about rounding an address up to an alignment.
pub proof fn lemma_align_up_props(addr: int, align: int)
    requires
        addr >= 0,
        align >= 1,
    ensures
        spec_align_up(addr, align) % align == 0,
        addr <= spec_align_up(addr, align) < addr + align,
        spec_align_up(addr, align) == addr <==> addr % align == 0,
{
    let t = addr + align - 1;
    lemma_mod_division_less_than_divisor(t, align);
    lemma_fundamental_div_mod(t, align);
    lemma_mod_multiples_basic(t / align, align);
    lemma_mul_is_commutative(align, t / align);
    assert(spec_align_down(t, align) == (t / align) * align);
    if addr % align == 0 {
        lemma_mod_division_less_than_divisor(addr, align);
        lemma_add_mod_noop(addr, align - 1, align);
        lemma_small_mod((align - 1) as nat, align as nat);
        assert(t % align == align - 1);
    }
}

/// The same facts for rounding down.
pub proof fn lemma_align_down_props(addr: int, align: int)
    requires
        addr >= 0,
        align >= 1,
    ensures
        spec_align_down(addr, align) % align == 0,
        addr - align < spec_align_down(addr, align) <= addr,
        spec_align_down(addr, align) >= 0,
{
    lemma_mod_division_less_than_divisor(addr, align);
    lemma_fundamental_div_mod(addr, align);
    lemma_mod_multiples_basic(addr / align, align);
    lemma_mul_is_commutative(align, addr / align);
    assert(spec_align_down(addr, align) == (addr / align) * align);
}

/// Align downwards: returns the greatest `x` with alignment `align` such
/// that `x <= addr`.  The alignment must be a power of two, or zero, in
/// which case `addr` is returned unchanged.
pub fn align_down(addr: usize, align: usize) -> (r: usize)
    requires
        align == 0 || is_pow2(align as int),
    ensures
        align == 0 ==> r == addr,
        align >= 1 ==> r == spec_align_down(addr as int, align as int),
        align >= 1 ==> r as int % align as int == 0 && r <= addr && addr - r < align,
{
    if align == 0 {
        addr
    } else {
        proof {
            lemma_align_down_props(addr as int, align as int);
        }
        let rem: usize = addr % align;
        addr - rem
    }
}

/// Align upwards: returns the smallest `x` with alignment `align` such
/// that `x >= addr`.  The alignment must be a power of two.
pub fn align_up(addr: usize, align: usize) -> (r: usize)
    requires
        is_pow2(align as int),
        addr + align <= usize::MAX + 1,
    ensures
        r == spec_align_up(addr as int, align as int),
        r as int % align as int == 0,
        addr <= r < addr + align,
{
    proof {
        lemma_align_up_props(addr as int, align as int);
    }
    align_down(addr + (align - 1), align)
}

/// A request size as the engines see it: raised to `MIN_SIZE`, then rounded
/// up to the alignment a chunk header requires.  Every contract of `Heap`
/// speaks of the request size only through this function.
pub open spec fn spec_normalize(size: int) -> int {
    spec_align_up(
        if size < MIN_SIZE {
            MIN_SIZE as int
        } else {
            size
        },
        CHUNK_ALIGN as int,
    )
}

/// A request smaller than `MIN_SIZE` normalizes exactly as a request of
/// `MIN_SIZE` does, so allocation and deallocation treat the two
/// identically: their contracts mention the request size only through
/// `spec_normalize`.
pub proof fn lemma_small_request_same_as_min(size: int)
    requires
        size <= MIN_SIZE,
    ensures
        spec_normalize(size) == spec_normalize(MIN_SIZE as int),
{
}

/// The chunk-header alignment is a power of two.
proof fn lemma_chunk_align_pow2()
    ensures
        is_pow2(CHUNK_ALIGN as int),
{
    reveal_with_fuel(is_pow2, 5);
}

/// A size in the last few bytes of the address space rounds up past it.
proof fn lemma_normalize_overflow(sz: int)
    requires
        usize::MAX - (CHUNK_ALIGN - 1) < sz <= usize::MAX,
    ensures
        spec_align_up(sz, CHUNK_ALIGN as int) > usize::MAX,
{
    lemma_align_up_props(sz, CHUNK_ALIGN as int);
    let r = spec_align_up(sz, CHUNK_ALIGN as int);
    if r <= usize::MAX {
        lemma_fundamental_div_mod_converse_mod(
            r,
            8,
            0x1fff_ffff_ffff_ffff,
            r - 0xffff_ffff_ffff_fff8,
        );
        assert(false);
    }
}

/// Normalizes a request size, or reports that the rounded size would not
/// fit in the address space, in which case nothing can satisfy it.
fn normalize_request(size: usize) -> (r: Option<usize>)
    ensures
        r matches Some(n) ==> n == spec_normalize(size as int),
        r is None <==> spec_normalize(size as int) > usize::MAX,
{
    let sz: usize = if size < MIN_SIZE {
        MIN_SIZE
    } else {
        size
    };
    if sz > usize::MAX - (CHUNK_ALIGN - 1) {
        proof {
            lemma_normalize_overflow(sz as int);
        }
        None
    } else {
        proof {
            lemma_chunk_align_pow2();
        }
        Some(align_up(sz, CHUNK_ALIGN))
    }
}

/// Round trip: carve any block out of a fresh heap — one whose free bytes
/// are the whole region — and free that same block with nothing allocated
/// in between, and the free list is again exactly one chunk spanning the
/// region.  The hypotheses are precisely what the contracts of
/// `Heap::allocate_first_fit` (with `a` the returned address and `n` the
/// normalized size) and `Heap::deallocate` guarantee about the free list
/// before, between, and after the two calls.
pub proof fn lemma_alloc_free_round_trip(
    fresh: Seq<ChunkInfo>,
    mid: Seq<ChunkInfo>,
    fin: Seq<ChunkInfo>,
    base: usize,
    hsize: usize,
    a: int,
    n: int,
)
    requires
        hsize >= 1,
        base + hsize <= usize::MAX,
        wf_chunks(fin),
        free_bytes(fresh) == range_set(base as int, hsize as int),
        range_set(a, n).subset_of(free_bytes(fresh)),
        free_bytes(mid) == free_bytes(fresh).difference(range_set(a, n)),
        free_bytes(fin) == free_bytes(mid).union(range_set(a, n)),
    ensures
        fin == seq![ChunkInfo { addr: base, size: hsize }],
{
    let rs = range_set(base as int, hsize as int);
    assert forall|b: int| #![trigger rs.contains(b)] free_bytes(fin).contains(b) == rs.contains(
        b,
    ) by {}
    assert(free_bytes(fin) =~= rs);
    crate::list::lemma_single_range_single_chunk(fin, base, hsize);
}

/// A heap: one fixed memory region `[base, base + size)` and the list of
/// its free chunks.  A `size` of zero denotes a heap not yet initialized;
/// every allocation on it fails.
pub struct Heap {
    /// First address of the managed region.
    pub base: usize,
    /// Length of the managed region in bytes.
    pub size: usize,
    /// The free chunks of the region, sorted ascending by address.
    pub free_list: FreeChunkList,
}

impl Heap {
    /// The heap invariant: the free list is well formed and every free
    /// byte lies inside the managed region.
    pub open spec fn wf(&self) -> bool {
        &&& self.free_list.wf()
        &&& self.base + self.size <= usize::MAX
        &&& free_bytes(self.free_list@).subset_of(range_set(self.base as int, self.size as int))
    }

    /// Whether the block `[addr, addr + spec_normalize(size))` may be
    /// handed back to this heap: it lies inside the managed region and
    /// meets no byte that is already free.  Freeing a block for which this
    /// does not hold — freeing twice, or freeing what was never handed
    /// out — is the fatal contract violation the engine refuses to act on.
    pub open spec fn can_deallocate(&self, addr: int, size: int) -> bool {
        let n = spec_normalize(size);
        &&& self.base <= addr
        &&& addr + n <= self.base + self.size
        &&& range_set(addr, n).disjoint(free_bytes(self.free_list@))
    }

    /// Creates an uninitialized heap that rejects every allocation.
    pub fn empty() -> (r: Heap)
        ensures
            r.base == 0,
            r.size == 0,
            r.free_list@ == Seq::<ChunkInfo>::empty(),
            r.wf(),
    {
        Heap { base: 0, size: 0, free_list: FreeChunkList::empty() }
    }

    /// Initializes an empty heap over `[heap_base, heap_base + heap_size)`,
    /// writing one initial chunk that covers the whole region.  Must be
    /// called once, on a heap that manages nothing yet; the region is the
    /// caller's to give away.
    pub fn init(&mut self, heap_base: usize, heap_size: usize)
        requires
            old(self).size == 0,
            heap_base + heap_size <= usize::MAX,
            heap_size == 0 || heap_size >= MIN_SIZE,
        ensures
            final(self).base == heap_base,
            final(self).size == heap_size,
            final(self).free_list@ == if heap_size == 0 {
                Seq::<ChunkInfo>::empty()
            } else {
                seq![ChunkInfo { addr: heap_base, size: heap_size }]
            },
            free_bytes(final(self).free_list@) == range_set(heap_base as int, heap_size as int),
            final(self).wf(),
    {
        *self = Heap::new(heap_base, heap_size);
    }

    /// Creates a heap managing `[heap_base, heap_base + heap_size)`, whose
    /// free list is one chunk covering the whole region.  The region is the
    /// caller's to give away: nothing else may use those bytes afterwards.
    pub fn new(heap_base: usize, heap_size: usize) -> (r: Heap)
        requires
            heap_base + heap_size <= usize::MAX,
            heap_size == 0 || heap_size >= MIN_SIZE,
        ensures
            r.base == heap_base,
            r.size == heap_size,
            r.free_list@ == if heap_size == 0 {
                Seq::<ChunkInfo>::empty()
            } else {
                seq![ChunkInfo { addr: heap_base, size: heap_size }]
            },
            free_bytes(r.free_list@) == range_set(heap_base as int, heap_size as int),
            r.wf(),
    {
        let free_list = if heap_size == 0 {
            FreeChunkList::empty()
        } else {
            FreeChunkList::new(heap_base, heap_size)
        };
        let r = Heap { base: heap_base, size: heap_size, free_list };
        proof {
            let fb = free_bytes(r.free_list@);
            let rs = range_set(heap_base as int, heap_size as int);
            assert forall|b: int| #![trigger rs.contains(b)] fb.contains(b) == rs.contains(b) by {
                if heap_size != 0 {
                    if rs.contains(b) {
                        assert(in_chunk(r.free_list@[0], b));
                    }
                }
            }
            assert(fb =~= rs);
        }
        r
    }

    /// Allocates a block of `size` bytes aligned to `align` (a power of
    /// two), normalizing the size as every request is, and carving the
    /// block out of the first — lowest-addressed — chunk that can hold it.
    /// Returns the block's address, or fails with `OutOfMemory` exactly
    /// when no free chunk can hold the normalized request.
    pub fn allocate_first_fit(&mut self, size: usize, align: usize) -> (r: Result<
        usize,
        OutOfMemory,
    >)
        requires
            old(self).wf(),
            is_pow2(align as int),
        ensures
            final(self).wf(),
            final(self).base == old(self).base,
            final(self).size == old(self).size,
            (r is Err) <==> (forall|j: int|
                0 <= j < old(self).free_list@.len() ==> !split_fits(
                    #[trigger] old(self).free_list@[j],
                    spec_normalize(size as int),
                    align as int,
                )),
            r matches Err(_) ==> *final(self) == *old(self),
            r matches Ok(a) ==> ({
                let n = spec_normalize(size as int);
                &&& a as int % align as int == 0
                &&& old(self).base <= a
                &&& a + n <= old(self).base + old(self).size
                &&& range_set(a as int, n).subset_of(free_bytes(old(self).free_list@))
                &&& free_bytes(final(self).free_list@) == free_bytes(
                    old(self).free_list@,
                ).difference(range_set(a as int, n))
                &&& exists|i: int|
                    0 <= i < old(self).free_list@.len() && split_fits(
                        #[trigger] old(self).free_list@[i],
                        n,
                        align as int,
                    ) && a == split_aligned_addr(old(self).free_list@[i], align as int) && (
                    forall|j: int|
                        0 <= j < i ==> !split_fits(
                            #[trigger] old(self).free_list@[j],
                            n,
                            align as int,
                        ))
            }),
    {
        let ghost ov = old(self).free_list@;
        match normalize_request(size) {
            None => {
                proof {
                    // the rounded size leaves the address space: no chunk
                    // can hold it
                    let n = spec_normalize(size as int);
                    assert forall|j: int| 0 <= j < ov.len() implies !split_fits(
                        #[trigger] ov[j],
                        n,
                        align as int,
                    ) by {
                        if ov[j].addr as int % align as int != 0 {
                            lemma_align_up_props(ov[j].addr + MIN_SIZE, align as int);
                        }
                        assert(split_aligned_addr(ov[j], align as int) >= ov[j].addr);
                    }
                }
                Err(OutOfMemory)
            },
            Some(n) => {
                let r = self.free_list.allocate_first_fit(n, align);
                proof {
                    if let Ok(a) = r {
                        let aset = range_set(a as int, n as int);
                        let hr = range_set(old(self).base as int, old(self).size as int);
                        assert(aset.contains(a as int));
                        assert(hr.contains(a as int));
                        assert(aset.contains(a + n - 1));
                        assert(hr.contains(a + n - 1));
                        assert forall|b: int|
                            free_bytes(self.free_list@).contains(b) implies hr.contains(b) by {
                            assert(free_bytes(ov).contains(b));
                        }
                    }
                }
                r
            },
        }
    }

    /// Frees the block `[addr, addr + size)`, normalizing the size exactly
    /// as `allocate_first_fit` did when it handed the block out.  The block
    /// must have been carved from this heap and not freed since; the freed
    /// bytes return to the free list, coalesced with any neighbours.
    pub fn deallocate(&mut self, addr: usize, size: usize)
        requires
            old(self).wf(),
            old(self).can_deallocate(addr as int, size as int),
        ensures
            final(self).wf(),
            final(self).base == old(self).base,
            final(self).size == old(self).size,
            free_bytes(final(self).free_list@) == free_bytes(old(self).free_list@).union(
                range_set(addr as int, spec_normalize(size as int)),
            ),
    {
        let sz: usize = if size < MIN_SIZE {
            MIN_SIZE
        } else {
            size
        };
        proof {
            lemma_chunk_align_pow2();
            if sz > usize::MAX - (CHUNK_ALIGN - 1) {
                lemma_normalize_overflow(sz as int);
                assert(false);
            }
        }
        let n: usize = align_up(sz, CHUNK_ALIGN);
        proof {
            crate::list::lemma_disjoint_chunks(self.free_list@, addr as int, n as int);
        }
        self.free_list.deallocate(addr, n);
        proof {
            let hr = range_set(old(self).base as int, old(self).size as int);
            assert forall|b: int|
                free_bytes(self.free_list@).contains(b) implies hr.contains(b) by {
                if !free_bytes(old(self).free_list@).contains(b) {
                    assert(range_set(addr as int, n as int).contains(b));
                }
            }
        }
    }

    /// Checks whether `[addr, addr + size)` may be freed — that it lies in
    /// the managed region and meets no byte already free — and frees it if
    /// so.  Returns `false`, leaving the heap untouched, exactly when the
    /// free would violate that contract: an uninitialized heap, a double
    /// free, or a block this heap never handed out.  A caller that treats
    /// such a violation as fatal halts when this returns `false`.
    pub fn try_deallocate(&mut self, addr: usize, size: usize) -> (ok: bool)
        requires
            old(self).wf(),
        ensures
            final(self).wf(),
            final(self).base == old(self).base,
            final(self).size == old(self).size,
            ok == old(self).can_deallocate(addr as int, size as int),
            ok ==> free_bytes(final(self).free_list@) == free_bytes(old(self).free_list@).union(
                range_set(addr as int, spec_normalize(size as int)),
            ),
            !ok ==> *final(self) == *old(self),
    {
        let ghost ov = old(self).free_list@;
        let sz: usize = if size < MIN_SIZE {
            MIN_SIZE
        } else {
            size
        };
        if sz > usize::MAX - (CHUNK_ALIGN - 1) {
            proof {
                lemma_normalize_overflow(sz as int);
            }
            return false;
        }
        proof {
            lemma_chunk_align_pow2();
        }
        let n: usize = align_up(sz, CHUNK_ALIGN);
        if addr < self.base {
            return false;
        }
        if n > self.size || addr - self.base > self.size - n {
            return false;
        }
        let mut i: usize = 0;
        while i < self.free_list.chunks.len()
            invariant
                *self == *old(self),
                ov == old(self).free_list@,
                old(self).wf(),
                addr + n <= usize::MAX,
                n == spec_normalize(size as int),
                n >= 1,
                i <= ov.len(),
                forall|j: int|
                    0 <= j < i ==> ((#[trigger] ov[j]).addr + ov[j].size <= addr || addr + n
                        <= ov[j].addr),
            decreases self.free_list.chunks.len() - i,
        {
            let c: Chunk = self.free_list.chunks[i];
            proof {
                assert(c.spec_info() == ov[i as int]);
            }
            if !(c.addr + c.size <= addr) && !(addr + n <= c.addr) {
                proof {
                    // a byte both ranges hold: the free is a violation
                    let m = if addr >= c.addr {
                        addr as int
                    } else {
                        c.addr as int
                    };
                    assert(in_chunk(ov[i as int], m));
                    assert(free_bytes(ov).contains(m));
                    assert(range_set(addr as int, n as int).contains(m));
                }
                return false;
            }
            i = i + 1;
        }
        proof {
            let rs = range_set(addr as int, n as int);
            assert forall|b: int| rs.contains(b) implies !free_bytes(ov).contains(b) by {
                if free_bytes(ov).contains(b) {
                    let k = choose|k: int| 0 <= k < ov.len() && in_chunk(#[trigger] ov[k], b);
                    assert(ov[k].addr + ov[k].size <= addr || addr + n <= ov[k].addr);
                }
            }
            assert(rs.disjoint(free_bytes(ov)));
        }
        self.deallocate(addr, size);
        true
    }
}

} // verus!
