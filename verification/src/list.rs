//! The sorted free-chunk list and the split/merge engines that operate on it.
//!
//! The free memory of the heap is described by a list of chunks, sorted
//! ascending by address, with no two chunks byte-adjacent and every chunk at
//! least `MIN_SIZE` bytes long.  On the metal such a list is intrusive: each
//! chunk's header lives inside the free bytes it describes.  Here the links
//! are positions in a vector instead, so the same algorithm is stated and
//! verified over plain values; addresses are the values the list accounts
//! for, not places it reads.

use crate::spec_align_up;
use crate::lemma_align_up_props;
use vstd::arithmetic::div_mod::lemma_fundamental_div_mod;
use vstd::arithmetic::div_mod::lemma_mod_division_less_than_divisor;
use vstd::arithmetic::mul::lemma_mul_is_commutative;
use vstd::prelude::*;

verus! {

/// Smallest size a chunk may have: the bytes a chunk header occupies,
/// two pointer-sized words on the 64-bit targets this crate serves.
/// Every request is normalized to at least this size, so any allocated
/// block can later be reinserted into the list as a chunk of its own.
pub const MIN_SIZE: usize = 16;

/// Alignment a chunk header requires; normalized request sizes are rounded
/// up to a multiple of it, so splitting never strands misaligned leftovers.
pub const CHUNK_ALIGN: usize = 8;

/// Returned when no free chunk satisfies a request's size and alignment.
/// Recoverable: the caller may free memory and retry.
#[derive(Debug, Clone, Copy, PartialEq, Eq, Structural)]
pub struct OutOfMemory;

/// A free chunk: one contiguous range of free bytes, `[addr, addr + size)`.
#[derive(Debug, Clone, Copy, PartialEq, Eq, Structural)]
pub struct Chunk {
    /// Start address of the free range.
    pub addr: usize,
    /// Length of the free range in bytes.
    pub size: usize,
}

/// A transient `(address, size)` snapshot of a chunk, used during search.
#[derive(Debug, Clone, Copy, PartialEq, Eq, Structural)]
pub struct ChunkInfo {
    /// Start address of the chunk described.
    pub addr: usize,
    /// Size in bytes of the chunk described.
    pub size: usize,
}

impl Chunk {
    /// The snapshot this chunk denotes.
    pub open spec fn spec_info(&self) -> ChunkInfo {
        ChunkInfo { addr: self.addr, size: self.size }
    }

    /// Returns the basic information about the chunk.
    pub fn info(&self) -> (r: ChunkInfo)
        ensures
            r == self.spec_info(),
    {
        ChunkInfo { addr: self.addr, size: self.size }
    }
}

/// Whether byte `b` lies inside the chunk described by `c`.
pub open spec fn in_chunk(c: ChunkInfo, b: int) -> bool {
    c.addr <= b < c.addr + c.size
}

/// The set of byte addresses in the half-open range `[addr, addr + size)`.
pub open spec fn range_set(addr: int, size: int) -> Set<int> {
    Set::new(|b: int| addr <= b < addr + size)
}

/// The set of byte addresses some chunk of `s` covers.
pub open spec fn free_bytes(s: Seq<ChunkInfo>) -> Set<int> {
    Set::new(|b: int| exists|i: int| 0 <= i < s.len() && in_chunk(#[trigger] s[i], b))
}

/// Well-formedness of a chunk list: every chunk is at least `MIN_SIZE` bytes
/// and ends within the address space, and the list is sorted ascending by
/// address with a gap of at least one byte between any two chunks (adjacent
/// free ranges are always merged into one chunk).
pub open spec fn wf_chunks(s: Seq<ChunkInfo>) -> bool {
    &&& forall|i: int|
        0 <= i < s.len() ==> (#[trigger] s[i]).size >= MIN_SIZE && s[i].addr + s[i].size
            <= usize::MAX
    &&& forall|i: int, j: int|
        #![trigger s[i], s[j]]
        0 <= i < j < s.len() ==> s[i].addr + s[i].size < s[j].addr
}

/// A sorted list of free chunks.
pub struct FreeChunkList {
    /// The chunks, sorted ascending by address.
    pub chunks: Vec<Chunk>,
}

impl View for FreeChunkList {
    type V = Seq<ChunkInfo>;

    open spec fn view(&self) -> Seq<ChunkInfo> {
        Seq::new(self.chunks@.len(), |i: int| self.chunks@[i].spec_info())
    }
}

impl FreeChunkList {
    /// The list invariant; every operation preserves it.
    pub open spec fn wf(&self) -> bool {
        wf_chunks(self@)
    }

    /// Creates an empty `FreeChunkList` that owns no memory.
    pub fn empty() -> (r: FreeChunkList)
        ensures
            r@ == Seq::<ChunkInfo>::empty(),
            r.wf(),
    {
        let r = FreeChunkList { chunks: Vec::new() };
        proof {
            assert(r@ =~= Seq::<ChunkInfo>::empty());
        }
        r
    }

    /// Creates a list holding the single free chunk `[chunk_addr,
    /// chunk_addr + chunk_size)`.
    pub fn new(chunk_addr: usize, chunk_size: usize) -> (r: FreeChunkList)
        requires
            chunk_size >= MIN_SIZE,
            chunk_addr + chunk_size <= usize::MAX,
        ensures
            r@ == seq![ChunkInfo { addr: chunk_addr, size: chunk_size }],
            r.wf(),
    {
        let mut chunks: Vec<Chunk> = Vec::new();
        chunks.push(Chunk { addr: chunk_addr, size: chunk_size });
        let r = FreeChunkList { chunks };
        proof {
            assert(r@ =~= seq![ChunkInfo { addr: chunk_addr, size: chunk_size }]);
        }
        r
    }

    /// Returns the minimal allocation size; smaller requests are rounded up
    /// to it before the list is searched or changed.
    pub fn min_size() -> (r: usize)
        ensures
            r == MIN_SIZE,
    {
        MIN_SIZE
    }
}

/// The facts the deallocation engine's bridge-merge case rests on: the
/// freed block exactly fills the gap between chunk `i - 1` and chunk `i`,
/// and the three are replaced by one chunk spanning all of them.
proof fn lemma_dealloc_bridge(ov: Seq<ChunkInfo>, sv: Seq<ChunkInfo>, i: int, addr: int, size: int)
    requires
        wf_chunks(ov),
        size >= MIN_SIZE,
        addr + size <= usize::MAX,
        0 < i < ov.len(),
        ov[i - 1].addr + ov[i - 1].size == addr,
        addr + size == ov[i].addr,
        sv.len() == ov.len() - 1,
        forall|j: int| 0 <= j < i - 1 ==> sv[j] == ov[j],
        sv[i - 1].addr == ov[i - 1].addr,
        sv[i - 1].size == ov[i - 1].size + size + ov[i].size,
        forall|j: int| i <= j < sv.len() ==> sv[j] == ov[j + 1],
    ensures
        wf_chunks(sv),
        free_bytes(sv) == free_bytes(ov).union(range_set(addr, size)),
{
    let r = range_set(addr, size);
    assert forall|k: int, l: int|
        #![trigger sv[k], sv[l]]
        0 <= k < l < sv.len() implies sv[k].addr + sv[k].size < sv[l].addr by {
        if l < i - 1 {
            assert(ov[k].addr + ov[k].size < ov[l].addr);
        } else if l == i - 1 {
            assert(ov[k].addr + ov[k].size < ov[l].addr);
        } else {
            assert(sv[l] == ov[l + 1]);
            if k < i - 1 {
                assert(ov[k].addr + ov[k].size < ov[l + 1].addr);
            } else if k == i - 1 {
                assert(ov[i].addr + ov[i].size < ov[l + 1].addr);
            } else {
                assert(sv[k] == ov[k + 1]);
                assert(ov[k + 1].addr + ov[k + 1].size < ov[l + 1].addr);
            }
        }
    }
    assert forall|k: int|
        0 <= k < sv.len() implies (#[trigger] sv[k]).size >= MIN_SIZE && sv[k].addr + sv[k].size
            <= usize::MAX by {
        if k == i - 1 {
            assert(ov[k].size >= MIN_SIZE);
            assert(ov[i].addr + ov[i].size <= usize::MAX);
        } else if k >= i {
            assert(sv[k] == ov[k + 1]);
        }
    }
    let u = free_bytes(ov).union(r);
    assert forall|b: int| #![trigger u.contains(b)] free_bytes(sv).contains(b) == u.contains(
        b,
    ) by {
        if free_bytes(sv).contains(b) {
            let k = choose|k: int| 0 <= k < sv.len() && in_chunk(#[trigger] sv[k], b);
            if k < i - 1 {
                assert(in_chunk(ov[k], b));
            } else if k == i - 1 {
                if b < addr {
                    assert(in_chunk(ov[k], b));
                } else if b < addr + size {
                    assert(r.contains(b));
                } else {
                    assert(in_chunk(ov[i], b));
                }
            } else {
                assert(in_chunk(ov[k + 1], b));
            }
        }
        if u.contains(b) {
            if free_bytes(ov).contains(b) {
                let k = choose|k: int| 0 <= k < ov.len() && in_chunk(#[trigger] ov[k], b);
                if k < i - 1 {
                    assert(in_chunk(sv[k], b));
                } else if k == i - 1 || k == i {
                    assert(in_chunk(sv[i - 1], b));
                } else {
                    assert(in_chunk(sv[k - 1], b));
                }
            } else {
                assert(in_chunk(sv[i - 1], b));
            }
        }
    }
    assert(free_bytes(sv) =~= u);
}

/// The extend-current case: the freed block begins exactly where chunk
/// `i - 1` ends and is not adjacent to the chunk after it, so chunk `i - 1`
/// simply grows by `size` bytes.
proof fn lemma_dealloc_extend_left(
    ov: Seq<ChunkInfo>,
    sv: Seq<ChunkInfo>,
    i: int,
    addr: int,
    size: int,
)
    requires
        wf_chunks(ov),
        size >= MIN_SIZE,
        addr + size <= usize::MAX,
        0 < i <= ov.len(),
        ov[i - 1].addr + ov[i - 1].size == addr,
        i < ov.len() ==> addr + size < ov[i].addr,
        sv.len() == ov.len(),
        forall|j: int| 0 <= j < sv.len() && j != i - 1 ==> sv[j] == ov[j],
        sv[i - 1].addr == ov[i - 1].addr,
        sv[i - 1].size == ov[i - 1].size + size,
    ensures
        wf_chunks(sv),
        free_bytes(sv) == free_bytes(ov).union(range_set(addr, size)),
{
    let r = range_set(addr, size);
    assert forall|k: int, l: int|
        #![trigger sv[k], sv[l]]
        0 <= k < l < sv.len() implies sv[k].addr + sv[k].size < sv[l].addr by {
        if k != i - 1 && l != i - 1 {
            assert(ov[k].addr + ov[k].size < ov[l].addr);
        } else if l == i - 1 {
            assert(ov[k].addr + ov[k].size < ov[l].addr);
        } else {
            // k == i - 1: the grown chunk ends at addr + size
            if l > i {
                assert(ov[i].addr + ov[i].size < ov[l].addr);
            }
        }
    }
    assert forall|k: int|
        0 <= k < sv.len() implies (#[trigger] sv[k]).size >= MIN_SIZE && sv[k].addr + sv[k].size
            <= usize::MAX by {
        if k == i - 1 {
            assert(ov[k].size >= MIN_SIZE);
        }
    }
    assert forall|b: int| free_bytes(sv).contains(b) implies free_bytes(ov).contains(b)
        || r.contains(b) by {
        let k = choose|k: int| 0 <= k < sv.len() && in_chunk(#[trigger] sv[k], b);
        if k == i - 1 && b >= addr {
            assert(r.contains(b));
        } else {
            assert(in_chunk(ov[k], b));
        }
    }
    assert forall|b: int| free_bytes(ov).contains(b) || r.contains(b) implies free_bytes(
        sv,
    ).contains(b) by {
        if free_bytes(ov).contains(b) {
            let k = choose|k: int| 0 <= k < ov.len() && in_chunk(#[trigger] ov[k], b);
            assert(in_chunk(sv[k], b));
        } else {
            assert(in_chunk(sv[i - 1], b));
        }
    }
    assert(free_bytes(sv) =~= free_bytes(ov).union(r));
}

/// The extend-forward case: the freed block ends exactly where chunk `i`
/// begins and is not adjacent to the chunk before it, so chunk `i` grows
/// backwards over the freed bytes.
proof fn lemma_dealloc_extend_right(
    ov: Seq<ChunkInfo>,
    sv: Seq<ChunkInfo>,
    i: int,
    addr: int,
    size: int,
)
    requires
        wf_chunks(ov),
        size >= MIN_SIZE,
        addr >= 0,
        addr + size <= usize::MAX,
        0 <= i < ov.len(),
        addr + size == ov[i].addr,
        i > 0 ==> ov[i - 1].addr + ov[i - 1].size < addr,
        sv.len() == ov.len(),
        forall|j: int| 0 <= j < sv.len() && j != i ==> sv[j] == ov[j],
        sv[i].addr == addr,
        sv[i].size == size + ov[i].size,
    ensures
        wf_chunks(sv),
        free_bytes(sv) == free_bytes(ov).union(range_set(addr, size)),
{
    let r = range_set(addr, size);
    assert forall|k: int, l: int|
        #![trigger sv[k], sv[l]]
        0 <= k < l < sv.len() implies sv[k].addr + sv[k].size < sv[l].addr by {
        if k != i && l != i {
            assert(ov[k].addr + ov[k].size < ov[l].addr);
        } else if k == i {
            assert(ov[k].addr + ov[k].size < ov[l].addr);
        } else {
            // l == i: every chunk before ends strictly before addr
            if k < i - 1 {
                assert(ov[k].addr + ov[k].size < ov[i - 1].addr);
                assert(ov[i - 1].addr < ov[i - 1].addr + ov[i - 1].size);
            }
        }
    }
    assert forall|k: int|
        0 <= k < sv.len() implies (#[trigger] sv[k]).size >= MIN_SIZE && sv[k].addr + sv[k].size
            <= usize::MAX by {
        if k == i {
            assert(ov[k].size >= MIN_SIZE);
            assert(ov[k].addr + ov[k].size <= usize::MAX);
        }
    }
    assert forall|b: int| free_bytes(sv).contains(b) implies free_bytes(ov).contains(b)
        || r.contains(b) by {
        let k = choose|k: int| 0 <= k < sv.len() && in_chunk(#[trigger] sv[k], b);
        if k == i && b < addr + size {
            assert(r.contains(b));
        } else {
            assert(in_chunk(ov[k], b));
        }
    }
    assert forall|b: int| free_bytes(ov).contains(b) || r.contains(b) implies free_bytes(
        sv,
    ).contains(b) by {
        if free_bytes(ov).contains(b) {
            let k = choose|k: int| 0 <= k < ov.len() && in_chunk(#[trigger] ov[k], b);
            assert(in_chunk(sv[k], b));
        } else {
            assert(in_chunk(sv[i], b));
        }
    }
    assert(free_bytes(sv) =~= free_bytes(ov).union(r));
}

/// The no-adjacency case: the freed block has a gap on both sides and is
/// spliced in as a chunk of its own at position `i`.
proof fn lemma_dealloc_insert(
    ov: Seq<ChunkInfo>,
    sv: Seq<ChunkInfo>,
    i: int,
    addr: int,
    size: int,
)
    requires
        wf_chunks(ov),
        size >= MIN_SIZE,
        addr >= 0,
        addr + size <= usize::MAX,
        0 <= i <= ov.len(),
        i > 0 ==> ov[i - 1].addr + ov[i - 1].size < addr,
        i < ov.len() ==> addr + size < ov[i].addr,
        sv.len() == ov.len() + 1,
        forall|j: int| 0 <= j < i ==> sv[j] == ov[j],
        sv[i].addr == addr,
        sv[i].size == size,
        forall|j: int| i < j < sv.len() ==> sv[j] == ov[j - 1],
    ensures
        wf_chunks(sv),
        free_bytes(sv) == free_bytes(ov).union(range_set(addr, size)),
{
    let r = range_set(addr, size);
    assert forall|k: int, l: int|
        #![trigger sv[k], sv[l]]
        0 <= k < l < sv.len() implies sv[k].addr + sv[k].size < sv[l].addr by {
        if k != i && l != i {
            let k2 = if k < i { k } else { k - 1 };
            let l2 = if l < i { l } else { l - 1 };
            assert(sv[k] == ov[k2] && sv[l] == ov[l2]);
            assert(ov[k2].addr + ov[k2].size < ov[l2].addr);
        } else if l == i {
            // the new chunk starts strictly past every chunk before it
            if k < i - 1 {
                assert(ov[k].addr + ov[k].size < ov[i - 1].addr);
                assert(ov[i - 1].addr < ov[i - 1].addr + ov[i - 1].size);
            }
        } else {
            // k == i: the new chunk ends strictly before every later chunk
            assert(sv[l] == ov[l - 1]);
            if l - 1 > i {
                assert(ov[i].addr + ov[i].size < ov[l - 1].addr);
                assert(addr + size < ov[i].addr);
            }
        }
    }
    assert forall|k: int|
        0 <= k < sv.len() implies (#[trigger] sv[k]).size >= MIN_SIZE && sv[k].addr + sv[k].size
            <= usize::MAX by {
        if k != i {
            let k2 = if k < i { k } else { k - 1 };
            assert(sv[k] == ov[k2]);
        }
    }
    let u = free_bytes(ov).union(r);
    assert forall|b: int| #![trigger u.contains(b)] free_bytes(sv).contains(b) == u.contains(
        b,
    ) by {
        if free_bytes(sv).contains(b) {
            let k = choose|k: int| 0 <= k < sv.len() && in_chunk(#[trigger] sv[k], b);
            if k < i {
                assert(in_chunk(ov[k], b));
            } else if k == i {
                assert(r.contains(b));
            } else {
                assert(in_chunk(ov[k - 1], b));
            }
        }
        if u.contains(b) {
            if free_bytes(ov).contains(b) {
                let k = choose|k: int| 0 <= k < ov.len() && in_chunk(#[trigger] ov[k], b);
                if k < i {
                    assert(in_chunk(sv[k], b));
                } else {
                    assert(in_chunk(sv[k + 1], b));
                }
            } else {
                assert(in_chunk(sv[i], b));
            }
        }
    }
    assert(free_bytes(sv) =~= u);
}

impl FreeChunkList {
    /// Frees the block `[addr, addr + size)`, walking the sorted list to the
    /// block's place and coalescing it with the chunk before it, the chunk
    /// after it, or both, whenever they are byte-adjacent.  The freed range
    /// must be owned by the caller: it must not intersect any chunk already
    /// in the list.
    pub fn deallocate(&mut self, addr: usize, size: usize)
        requires
            old(self).wf(),
            size >= MIN_SIZE,
            addr + size <= usize::MAX,
            forall|j: int|
                0 <= j < old(self)@.len() ==> ((#[trigger] old(self)@[j]).addr + old(self)@[j].size
                    <= addr || addr + size <= old(self)@[j].addr),
        ensures
            final(self).wf(),
            free_bytes(final(self)@) == free_bytes(old(self)@).union(
                range_set(addr as int, size as int),
            ),
    {
        let ghost ov = old(self)@;
        let mut i: usize = 0;
        while i < self.chunks.len() && self.chunks[i].addr < addr
            invariant
                *self == *old(self),
                old(self).wf(),
                i <= self.chunks.len(),
                forall|j: int| 0 <= j < i ==> (#[trigger] self@[j]).addr < addr,
            decreases self.chunks.len() - i,
        {
            i = i + 1;
        }
        proof {
            // every chunk before position i ends at or before the freed
            // range; every chunk from i on starts at or past its end
            assert forall|j: int| 0 <= j < i implies (#[trigger] ov[j]).addr + ov[j].size
                <= addr by {
                assert(ov[j].addr < addr);
            }
            assert forall|j: int| i <= j < ov.len() implies addr + size
                <= (#[trigger] ov[j]).addr by {
                if j == i {
                    assert(ov[j].addr >= addr);
                    assert(ov[j].size >= MIN_SIZE);
                } else {
                    assert(ov[i as int].addr >= addr);
                    assert(ov[i as int].addr + ov[i as int].size < ov[j].addr);
                }
            }
        }
        let mut left_adj: bool = false;
        if i > 0 {
            let cur: Chunk = self.chunks[i - 1];
            proof {
                assert(cur.spec_info() == ov[i - 1]);
            }
            left_adj = cur.addr + cur.size == addr;
        }
        let mut right_adj: bool = false;
        if i < self.chunks.len() {
            let next: Chunk = self.chunks[i];
            proof {
                assert(next.spec_info() == ov[i as int]);
            }
            right_adj = addr + size == next.addr;
        }
        if left_adj && right_adj {
            // the freed block exactly fills the gap between the chunk
            // before it and the chunk after it: merge all three
            let cur: Chunk = self.chunks[i - 1];
            let next: Chunk = self.chunks[i];
            self.chunks[i - 1] = Chunk { addr: cur.addr, size: cur.size + size + next.size };
            self.chunks.remove(i);
            proof {
                lemma_dealloc_bridge(ov, self@, i as int, addr as int, size as int);
            }
        } else if left_adj {
            // the freed block begins exactly where the chunk before it
            // ends: grow that chunk
            let cur: Chunk = self.chunks[i - 1];
            self.chunks[i - 1] = Chunk { addr: cur.addr, size: cur.size + size };
            proof {
                lemma_dealloc_extend_left(ov, self@, i as int, addr as int, size as int);
            }
        } else if right_adj {
            // the freed block ends exactly where the next chunk begins:
            // let that chunk grow backwards over the freed bytes
            let next: Chunk = self.chunks[i];
            self.chunks[i] = Chunk { addr, size: size + next.size };
            proof {
                lemma_dealloc_extend_right(ov, self@, i as int, addr as int, size as int);
            }
        } else {
            // a gap on both sides: splice a new chunk in at position i
            self.chunks.insert(i, Chunk { addr, size });
            proof {
                lemma_dealloc_insert(ov, self@, i as int, addr as int, size as int);
            }
        }
    }
}

/// Removing chunk `i` from a well-formed list keeps it well formed and
/// takes exactly that chunk's bytes out of the free set.
proof fn lemma_remove_chunk(ov: Seq<ChunkInfo>, sv: Seq<ChunkInfo>, i: int)
    requires
        wf_chunks(ov),
        0 <= i < ov.len(),
        sv.len() == ov.len() - 1,
        forall|j: int| 0 <= j < i ==> sv[j] == ov[j],
        forall|j: int| i <= j < sv.len() ==> sv[j] == ov[j + 1],
    ensures
        wf_chunks(sv),
        free_bytes(sv) == free_bytes(ov).difference(
            range_set(ov[i].addr as int, ov[i].size as int),
        ),
{
    let c = range_set(ov[i].addr as int, ov[i].size as int);
    assert forall|k: int, l: int|
        #![trigger sv[k], sv[l]]
        0 <= k < l < sv.len() implies sv[k].addr + sv[k].size < sv[l].addr by {
        let k2 = if k < i { k } else { k + 1 };
        let l2 = if l < i { l } else { l + 1 };
        assert(sv[k] == ov[k2] && sv[l] == ov[l2]);
        assert(ov[k2].addr + ov[k2].size < ov[l2].addr);
    }
    assert forall|k: int|
        0 <= k < sv.len() implies (#[trigger] sv[k]).size >= MIN_SIZE && sv[k].addr + sv[k].size
            <= usize::MAX by {
        let k2 = if k < i { k } else { k + 1 };
        assert(sv[k] == ov[k2]);
    }
    let u = free_bytes(ov).difference(c);
    assert forall|b: int| #![trigger u.contains(b)] free_bytes(sv).contains(b) == u.contains(
        b,
    ) by {
        if free_bytes(sv).contains(b) {
            let k = choose|k: int| 0 <= k < sv.len() && in_chunk(#[trigger] sv[k], b);
            let k2 = if k < i { k } else { k + 1 };
            assert(in_chunk(ov[k2], b));
            if k2 < i {
                assert(ov[k2].addr + ov[k2].size < ov[i].addr);
            } else {
                assert(ov[i].addr + ov[i].size < ov[k2].addr);
            }
            assert(!c.contains(b));
        }
        if u.contains(b) {
            let k = choose|k: int| 0 <= k < ov.len() && in_chunk(#[trigger] ov[k], b);
            assert(k != i);
            if k < i {
                assert(in_chunk(sv[k], b));
            } else {
                assert(in_chunk(sv[k - 1], b));
            }
        }
    }
    assert(free_bytes(sv) =~= u);
}

/// A nonempty byte range that misses every free byte of a well-formed list
/// lies entirely in the gap beside each chunk: per chunk, it ends at or
/// before the chunk or starts at or past its end.
pub(crate) proof fn lemma_disjoint_chunks(s: Seq<ChunkInfo>, addr: int, size: int)
    requires
        wf_chunks(s),
        size >= 1,
        range_set(addr, size).disjoint(free_bytes(s)),
    ensures
        forall|j: int|
            0 <= j < s.len() ==> ((#[trigger] s[j]).addr + s[j].size <= addr || addr + size
                <= s[j].addr),
{
    assert forall|j: int|
        0 <= j < s.len() implies ((#[trigger] s[j]).addr + s[j].size <= addr || addr + size
            <= s[j].addr) by {
        if !(s[j].addr + s[j].size <= addr) && !(addr + size <= s[j].addr) {
            let m = if addr >= s[j].addr { addr } else { s[j].addr as int };
            assert(in_chunk(s[j], m));
            assert(free_bytes(s).contains(m));
            assert(range_set(addr, size).contains(m));
            assert(false);
        }
    }
}

impl FreeChunkList {
    /// Searches the list for the first chunk able to hold an allocation of
    /// `size` bytes at alignment `align` ("first fit": the list is sorted,
    /// so this is the lowest qualifying address).  On success the chunk is
    /// unlinked, any front or back padding the split produced is returned
    /// to the list, and the carved block's address is returned; the freed
    /// set shrinks by exactly the carved block.  When no chunk qualifies,
    /// the list is left unchanged and the request fails.
    pub fn allocate_first_fit(&mut self, size: usize, align: usize) -> (r: Result<
        usize,
        OutOfMemory,
    >)
        requires
            old(self).wf(),
            size >= MIN_SIZE,
            align >= 1,
        ensures
            final(self).wf(),
            (r is Err) <==> (forall|j: int|
                0 <= j < old(self)@.len() ==> !split_fits(
                    #[trigger] old(self)@[j],
                    size as int,
                    align as int,
                )),
            r matches Err(_) ==> *final(self) == *old(self),
            r matches Ok(a) ==> ({
                &&& a as int % align as int == 0
                &&& a + size <= usize::MAX
                &&& exists|i: int|
                    0 <= i < old(self)@.len() && split_fits(
                        #[trigger] old(self)@[i],
                        size as int,
                        align as int,
                    ) && a == split_aligned_addr(old(self)@[i], align as int) && (forall|j: int|
                        0 <= j < i ==> !split_fits(
                            #[trigger] old(self)@[j],
                            size as int,
                            align as int,
                        ))
                &&& range_set(a as int, size as int).subset_of(free_bytes(old(self)@))
                &&& free_bytes(final(self)@) == free_bytes(old(self)@).difference(
                    range_set(a as int, size as int),
                )
            }),
    {
        let ghost ov = old(self)@;
        let mut i: usize = 0;
        while i < self.chunks.len()
            invariant
                *self == *old(self),
                ov == old(self)@,
                old(self).wf(),
                size >= MIN_SIZE,
                align >= 1,
                i <= ov.len(),
                forall|j: int|
                    0 <= j < i ==> !split_fits(#[trigger] ov[j], size as int, align as int),
            decreases self.chunks.len() - i,
        {
            let c: ChunkInfo = self.chunks[i].info();
            proof {
                assert(c == ov[i as int]);
            }
            match split_chunk(c, size, align) {
                Some(al) => {
                    let ghost cset = range_set(c.addr as int, c.size as int);
                    let ghost aset = range_set(al.info.addr as int, size as int);
                    self.chunks.remove(i);
                    proof {
                        lemma_remove_chunk(ov, self@, i as int);
                    }
                    if let Some(f) = al.front_padding {
                        proof {
                            let s1 = self@;
                            let fset = range_set(f.addr as int, f.size as int);
                            assert forall|b: int| fset.contains(b) implies !free_bytes(
                                s1,
                            ).contains(b) by {
                                assert(cset.contains(b));
                            }
                            assert(fset.disjoint(free_bytes(s1)));
                            lemma_disjoint_chunks(s1, f.addr as int, f.size as int);
                        }
                        self.deallocate(f.addr, f.size);
                    }
                    if let Some(bk) = al.back_padding {
                        proof {
                            let s2 = self@;
                            let bset = range_set(bk.addr as int, bk.size as int);
                            assert forall|b: int| bset.contains(b) implies !free_bytes(
                                s2,
                            ).contains(b) by {
                                assert(cset.contains(b));
                                assert(!aset.contains(b));
                            }
                            assert(bset.disjoint(free_bytes(s2)));
                            lemma_disjoint_chunks(s2, bk.addr as int, bk.size as int);
                        }
                        self.deallocate(bk.addr, bk.size);
                    }
                    proof {
                        let t = free_bytes(ov).difference(aset);
                        assert forall|b: int| #![trigger t.contains(b)]
                            free_bytes(self@).contains(b) == t.contains(b) by {
                            if cset.contains(b) && !aset.contains(b) {
                                assert(free_bytes(ov).contains(b)) by {
                                    assert(in_chunk(ov[i as int], b));
                                }
                            }
                        }
                        assert(free_bytes(self@) =~= t);
                        assert forall|b: int| aset.contains(b) implies free_bytes(ov).contains(
                            b,
                        ) by {
                            assert(in_chunk(ov[i as int], b));
                        }
                    }
                    return Ok(al.info.addr);
                },
                None => {
                    i = i + 1;
                },
            }
        }
        Err(OutOfMemory)
    }
}

/// A well-formed free list is determined by its free bytes: when those
/// bytes form exactly one nonempty contiguous range, the list holds exactly
/// one chunk, spanning that range.
pub proof fn lemma_single_range_single_chunk(s: Seq<ChunkInfo>, base: usize, size: usize)
    requires
        wf_chunks(s),
        size >= 1,
        base + size <= usize::MAX,
        free_bytes(s) == range_set(base as int, size as int),
    ensures
        s == seq![ChunkInfo { addr: base, size: size }],
{
    let rs = range_set(base as int, size as int);
    assert(rs.contains(base as int));
    assert(free_bytes(s).contains(base as int));
    assert(s.len() >= 1);
    if s.len() >= 2 {
        // the byte just past chunk 0 lies between two chunks: it is inside
        // the range yet free in no chunk, refuting the range equality
        let g = s[0].addr + s[0].size;
        assert(in_chunk(s[0], s[0].addr as int));
        assert(rs.contains(s[0].addr as int));
        assert(in_chunk(s[1], s[1].addr as int));
        assert(rs.contains(s[1].addr as int));
        assert(s[0].addr + s[0].size < s[1].addr);
        assert(rs.contains(g));
        assert(free_bytes(s).contains(g));
        let k = choose|k: int| 0 <= k < s.len() && in_chunk(#[trigger] s[k], g);
        if k >= 1 {
            assert(s[0].addr + s[0].size < s[k].addr);
        }
        assert(false);
    }
    let c = s[0];
    assert(in_chunk(c, base as int));
    assert(in_chunk(c, c.addr as int));
    assert(rs.contains(c.addr as int));
    assert(rs.contains(base + size - 1));
    assert(free_bytes(s).contains(base + size - 1));
    assert(in_chunk(c, base + size - 1));
    assert(in_chunk(c, c.addr + c.size - 1));
    assert(rs.contains(c.addr + c.size - 1));
    assert(c.addr == base && c.size == size);
    assert(s =~= seq![ChunkInfo { addr: base, size: size }]);
}

/// The result of carving an allocation out of one chunk: the allocated
/// block itself and the leftover padding ranges, which go back to the list.
struct Allocation {
    info: ChunkInfo,
    front_padding: Option<ChunkInfo>,
    back_padding: Option<ChunkInfo>,
}

/// Where an allocation aligned to `align` would start within chunk `c`:
/// at the chunk's own address when that is already aligned, otherwise at
/// the next aligned address past `c.addr + MIN_SIZE`, the offset keeping
/// any front padding at least `MIN_SIZE` bytes long.
pub open spec fn split_aligned_addr(c: ChunkInfo, align: int) -> int
    recommends
        align >= 1,
{
    if c.addr as int % align == 0 {
        c.addr as int
    } else {
        spec_align_up(c.addr + MIN_SIZE, align)
    }
}

/// Whether chunk `c` can host an allocation of `size` bytes aligned to
/// `align`: the aligned block must end within the chunk, and the bytes
/// left behind it must either vanish or form a representable chunk.
pub open spec fn split_fits(c: ChunkInfo, size: int, align: int) -> bool
    recommends
        align >= 1,
{
    let a = split_aligned_addr(c, align);
    let rest = c.addr + c.size - a - size;
    &&& a + size <= c.addr + c.size
    &&& (rest == 0 || rest >= MIN_SIZE)
}

/// Splits the chunk described by `info` into front padding, an aligned
/// block of exactly `size` bytes, and back padding, whenever the chunk is
/// big enough for that; returns `None` otherwise.  All padding returned is
/// at least `MIN_SIZE` bytes, so it can be reinserted as chunks.
fn split_chunk(info: ChunkInfo, size: usize, align: usize) -> (r: Option<Allocation>)
    requires
        info.size >= MIN_SIZE,
        info.addr + info.size <= usize::MAX,
        size >= MIN_SIZE,
        align >= 1,
    ensures
        r is Some <==> split_fits(info, size as int, align as int),
        r matches Some(al) ==> ({
            let a = split_aligned_addr(info, align as int);
            &&& al.info.addr == a
            &&& al.info.size == size
            &&& a % (align as int) == 0
            &&& info.addr <= a
            &&& a + size <= info.addr + info.size
            &&& (al.front_padding is Some <==> a != info.addr)
            &&& (al.front_padding matches Some(f) ==> f.addr == info.addr && f.addr + f.size == a
                && f.size >= MIN_SIZE)
            &&& (al.back_padding is Some <==> a + size < info.addr + info.size)
            &&& (al.back_padding matches Some(b) ==> b.addr == a + size && b.addr + b.size
                == info.addr + info.size && b.size >= MIN_SIZE)
        }),
{
    let end: usize = info.addr + info.size;
    let aligned: usize;
    if info.addr % align == 0 {
        // the chunk already has the required alignment
        aligned = info.addr;
    } else {
        // the required alignment causes some padding before the allocation
        let t: u128 = info.addr as u128 + MIN_SIZE as u128 + (align as u128 - 1);
        proof {
            lemma_align_up_props(info.addr + MIN_SIZE, align as int);
            lemma_fundamental_div_mod(t as int, align as int);
            lemma_mod_division_less_than_divisor(t as int, align as int);
            lemma_mul_is_commutative(align as int, t as int / align as int);
        }
        let q: u128 = t / (align as u128);
        let a128: u128 = q * (align as u128);
        assert(a128 == spec_align_up(info.addr + MIN_SIZE, align as int));
        if a128 > end as u128 {
            // even the bare aligned address lies past the chunk's end
            return None;
        }
        aligned = a128 as usize;
    }
    if size > end - aligned {
        // chunk is too small once aligned
        return None;
    }
    let remaining: usize = end - aligned - size;
    if remaining != 0 && remaining < MIN_SIZE {
        // the bytes left behind the block could not form a chunk
        return None;
    }
    let front_padding: Option<ChunkInfo> = if aligned != info.addr {
        Some(ChunkInfo { addr: info.addr, size: aligned - info.addr })
    } else {
        None
    };
    let back_padding: Option<ChunkInfo> = if remaining != 0 {
        Some(ChunkInfo { addr: aligned + size, size: remaining })
    } else {
        None
    };
    Some(Allocation { info: ChunkInfo { addr: aligned, size }, front_padding, back_padding })
}

} // verus!
