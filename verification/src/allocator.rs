//! The allocator core: the chunk ledger and the facade over arena,
//! ledger and typed handles.

use vstd::prelude::*;

use crate::errors::VallocError;
use crate::pointer::Pointer;
use crate::value::ArenaValue;
use crate::vmem::VirtMemory;

verus! {

/// One chunk descriptor: a byte range of the arena starting at `base`,
/// `size` bytes long, either handed out (`in_use`) or free.
#[derive(Debug, Clone, Copy, PartialEq, Eq, Structural)]
pub struct ChunkNode {
    /// The arena offset the chunk starts at.
    pub base: usize,
    /// The chunk length in bytes.
    pub size: usize,
    /// Whether the chunk is currently handed out.
    pub in_use: bool,
}

impl ChunkNode {
    /// A descriptor for the `size` bytes starting at `base`.
    pub fn new(base: usize, size: usize, in_use: bool) -> (r: Self)
        ensures
            r == (ChunkNode { base, size, in_use }),
    {
        ChunkNode { base, size, in_use }
    }

    /// The arena offset the chunk starts at.
    pub fn get_ptr(&self) -> (r: usize)
        ensures
            r == self.base,
    {
        self.base
    }

    /// The chunk length in bytes.
    pub fn get_size(&self) -> (r: usize)
        ensures
            r == self.size,
    {
        self.size
    }

    /// Whether the chunk is currently handed out.
    pub fn is_in_use(&self) -> (r: bool)
        ensures
            r == self.in_use,
    {
        self.in_use
    }
}

/// The first arena offset after a chunk.
pub open spec fn chunk_end(c: ChunkNode) -> int {
    c.base + c.size
}

/// Consecutive chunks are base-adjacent: each one starts where its
/// predecessor ends.
/// Chunk `i` starts exactly where chunk `i - 1` ends.
pub open spec fn adjacent_at(cs: Seq<ChunkNode>, i: int) -> bool {
    cs[i].base == chunk_end(cs[i - 1])
}

pub open spec fn chunks_adjacent(cs: Seq<ChunkNode>) -> bool {
    forall|i: int| 1 <= i < cs.len() ==> #[trigger] adjacent_at(cs, i)
}

/// The chunks partition `[0, cap)`: base-adjacent, starting at offset
/// zero and ending exactly at `cap`.
pub open spec fn chunks_tile(cs: Seq<ChunkNode>, cap: int) -> bool {
    &&& chunks_adjacent(cs)
    &&& (cs.len() == 0 ==> cap == 0)
    &&& (cs.len() > 0 ==> cs[0].base == 0 && chunk_end(cs[cs.len() - 1]) == cap)
}

/// No chunk is empty.
pub open spec fn sizes_positive(cs: Seq<ChunkNode>) -> bool {
    forall|i: int| 0 <= i < cs.len() ==> (#[trigger] cs[i]).size > 0
}

/// Coalescing is eager: two free chunks never sit next to each other.
/// Chunks `i` and `i - 1` are not both free.
pub open spec fn not_both_free_at(cs: Seq<ChunkNode>, i: int) -> bool {
    cs[i].in_use || cs[i - 1].in_use
}

pub open spec fn no_adjacent_free(cs: Seq<ChunkNode>) -> bool {
    forall|i: int| 1 <= i < cs.len() ==> #[trigger] not_both_free_at(cs, i)
}

/// The ledger invariant: the chunks tile `[0, cap)`, none is empty, and
/// no two free chunks are adjacent.
pub open spec fn ledger_wf(cs: Seq<ChunkNode>, cap: int) -> bool {
    chunks_tile(cs, cap) && sizes_positive(cs) && no_adjacent_free(cs)
}

/// The bytes a chunk contributes to the free total.
pub open spec fn free_size(c: ChunkNode) -> nat {
    if c.in_use {
        0
    } else {
        c.size as nat
    }
}

/// The sum of the free chunks' sizes.
pub open spec fn free_total(cs: Seq<ChunkNode>) -> nat
    decreases cs.len(),
{
    if cs.len() == 0 {
        0
    } else {
        free_size(cs[0]) + free_total(cs.drop_first())
    }
}

/// The sum of all chunks' sizes.
pub open spec fn size_total(cs: Seq<ChunkNode>) -> nat
    decreases cs.len(),
{
    if cs.len() == 0 {
        0
    } else {
        cs[0].size as nat + size_total(cs.drop_first())
    }
}

/// Replacing one chunk replaces exactly its contribution to the free
/// total.
pub proof fn lemma_free_total_update(cs: Seq<ChunkNode>, i: int, c: ChunkNode)
    requires
        0 <= i < cs.len(),
    ensures
        free_total(cs.update(i, c)) + free_size(cs[i]) == free_total(cs) + free_size(c),
    decreases cs.len(),
{
    let cs2 = cs.update(i, c);
    if i == 0 {
        assert(cs2.drop_first() =~= cs.drop_first());
    } else {
        assert(cs2.drop_first() =~= cs.drop_first().update(i - 1, c));
        lemma_free_total_update(cs.drop_first(), i - 1, c);
    }
}

/// Inserting a chunk adds exactly its contribution to the free total.
pub proof fn lemma_free_total_insert(cs: Seq<ChunkNode>, i: int, c: ChunkNode)
    requires
        0 <= i <= cs.len(),
    ensures
        free_total(cs.insert(i, c)) == free_total(cs) + free_size(c),
    decreases i,
{
    let cs2 = cs.insert(i, c);
    if i == 0 {
        assert(cs2.drop_first() =~= cs);
    } else {
        assert(cs2.drop_first() =~= cs.drop_first().insert(i - 1, c));
        lemma_free_total_insert(cs.drop_first(), i - 1, c);
    }
}

/// Removing a chunk removes exactly its contribution from the free
/// total.
pub proof fn lemma_free_total_remove(cs: Seq<ChunkNode>, i: int)
    requires
        0 <= i < cs.len(),
    ensures
        free_total(cs.remove(i)) + free_size(cs[i]) == free_total(cs),
    decreases i,
{
    let cs2 = cs.remove(i);
    if i == 0 {
        assert(cs2 =~= cs.drop_first());
    } else {
        assert(cs2.drop_first() =~= cs.drop_first().remove(i - 1));
        lemma_free_total_remove(cs.drop_first(), i - 1);
    }
}

/// A free chunk's size never exceeds the free total.
pub proof fn lemma_free_total_member(cs: Seq<ChunkNode>, i: int)
    requires
        0 <= i < cs.len(),
        !cs[i].in_use,
    ensures
        free_total(cs) >= cs[i].size,
    decreases i,
{
    if i > 0 {
        lemma_free_total_member(cs.drop_first(), i - 1);
    }
}

/// The free total never exceeds the sum of all sizes.
pub proof fn lemma_free_total_le_size_total(cs: Seq<ChunkNode>)
    ensures
        free_total(cs) <= size_total(cs),
    decreases cs.len(),
{
    if cs.len() > 0 {
        lemma_free_total_le_size_total(cs.drop_first());
    }
}

/// Base-adjacent chunks sum to the span they cover.
pub proof fn lemma_adjacent_sizes_span(cs: Seq<ChunkNode>)
    requires
        chunks_adjacent(cs),
        cs.len() > 0,
    ensures
        cs[0].base + size_total(cs) == chunk_end(cs[cs.len() - 1]),
    decreases cs.len(),
{
    if cs.len() == 1 {
        assert(cs.drop_first().len() == 0);
        assert(size_total(cs.drop_first()) == 0);
        assert(size_total(cs) == cs[0].size as nat + size_total(cs.drop_first()));
    } else {
        let rest = cs.drop_first();
        assert(chunks_adjacent(rest)) by {
            assert forall|i: int| 1 <= i < rest.len() implies #[trigger] adjacent_at(rest, i) by {
                assert(adjacent_at(cs, i + 1));
                assert(rest[i] == cs[i + 1]);
                assert(rest[i - 1] == cs[i]);
            }
        };
        lemma_adjacent_sizes_span(rest);
        assert(adjacent_at(cs, 1));
        assert(rest[0] == cs[1]);
        assert(rest[rest.len() - 1] == cs[cs.len() - 1]);
        assert(size_total(cs) == cs[0].size as nat + size_total(rest));
    }
}

/// Earlier chunks end no later than later chunks begin.
pub proof fn lemma_chunks_ordered(cs: Seq<ChunkNode>, i: int, j: int)
    requires
        chunks_adjacent(cs),
        0 <= i < j < cs.len(),
    ensures
        chunk_end(cs[i]) <= cs[j].base,
    decreases j - i,
{
    assert(adjacent_at(cs, j));
    if j == i + 1 {
    } else {
        lemma_chunks_ordered(cs, i, j - 1);
    }
}

/// Under the tiling invariant every chunk lies inside `[0, cap)`.
pub proof fn lemma_chunk_in_cap(cs: Seq<ChunkNode>, cap: int, i: int)
    requires
        chunks_tile(cs, cap),
        0 <= i < cs.len(),
    ensures
        chunk_end(cs[i]) <= cap,
{
    if i < cs.len() - 1 {
        lemma_chunks_ordered(cs, i, cs.len() - 1);
    }
}

/// A chunk is named by its base: under the invariant no two chunks
/// share one.
pub proof fn lemma_base_unique(cs: Seq<ChunkNode>, i: int, j: int)
    requires
        chunks_adjacent(cs),
        sizes_positive(cs),
        0 <= i < cs.len(),
        0 <= j < cs.len(),
        cs[i].base == cs[j].base,
    ensures
        i == j,
{
    if i < j {
        lemma_chunks_ordered(cs, i, j);
    } else if j < i {
        lemma_chunks_ordered(cs, j, i);
    }
}

/// The ordered ledger of chunk descriptors, with the running total of
/// free bytes.
#[derive(Debug)]
pub struct ChunkList {
    /// The chunk descriptors, in arena order.
    pub list: Vec<ChunkNode>,
    /// The sum of the free chunks' sizes.
    pub available: usize,
}

impl ChunkList {
    /// The ledger invariant over an arena of `cap` bytes, with the
    /// cached free total in step.
    pub open spec fn wf(self, cap: int) -> bool {
        &&& ledger_wf(self.list@, cap)
        &&& self.available == free_total(self.list@)
    }

    /// A ledger holding at most one starting chunk.
    pub fn new(start: Option<ChunkNode>, available: usize) -> (r: Self)
        ensures
            match start {
                Some(c) => r.list@ == seq![c],
                None => r.list@ == Seq::<ChunkNode>::empty(),
            },
            r.available == available,
    {
        let mut list: Vec<ChunkNode> = Vec::new();
        match start {
            Some(c) => {
                list.push(c);
                proof {
                    assert(list@ =~= seq![c]);
                }
            },
            None => {
                proof {
                    assert(list@ =~= Seq::<ChunkNode>::empty());
                }
            },
        }
        ChunkList { list, available }
    }

    /// The number of chunks in the ledger.
    pub fn len(&self) -> (r: usize)
        ensures
            r == self.list@.len(),
    {
        self.list.len()
    }

    /// The chunk at position `i` in ledger order.
    pub fn get(&self, i: usize) -> (r: ChunkNode)
        requires
            i < self.list@.len(),
        ensures
            r == self.list@[i as int],
    {
        self.list[i]
    }

    /// Append a chunk at the back of the ledger.
    pub fn push_back(&mut self, chunk: ChunkNode)
        ensures
            final(self).list@ == old(self).list@.push(chunk),
            final(self).available == old(self).available,
    {
        self.list.push(chunk);
    }

    /// Prepend a chunk at the front of the ledger.
    pub fn push_front(&mut self, chunk: ChunkNode)
        ensures
            final(self).list@ == old(self).list@.insert(0, chunk),
            final(self).available == old(self).available,
    {
        self.list.insert(0, chunk);
    }

    /// Take the last chunk out of the ledger, if any.
    pub fn pop_back(&mut self) -> (r: Option<ChunkNode>)
        ensures
            final(self).available == old(self).available,
            match r {
                Some(c) => old(self).list@.len() > 0 && c == old(self).list@.last()
                    && final(self).list@ == old(self).list@.drop_last(),
                None => old(self).list@.len() == 0 && final(self).list@ == old(self).list@,
            },
    {
        self.list.pop()
    }

    /// Take the first chunk out of the ledger, if any.
    pub fn pop_front(&mut self) -> (r: Option<ChunkNode>)
        ensures
            final(self).available == old(self).available,
            match r {
                Some(c) => old(self).list@.len() > 0 && c == old(self).list@[0]
                    && final(self).list@ == old(self).list@.drop_first(),
                None => old(self).list@.len() == 0 && final(self).list@ == old(self).list@,
            },
    {
        if self.list.len() == 0 {
            None
        } else {
            let c = self.list.remove(0);
            proof {
                assert(self.list@ =~= old(self).list@.drop_first());
            }
            Some(c)
        }
    }

    /// The cached sum of the free chunks' sizes.
    pub fn get_available(&self) -> (r: usize)
        ensures
            r == self.available,
    {
        self.available
    }

    /// Overwrite the cached free total.
    pub fn set_available(&mut self, available: usize)
        ensures
            final(self).list@ == old(self).list@,
            final(self).available == available,
    {
        self.available = available;
    }
}

/// The allocator facade: one arena, one ledger, and the typed
/// operations over them.
///
/// The ledger's chunks always partition `[0, capacity())`; every
/// operation requires and preserves [`Valloc::wf`].
#[derive(Debug)]
pub struct Valloc {
    /// The byte arena the allocator hands ranges of.
    pub memory: VirtMemory,
    /// The ledger tracking which ranges are free and which are handed
    /// out.
    pub chunks: ChunkList,
}

impl Valloc {
    /// The fixed arena capacity in bytes.
    pub open spec fn capacity(self) -> int {
        self.memory@.len() as int
    }

    /// The arena contents.
    pub open spec fn mem(self) -> Seq<u8> {
        self.memory@
    }

    /// The ledger contents, in arena order.
    pub open spec fn ledger(self) -> Seq<ChunkNode> {
        self.chunks.list@
    }

    /// The allocator invariant: the ledger tiles the arena.
    pub open spec fn wf(self) -> bool {
        self.chunks.wf(self.capacity())
    }

    /// A fresh allocator over a zero-filled arena of `size` bytes; the
    /// ledger starts as one free chunk spanning the whole arena.
    pub fn new(size: usize) -> (r: Self)
        ensures
            r.wf(),
            r.capacity() == size,
            forall|i: int| 0 <= i < size ==> r.mem()[i] == 0u8,
            size > 0 ==> r.ledger() == seq![ChunkNode { base: 0, size, in_use: false }],
            size == 0 ==> r.ledger() == Seq::<ChunkNode>::empty(),
            r.chunks.available == size,
    {
        let memory = VirtMemory::new(size);
        Self::build(memory)
    }

    /// An allocator adopting an existing buffer as its arena, without
    /// zeroing it.
    pub fn from_mem(mem: Vec<u8>) -> (r: Self)
        ensures
            r.wf(),
            r.mem() == mem@,
            mem@.len() > 0 ==> r.ledger() == seq![
                ChunkNode { base: 0, size: mem@.len() as usize, in_use: false },
            ],
            mem@.len() == 0 ==> r.ledger() == Seq::<ChunkNode>::empty(),
            r.chunks.available == mem@.len(),
    {
        let memory = VirtMemory::from_mem(mem);
        Self::build(memory)
    }

    /// The shared constructor: one free chunk spanning the arena.
    fn build(memory: VirtMemory) -> (r: Self)
        ensures
            r.wf(),
            r.memory == memory,
            memory@.len() > 0 ==> r.ledger() == seq![
                ChunkNode { base: 0, size: memory@.len() as usize, in_use: false },
            ],
            memory@.len() == 0 ==> r.ledger() == Seq::<ChunkNode>::empty(),
            r.chunks.available == memory@.len(),
    {
        let len = memory.len();
        let chunks = if len > 0 {
            let c = ChunkNode::new(0, len, false);
            let cl = ChunkList::new(Some(c), len);
            proof {
                assert(cl.list@.drop_first() =~= Seq::<ChunkNode>::empty());
                assert(cl.list@[0] == c);
                assert(free_total(cl.list@) == free_size(c) + free_total(cl.list@.drop_first()));
                assert(free_total(cl.list@) == len);
            }
            cl
        } else {
            ChunkList::new(None, 0)
        };
        Valloc { memory, chunks }
    }

    /// The sum of the free chunks' sizes: an advisory total, not a
    /// promise that a single allocation of that size will fit.
    pub fn available(&self) -> (r: usize)
        requires
            self.wf(),
        ensures
            r == free_total(self.ledger()),
    {
        self.chunks.get_available()
    }
}

/// A free chunk large enough for a request.
pub open spec fn fits(c: ChunkNode, size: int) -> bool {
    !c.in_use && c.size >= size
}

/// `j` is the first ledger position whose chunk can serve a request of
/// `size` bytes.
pub open spec fn is_first_fit(cs: Seq<ChunkNode>, size: int, j: int) -> bool {
    &&& 0 <= j < cs.len()
    &&& fits(cs[j], size)
    &&& forall|i: int| 0 <= i < j ==> !fits(#[trigger] cs[i], size)
}

/// Some free chunk can serve a request of `size` bytes.
pub open spec fn has_fit(cs: Seq<ChunkNode>, size: int) -> bool {
    exists|j: int| 0 <= j < cs.len() && fits(#[trigger] cs[j], size)
}

/// The ledger after serving a request of `size` bytes from the free
/// chunk at `j`: an exact match is handed out whole; a larger chunk is
/// split into a used chunk of `size` bytes followed immediately by the
/// free remainder.
pub open spec fn split_at(cs: Seq<ChunkNode>, j: int, size: int) -> Seq<ChunkNode> {
    if cs[j].size == size {
        cs.update(j, ChunkNode { base: cs[j].base, size: cs[j].size, in_use: true })
    } else {
        cs.update(j, ChunkNode { base: cs[j].base, size: size as usize, in_use: true }).insert(
            j + 1,
            ChunkNode {
                base: (cs[j].base + size) as usize,
                size: (cs[j].size - size) as usize,
                in_use: false,
            },
        )
    }
}

/// Serving a request preserves the ledger invariant and takes exactly
/// the requested bytes out of the free total.
pub proof fn lemma_split_preserves_wf(cs: Seq<ChunkNode>, cap: int, j: int, size: int)
    requires
        ledger_wf(cs, cap),
        cap <= usize::MAX,
        0 <= j < cs.len(),
        fits(cs[j], size),
        size > 0,
    ensures
        ledger_wf(split_at(cs, j, size), cap),
        free_total(split_at(cs, j, size)) + size == free_total(cs),
        split_at(cs, j, size).len() <= cs.len() + 1,
{
    let c = cs[j];
    lemma_chunk_in_cap(cs, cap, j);
    if c.size == size {
        let used = ChunkNode { base: c.base, size: c.size, in_use: true };
        let cs2 = cs.update(j, used);
        assert(chunks_adjacent(cs2)) by {
            assert forall|i: int| 1 <= i < cs2.len() implies (#[trigger] cs2[i]).base == chunk_end(
                cs2[i - 1],
            ) by {
                assert(adjacent_at(cs, i));
                assert(cs[i].base == chunk_end(cs[i - 1]));
            }
        };
        assert(sizes_positive(cs2)) by {
            assert forall|i: int| 0 <= i < cs2.len() implies (#[trigger] cs2[i]).size > 0 by {
                assert(cs[i].size > 0);
            }
        };
        assert(no_adjacent_free(cs2)) by {
            assert forall|i: int| 1 <= i < cs2.len() implies (#[trigger] cs2[i]).in_use || cs2[i
                - 1].in_use by {
                if i != j && i - 1 != j {
                    assert(not_both_free_at(cs, i));
                    assert(cs[i].in_use || cs[i - 1].in_use);
                }
            }
        };
        lemma_free_total_update(cs, j, used);
    } else {
        let used = ChunkNode { base: c.base, size: size as usize, in_use: true };
        let rem = ChunkNode {
            base: (c.base + size) as usize,
            size: (c.size - size) as usize,
            in_use: false,
        };
        let cs1 = cs.update(j, used);
        let cs2 = cs1.insert(j + 1, rem);
        cs1.insert_ensures(j + 1, rem);
        assert(cs2.len() == cs.len() + 1);
        assert(forall|i: int| 0 <= i < j ==> #[trigger] cs2[i] == cs[i]);
        assert(cs2[j] == used);
        assert(cs2[j + 1] == rem);
        assert(forall|i: int| j + 2 <= i < cs2.len() ==> #[trigger] cs2[i] == cs[i - 1]);
        assert(chunks_adjacent(cs2)) by {
            assert forall|i: int| 1 <= i < cs2.len() implies (#[trigger] cs2[i]).base == chunk_end(
                cs2[i - 1],
            ) by {
                if i < j {
                    assert(adjacent_at(cs, i));
                    assert(cs[i].base == chunk_end(cs[i - 1]));
                } else if i == j {
                    assert(adjacent_at(cs, j));
                    assert(cs[j].base == chunk_end(cs[j - 1]));
                } else if i == j + 1 {
                    assert(cs2[i].base == c.base + size);
                } else if i == j + 2 {
                    assert(cs2[i] == cs[j + 1]);
                    assert(adjacent_at(cs, j + 1));
                    assert(cs[j + 1].base == chunk_end(cs[j]));
                } else {
                    assert(cs2[i] == cs[i - 1]);
                    assert(cs2[i - 1] == cs[i - 2]);
                    assert(adjacent_at(cs, i - 1));
                    assert(cs[i - 1].base == chunk_end(cs[i - 2]));
                }
            }
        };
        assert(sizes_positive(cs2)) by {
            assert forall|i: int| 0 <= i < cs2.len() implies (#[trigger] cs2[i]).size > 0 by {
                if i < j {
                    assert(cs[i].size > 0);
                } else if i >= j + 2 {
                    assert(cs2[i] == cs[i - 1]);
                    assert(cs[i - 1].size > 0);
                }
            }
        };
        assert(no_adjacent_free(cs2)) by {
            assert forall|i: int| 1 <= i < cs2.len() implies (#[trigger] cs2[i]).in_use || cs2[i
                - 1].in_use by {
                if i < j {
                    assert(not_both_free_at(cs, i));
                    assert(cs[i].in_use || cs[i - 1].in_use);
                } else if i == j + 2 {
                    assert(cs2[i] == cs[j + 1]);
                    assert(not_both_free_at(cs, j + 1));
                    assert(cs[j + 1].in_use || cs[j].in_use);
                } else if i > j + 2 {
                    assert(cs2[i] == cs[i - 1]);
                    assert(cs2[i - 1] == cs[i - 2]);
                    assert(not_both_free_at(cs, i - 1));
                    assert(cs[i - 1].in_use || cs[i - 2].in_use);
                }
            }
        };
        // the first and last chunks keep the span boundaries
        if j < cs.len() - 1 {
            assert(cs2[cs2.len() - 1] == cs[cs.len() - 1]);
        }
        lemma_free_total_update(cs, j, used);
        lemma_free_total_insert(cs1, j + 1, rem);
    }
}

/// Every first fit is at the one first-fit position.
pub proof fn lemma_first_fit_unique(cs: Seq<ChunkNode>, size: int, i: int, j: int)
    requires
        is_first_fit(cs, size, i),
        is_first_fit(cs, size, j),
    ensures
        i == j,
{
}

impl Valloc {
    /// Allocate `size` bytes: mark the first fitting free chunk as in
    /// use, splitting off the remainder, and hand back a typed handle
    /// on its base.
    ///
    /// A request of zero bytes is refused, never rounded up; a request
    /// no free chunk can serve reports `OutOfMemory`.
    pub fn alloc_bytes<T>(&mut self, size: usize) -> (r: Result<Pointer<T>, VallocError>)
        requires
            old(self).wf(),
        ensures
            final(self).wf(),
            final(self).mem() == old(self).mem(),
            (r matches Err(VallocError::ZeroSizeRequest)) <==> size == 0,
            (r matches Err(VallocError::OutOfMemory)) <==> (size > 0 && !has_fit(
                old(self).ledger(),
                size as int,
            )),
            r is Err ==> final(self).ledger() == old(self).ledger() && final(self).chunks.available
                == old(self).chunks.available,
            r is Err ==> (r matches Err(VallocError::ZeroSizeRequest)) || (r matches Err(
                VallocError::OutOfMemory,
            )),
            r is Ok ==> size > 0 && has_fit(old(self).ledger(), size as int),
            forall|j: int|
                r is Ok && #[trigger] is_first_fit(old(self).ledger(), size as int, j) ==> {
                    &&& final(self).ledger() == split_at(old(self).ledger(), j, size as int)
                    &&& final(self).chunks.available + size == old(self).chunks.available
                    &&& (r matches Ok(p) ==> !p.spec_is_null() && p.spec_address() == old(self).ledger()[j].base && p.spec_index() == 0)
                },
    {
        crate::allocator::alloc_bytes(self, size)
    }
}

/// Allocate `size` bytes from the given allocator; see
/// [`Valloc::alloc_bytes`].
#[verifier::rlimit(30)]
pub fn alloc_bytes<T>(vallocator: &mut Valloc, size: usize) -> (r: Result<Pointer<T>, VallocError>)
    requires
        old(vallocator).wf(),
    ensures
        final(vallocator).wf(),
        final(vallocator).mem() == old(vallocator).mem(),
        (r matches Err(VallocError::ZeroSizeRequest)) <==> size == 0,
        (r matches Err(VallocError::OutOfMemory)) <==> (size > 0 && !has_fit(
            old(vallocator).ledger(),
            size as int,
        )),
        r is Err ==> final(vallocator).ledger() == old(vallocator).ledger() && final(vallocator).chunks.available == old(vallocator).chunks.available,
        r is Err ==> (r matches Err(VallocError::ZeroSizeRequest)) || (r matches Err(
            VallocError::OutOfMemory,
        )),
        r is Ok ==> size > 0 && has_fit(old(vallocator).ledger(), size as int),
        forall|j: int|
            r is Ok && #[trigger] is_first_fit(old(vallocator).ledger(), size as int, j) ==> {
                &&& final(vallocator).ledger() == split_at(old(vallocator).ledger(), j, size as int)
                &&& final(vallocator).chunks.available + size == old(vallocator).chunks.available
                &&& (r matches Ok(p) ==> !p.spec_is_null() && p.spec_address() == old(vallocator).ledger()[j].base && p.spec_index() == 0)
            },
{
    if size == 0 {
        return Err(VallocError::ZeroSizeRequest);
    }
    let ghost cs0 = vallocator.ledger();
    let ghost cap = vallocator.capacity();
    let n = vallocator.chunks.len();
    let mut i: usize = 0;
    while i < n
        invariant
            *vallocator == *old(vallocator),
            old(vallocator).wf(),
            cs0 == old(vallocator).ledger(),
            cap == old(vallocator).capacity(),
            n == cs0.len(),
            i <= n,
            size > 0,
            forall|k: int| 0 <= k < i ==> !fits(#[trigger] cs0[k], size as int),
        decreases n - i,
    {
        let c = vallocator.chunks.get(i);
        if !c.in_use && c.size >= size {
            proof {
                vallocator.memory.lemma_len_bound();
                assert(is_first_fit(cs0, size as int, i as int));
                assert(has_fit(cs0, size as int)) by {
                    assert(0 <= i < cs0.len() && fits(cs0[i as int], size as int));
                };
                lemma_chunk_in_cap(cs0, cap, i as int);
                lemma_free_total_member(cs0, i as int);
                lemma_split_preserves_wf(cs0, cap, i as int, size as int);
            }
            if c.size > size {
                let used = ChunkNode::new(c.base, size, true);
                let rem = ChunkNode::new(c.base + size, c.size - size, false);
                let elem = &mut vallocator.chunks.list[i];
                *elem = used;
                vallocator.chunks.list.insert(i + 1, rem);
            } else {
                let used = ChunkNode::new(c.base, c.size, true);
                let elem = &mut vallocator.chunks.list[i];
                *elem = used;
            }
            proof {
                assert(vallocator.ledger() == split_at(cs0, i as int, size as int));
                assert forall|j: int| is_first_fit(cs0, size as int, j) implies j == i as int by {
                    lemma_first_fit_unique(cs0, size as int, j, i as int);
                };
            }
            let av = vallocator.chunks.get_available();
            vallocator.chunks.set_available(av - size);
            return Ok(Pointer::new(c.base, 0));
        }
        i = i + 1;
    }
    proof {
        assert(!has_fit(cs0, size as int)) by {
            assert forall|j: int| 0 <= j < cs0.len() implies !fits(#[trigger] cs0[j], size as int)
            by {
                assert(!fits(cs0[j], size as int));
            }
        };
    }
    Err(VallocError::OutOfMemory)
}


/// `j` is the ledger position of the chunk based at `off`.
pub open spec fn is_base_of(cs: Seq<ChunkNode>, off: int, j: int) -> bool {
    0 <= j < cs.len() && cs[j].base == off
}

/// Some chunk of the ledger is based at `off`.
pub open spec fn has_base(cs: Seq<ChunkNode>, off: int) -> bool {
    exists|j: int| is_base_of(cs, off, j)
}

/// The ledger with the free chunks at `k` and `k + 1` merged into one.
pub open spec fn merge_at(cs: Seq<ChunkNode>, k: int) -> Seq<ChunkNode> {
    cs.update(
        k,
        ChunkNode { base: cs[k].base, size: (cs[k].size + cs[k + 1].size) as usize, in_use: false },
    ).remove(k + 1)
}

/// The ledger after giving the chunk at `j` back: it is marked free,
/// then merged with a free chunk after it, then with a free chunk
/// before it.
pub open spec fn release_at(cs: Seq<ChunkNode>, j: int) -> Seq<ChunkNode> {
    let freed = cs.update(j, ChunkNode { base: cs[j].base, size: cs[j].size, in_use: false });
    let m1 = if j + 1 < freed.len() && !freed[j + 1].in_use {
        merge_at(freed, j)
    } else {
        freed
    };
    if j > 0 && !m1[j - 1].in_use {
        merge_at(m1, j - 1)
    } else {
        m1
    }
}

/// Merging two adjacent free chunks keeps the ledger base-adjacent,
/// keeps every chunk non-empty, keeps the free total, and moves the
/// later chunks down one position.
pub proof fn lemma_merge_at(cs: Seq<ChunkNode>, k: int)
    requires
        chunks_adjacent(cs),
        sizes_positive(cs),
        0 <= k,
        k + 1 < cs.len(),
        !cs[k].in_use,
        !cs[k + 1].in_use,
        cs[k].size + cs[k + 1].size <= usize::MAX,
    ensures
        merge_at(cs, k).len() == cs.len() - 1,
        chunks_adjacent(merge_at(cs, k)),
        sizes_positive(merge_at(cs, k)),
        free_total(merge_at(cs, k)) == free_total(cs),
        merge_at(cs, k)[k] == (ChunkNode {
            base: cs[k].base,
            size: (cs[k].size + cs[k + 1].size) as usize,
            in_use: false,
        }),
        forall|i: int| 0 <= i < k ==> #[trigger] merge_at(cs, k)[i] == cs[i],
        forall|i: int| k < i < cs.len() - 1 ==> #[trigger] merge_at(cs, k)[i] == cs[i + 1],
        cs.len() >= 2 ==> merge_at(cs, k)[0].base == cs[0].base,
        chunk_end(merge_at(cs, k)[merge_at(cs, k).len() - 1]) == chunk_end(cs[cs.len() - 1]),
{
    let big = ChunkNode {
        base: cs[k].base,
        size: (cs[k].size + cs[k + 1].size) as usize,
        in_use: false,
    };
    let cs1 = cs.update(k, big);
    let cs2 = cs1.remove(k + 1);
    cs1.remove_ensures(k + 1);
    assert(forall|i: int| 0 <= i < k ==> #[trigger] cs2[i] == cs[i]);
    assert(cs2[k] == big);
    assert(forall|i: int| k < i < cs2.len() ==> #[trigger] cs2[i] == cs[i + 1]);
    assert(chunks_adjacent(cs2)) by {
        assert forall|i: int| 1 <= i < cs2.len() implies (#[trigger] cs2[i]).base == chunk_end(
            cs2[i - 1],
        ) by {
            if i < k {
                assert(adjacent_at(cs, i));
                assert(cs[i].base == chunk_end(cs[i - 1]));
            } else if i == k {
                assert(adjacent_at(cs, k));
                assert(cs[k].base == chunk_end(cs[k - 1]));
            } else if i == k + 1 {
                assert(cs2[i] == cs[k + 2]);
                assert(adjacent_at(cs, k + 2));
                assert(cs[k + 2].base == chunk_end(cs[k + 1]));
                assert(adjacent_at(cs, k + 1));
                assert(cs[k + 1].base == chunk_end(cs[k]));
            } else {
                assert(cs2[i] == cs[i + 1]);
                assert(cs2[i - 1] == cs[i]);
                assert(adjacent_at(cs, i + 1));
                assert(cs[i + 1].base == chunk_end(cs[i]));
            }
        }
    };
    assert(sizes_positive(cs2)) by {
        assert forall|i: int| 0 <= i < cs2.len() implies (#[trigger] cs2[i]).size > 0 by {
            if i < k {
                assert(cs[i].size > 0);
            } else if i > k {
                assert(cs2[i] == cs[i + 1]);
                assert(cs[i + 1].size > 0);
            }
        }
    };
    lemma_free_total_update(cs, k, big);
    lemma_free_total_remove(cs1, k + 1);
    assert(cs1[k + 1] == cs[k + 1]);
    if k + 1 == cs.len() - 1 {
        assert(cs2[cs2.len() - 1] == big);
        assert(adjacent_at(cs, k + 1));
        assert(cs[k + 1].base == chunk_end(cs[k]));
    } else {
        assert(cs2[cs2.len() - 1] == cs[cs.len() - 1]);
    }
}

/// The free total never exceeds the arena capacity.
pub proof fn lemma_free_total_le_cap(cs: Seq<ChunkNode>, cap: int)
    requires
        chunks_tile(cs, cap),
    ensures
        free_total(cs) <= cap,
        size_total(cs) == cap - (if cs.len() > 0 {
            cs[0].base as int
        } else {
            cap
        }),
{
    lemma_free_total_le_size_total(cs);
    if cs.len() > 0 {
        lemma_adjacent_sizes_span(cs);
    }
}

/// Releasing an in-use chunk preserves the ledger invariant and gives
/// exactly its bytes back to the free total.
#[verifier::rlimit(100)]
#[verifier::spinoff_prover]
pub proof fn lemma_release_preserves_wf(cs: Seq<ChunkNode>, cap: int, j: int)
    requires
        ledger_wf(cs, cap),
        cap <= usize::MAX,
        0 <= j < cs.len(),
        cs[j].in_use,
    ensures
        ledger_wf(release_at(cs, j), cap),
        free_total(release_at(cs, j)) == free_total(cs) + cs[j].size,
        ({
            let res = release_at(cs, j);
            let lo = if j > 0 && !cs[j - 1].in_use {
                j - 1
            } else {
                j
            };
            let drop_n = (if j + 1 < cs.len() && !cs[j + 1].in_use {
                1int
            } else {
                0int
            }) + (if j > 0 && !cs[j - 1].in_use {
                1int
            } else {
                0int
            });
            &&& res.len() == cs.len() - drop_n
            &&& !res[lo].in_use
            &&& res[lo].base == cs[lo].base
            &&& chunk_end(res[lo]) == (if j + 1 < cs.len() && !cs[j + 1].in_use {
                chunk_end(cs[j + 1])
            } else {
                chunk_end(cs[j])
            })
            &&& (forall|t: int| 0 <= t < lo ==> #[trigger] res[t] == cs[t])
            &&& (forall|t: int| lo < t < res.len() ==> #[trigger] res[t] == cs[t + drop_n])
        }),
{
    let freed = cs.update(j, ChunkNode { base: cs[j].base, size: cs[j].size, in_use: false });
    lemma_free_total_update(cs, j, freed[j]);
    assert(chunks_adjacent(freed)) by {
        assert forall|i: int| 1 <= i < freed.len() implies (#[trigger] freed[i]).base == chunk_end(
            freed[i - 1],
        ) by {
            assert(adjacent_at(cs, i));
            assert(cs[i].base == chunk_end(cs[i - 1]));
        }
    };
    assert(sizes_positive(freed)) by {
        assert forall|i: int| 0 <= i < freed.len() implies (#[trigger] freed[i]).size > 0 by {
            assert(cs[i].size > 0);
        }
    };
    let next_free = j + 1 < cs.len() && !cs[j + 1].in_use;
    let prev_free = j > 0 && !cs[j - 1].in_use;
    if j + 1 < cs.len() {
        lemma_chunk_in_cap(cs, cap, j + 1);
        assert(adjacent_at(cs, j + 1));
    }
    if j > 0 {
        assert(adjacent_at(cs, j));
    }
    lemma_chunk_in_cap(cs, cap, j);
    let m1 = if next_free {
        merge_at(freed, j)
    } else {
        freed
    };
    if next_free {
        assert(freed[j + 1] == cs[j + 1]);
        lemma_merge_at(freed, j);
    }
    assert(m1[j].base == cs[j].base && !m1[j].in_use);
    assert(j > 0 ==> m1[j - 1] == cs[j - 1]);
    assert(release_at(cs, j) == (if j > 0 && !m1[j - 1].in_use {
        merge_at(m1, j - 1)
    } else {
        m1
    }));
    let m2 = if prev_free {
        merge_at(m1, j - 1)
    } else {
        m1
    };
    assert(release_at(cs, j) == m2);
    if prev_free {
        assert(m1[j - 1].size + m1[j].size <= cap) by {
            if next_free {
                assert(m1[j].size == cs[j].size + cs[j + 1].size);
                lemma_chunks_ordered(cs, j - 1, j);
            } else {
                lemma_chunks_ordered(cs, j - 1, j);
            }
        };
        lemma_merge_at(m1, j - 1);
    }
    // the span boundaries are kept
    assert(m2.len() > 0);
    assert(m2[0].base == cs[0].base) by {
        if prev_free && j == 1 {
            assert(m2[0].base == m1[0].base);
        }
    };
    assert(chunk_end(m2[m2.len() - 1]) == chunk_end(cs[cs.len() - 1]));
    // no two free chunks are adjacent afterwards
    assert(no_adjacent_free(m2)) by {
        let lo = if prev_free {
            j - 1
        } else {
            j
        };
        // in m2, the merged free chunk sits at position lo
        assert(!m2[lo].in_use);
        assert forall|i: int| 1 <= i < m2.len() implies (#[trigger] m2[i]).in_use || m2[i
            - 1].in_use by {
            let shift_hi = (if next_free {
                1int
            } else {
                0int
            }) + (if prev_free {
                1int
            } else {
                0int
            });
            if i < lo {
                // untouched prefix pair
                assert(m2[i] == cs[i]);
                assert(m2[i - 1] == cs[i - 1]);
                assert(not_both_free_at(cs, i));
                assert(cs[i].in_use || cs[i - 1].in_use);
            } else if i == lo {
                // the chunk before the merged free chunk is in use
                if prev_free {
                    assert(m2[i - 1] == cs[i - 1]);
                    assert(not_both_free_at(cs, j - 1));
                    assert(cs[j - 1].in_use || cs[j - 2].in_use);
                } else {
                    assert(m2[i - 1] == cs[i - 1]);
                }
            } else if i == lo + 1 {
                // the chunk after the merged free chunk is in use
                assert(m2[i] == cs[i + shift_hi]);
                if next_free {
                    assert(not_both_free_at(cs, j + 2));
                    assert(cs[j + 2].in_use || cs[j + 1].in_use);
                }
            } else {
                // untouched suffix pair
                assert(m2[i] == cs[i + shift_hi]);
                assert(m2[i - 1] == cs[i - 1 + shift_hi]);
                assert(not_both_free_at(cs, i + shift_hi));
                assert(cs[i + shift_hi].in_use || cs[i + shift_hi - 1].in_use);
            }
        }
    };
    // where each chunk of the result comes from
    let lo = if prev_free {
        j - 1
    } else {
        j
    };
    let drop_n = (if next_free {
        1int
    } else {
        0int
    }) + (if prev_free {
        1int
    } else {
        0int
    });
    assert(m2.len() == cs.len() - drop_n);
    assert(!m2[lo].in_use);
    assert(m2[lo].base == cs[lo].base);
    assert(chunk_end(m2[lo]) == (if next_free {
        chunk_end(cs[j + 1])
    } else {
        chunk_end(cs[j])
    }));
    assert forall|t: int| 0 <= t < lo implies #[trigger] m2[t] == cs[t] by {
        if prev_free {
            assert(m2[t] == m1[t]);
        }
        if next_free {
            assert(m1[t] == freed[t]);
        }
        assert(freed[t] == cs[t]);
    };
    assert forall|t: int| lo < t < m2.len() implies #[trigger] m2[t] == cs[t + drop_n] by {
        if prev_free {
            assert(m2[t] == m1[t + 1]);
            if next_free {
                assert(m1[t + 1] == freed[t + 2]);
                assert(freed[t + 2] == cs[t + 2]);
            } else {
                assert(freed[t + 1] == cs[t + 1]);
            }
        } else {
            if next_free {
                assert(m2[t] == freed[t + 1]);
                assert(freed[t + 1] == cs[t + 1]);
            } else {
                assert(m2[t] == cs[t]);
            }
        }
    };
}


impl Valloc {
    /// Give a chunk back: the handle must name the chunk's base, the
    /// chunk is marked free and eagerly merged with free neighbours,
    /// and the caller's handle is nulled so it cannot silently be
    /// reused.  The freed bytes are not zeroed.
    pub fn free<T>(&mut self, ptr: &mut Pointer<T>) -> (r: Result<(), VallocError>)
        requires
            old(self).wf(),
        ensures
            final(self).wf(),
            final(self).mem() == old(self).mem(),
            old(ptr).spec_is_null() ==> r == Err::<(), VallocError>(
                VallocError::NullPointerDereference,
            ) && *final(self) == *old(self) && *final(ptr) == *old(ptr),
            (!old(ptr).spec_is_null() && !has_base(
                old(self).ledger(),
                old(ptr).spec_address() as int,
            )) ==> r == Err::<(), VallocError>(VallocError::InvalidPointer) && *final(self) == *old(self) && *final(ptr) == *old(ptr),
            forall|j: int|
                !old(ptr).spec_is_null() && #[trigger] is_base_of(
                    old(self).ledger(),
                    old(ptr).spec_address() as int,
                    j,
                ) && !old(self).ledger()[j].in_use ==> r == Err::<(), VallocError>(
                    VallocError::DoubleFree,
                ) && *final(self) == *old(self) && *final(ptr) == *old(ptr),
            forall|j: int|
                !old(ptr).spec_is_null() && #[trigger] is_base_of(
                    old(self).ledger(),
                    old(ptr).spec_address() as int,
                    j,
                ) && old(self).ledger()[j].in_use ==> {
                    &&& r is Ok
                    &&& final(self).ledger() == release_at(old(self).ledger(), j)
                    &&& final(self).chunks.available == old(self).chunks.available + old(self).ledger()[j].size
                    &&& final(ptr).spec_is_null()
                },
            r is Ok ==> !old(ptr).spec_is_null() && has_base(
                old(self).ledger(),
                old(ptr).spec_address() as int,
            ),
    {
        crate::allocator::free(self, ptr)
    }
}

/// Give a chunk back to the given allocator; see [`Valloc::free`].
#[verifier::rlimit(60)]
pub fn free<T>(vallocator: &mut Valloc, ptr: &mut Pointer<T>) -> (r: Result<(), VallocError>)
    requires
        old(vallocator).wf(),
    ensures
        final(vallocator).wf(),
        final(vallocator).mem() == old(vallocator).mem(),
        old(ptr).spec_is_null() ==> r == Err::<(), VallocError>(
            VallocError::NullPointerDereference,
        ) && *final(vallocator) == *old(vallocator) && *final(ptr) == *old(ptr),
        (!old(ptr).spec_is_null() && !has_base(
            old(vallocator).ledger(),
            old(ptr).spec_address() as int,
        )) ==> r == Err::<(), VallocError>(VallocError::InvalidPointer) && *final(vallocator)
            == *old(vallocator) && *final(ptr) == *old(ptr),
        forall|j: int|
            !old(ptr).spec_is_null() && #[trigger] is_base_of(
                old(vallocator).ledger(),
                old(ptr).spec_address() as int,
                j,
            ) && !old(vallocator).ledger()[j].in_use ==> r == Err::<(), VallocError>(
                VallocError::DoubleFree,
            ) && *final(vallocator) == *old(vallocator) && *final(ptr) == *old(ptr),
        forall|j: int|
            !old(ptr).spec_is_null() && #[trigger] is_base_of(
                old(vallocator).ledger(),
                old(ptr).spec_address() as int,
                j,
            ) && old(vallocator).ledger()[j].in_use ==> {
                &&& r is Ok
                &&& final(vallocator).ledger() == release_at(old(vallocator).ledger(), j)
                &&& final(vallocator).chunks.available == old(vallocator).chunks.available + old(vallocator).ledger()[j].size
                &&& final(ptr).spec_is_null()
            },
        r is Ok ==> !old(ptr).spec_is_null() && has_base(
            old(vallocator).ledger(),
            old(ptr).spec_address() as int,
        ),
{
    let addr = match ptr.address() {
        Ok(a) => a,
        Err(e) => {
            return Err(e);
        },
    };
    let ghost cs0 = vallocator.ledger();
    let ghost cap = vallocator.capacity();
    let n = vallocator.chunks.len();
    let mut j: usize = 0;
    while j < n
        invariant
            *vallocator == *old(vallocator),
            *ptr == *old(ptr),
            old(vallocator).wf(),
            cs0 == old(vallocator).ledger(),
            cap == old(vallocator).capacity(),
            n == cs0.len(),
            j <= n,
            !old(ptr).spec_is_null(),
            addr == old(ptr).spec_address(),
            forall|k: int| 0 <= k < j ==> (#[trigger] cs0[k]).base != addr,
        decreases n - j,
    {
        let c = vallocator.chunks.get(j);
        if c.base == addr {
            proof {
                assert(is_base_of(cs0, addr as int, j as int));
                assert(has_base(cs0, addr as int));
                assert forall|k: int| is_base_of(cs0, addr as int, k) implies k == j as int by {
                    lemma_base_unique(cs0, k, j as int);
                };
            }
            if !c.in_use {
                return Err(VallocError::DoubleFree);
            }
            proof {
                vallocator.memory.lemma_len_bound();
                lemma_release_preserves_wf(cs0, cap, j as int);
                lemma_chunk_in_cap(cs0, cap, j as int);
                if j + 1 < n {
                    lemma_chunk_in_cap(cs0, cap, j as int + 1);
                    assert(adjacent_at(cs0, j as int + 1));
                }
                if j > 0 {
                    assert(adjacent_at(cs0, j as int));
                }
                lemma_free_total_le_cap(release_at(cs0, j as int), cap);
            }
            // mark the chunk free
            let freed = ChunkNode::new(c.base, c.size, false);
            let elem = &mut vallocator.chunks.list[j];
            *elem = freed;
            let ghost fseq = cs0.update(
                j as int,
                ChunkNode { base: cs0[j as int].base, size: cs0[j as int].size, in_use: false },
            );
            proof {
                assert(vallocator.ledger() == fseq);
            }
            // merge with the chunk after, if free
            if j + 1 < n {
                let next = vallocator.chunks.get(j + 1);
                if !next.in_use {
                    let merged = ChunkNode::new(c.base, c.size + next.size, false);
                    let elem = &mut vallocator.chunks.list[j];
                    *elem = merged;
                    vallocator.chunks.list.remove(j + 1);
                    proof {
                        assert(vallocator.ledger() == merge_at(fseq, j as int));
                    }
                }
            }
            let ghost m1 = if j as int + 1 < fseq.len() && !fseq[j as int + 1].in_use {
                merge_at(fseq, j as int)
            } else {
                fseq
            };
            proof {
                assert(vallocator.ledger() == m1);
            }
            // merge with the chunk before, if free
            if j > 0 {
                let prev = vallocator.chunks.get(j - 1);
                if !prev.in_use {
                    let cur = vallocator.chunks.get(j);
                    proof {
                        if j as int + 1 < fseq.len() && !fseq[j as int + 1].in_use {
                            lemma_chunks_ordered(cs0, j as int - 1, j as int);
                        } else {
                            lemma_chunks_ordered(cs0, j as int - 1, j as int);
                        }
                    }
                    let merged = ChunkNode::new(prev.base, prev.size + cur.size, false);
                    let elem = &mut vallocator.chunks.list[j - 1];
                    *elem = merged;
                    vallocator.chunks.list.remove(j);
                    proof {
                        assert(vallocator.ledger() == merge_at(m1, j as int - 1));
                    }
                }
            }
            proof {
                assert(vallocator.ledger() == release_at(cs0, j as int));
            }
            let av = vallocator.chunks.get_available();
            vallocator.chunks.set_available(av + c.size);
            *ptr = Pointer::NULL;
            return Ok(());
        }
        j = j + 1;
    }
    proof {
        assert(!has_base(cs0, addr as int)) by {
            assert forall|k: int| 0 <= k < cs0.len() implies !is_base_of(cs0, addr as int, k) by {
                assert(cs0[k].base != addr);
            }
        };
    }
    Err(VallocError::InvalidPointer)
}


/// The `w` bytes starting at `off` lie inside a single in-use chunk.
pub open spec fn live_range(cs: Seq<ChunkNode>, off: int, w: int) -> bool {
    exists|j: int|
        0 <= j < cs.len() && (#[trigger] cs[j]).in_use && cs[j].base <= off && off + w <= chunk_end(
            cs[j],
        )
}

/// The arena contents after laying `bytes` down at offset `off`.
pub open spec fn store_bytes(mem: Seq<u8>, off: int, bytes: Seq<u8>) -> Seq<u8> {
    Seq::new(
        mem.len(),
        |i: int|
            if off <= i < off + bytes.len() {
                bytes[i - off]
            } else {
                mem[i]
            },
    )
}

/// At most one chunk contains a given offset.
pub proof fn lemma_container_unique(cs: Seq<ChunkNode>, i: int, j: int, off: int)
    requires
        chunks_adjacent(cs),
        0 <= i < cs.len(),
        0 <= j < cs.len(),
        cs[i].base <= off < chunk_end(cs[i]),
        cs[j].base <= off < chunk_end(cs[j]),
    ensures
        i == j,
{
    if i < j {
        lemma_chunks_ordered(cs, i, j);
    } else if j < i {
        lemma_chunks_ordered(cs, j, i);
    }
}

impl Valloc {
    /// The ledger position of the in-use chunk containing `addr`, if
    /// any.
    fn find_owner(&self, addr: usize) -> (r: Option<usize>)
        requires
            self.wf(),
        ensures
            match r {
                Some(j) => j < self.ledger().len() && self.ledger()[j as int].in_use
                    && self.ledger()[j as int].base <= addr && addr < chunk_end(
                    self.ledger()[j as int],
                ),
                None => forall|k: int|
                    0 <= k < self.ledger().len() ==> !((#[trigger] self.ledger()[k]).in_use
                        && self.ledger()[k].base <= addr && addr < chunk_end(self.ledger()[k])),
            },
    {
        let n = self.chunks.len();
        let mut i: usize = 0;
        while i < n
            invariant
                self.wf(),
                n == self.ledger().len(),
                i <= n,
                forall|k: int|
                    0 <= k < i ==> !((#[trigger] self.ledger()[k]).in_use && self.ledger()[k].base
                        <= addr && addr < chunk_end(self.ledger()[k])),
            decreases n - i,
        {
            let c = self.chunks.get(i);
            if c.in_use && c.base <= addr && addr - c.base < c.size {
                return Some(i);
            }
            i = i + 1;
        }
        None
    }

    /// Write `value` into the arena at the handle's location, after
    /// checking that all `width()` bytes lie inside the in-use chunk
    /// owning that location.
    pub fn write<T: ArenaValue>(&mut self, ptr: &Pointer<T>, value: T) -> (r: Result<
        (),
        VallocError,
    >)
        requires
            old(self).wf(),
        ensures
            final(self).wf(),
            final(self).chunks == old(self).chunks,
            final(self).mem().len() == old(self).mem().len(),
            ptr.spec_is_null() ==> r == Err::<(), VallocError>(VallocError::NullPointerDereference)
                && final(self).mem() == old(self).mem(),
            !ptr.spec_is_null() && !live_range(
                old(self).ledger(),
                ptr.spec_address() as int,
                T::spec_width() as int,
            ) ==> r == Err::<(), VallocError>(VallocError::InvalidAddress) && final(self).mem()
                == old(self).mem(),
            !ptr.spec_is_null() && live_range(
                old(self).ledger(),
                ptr.spec_address() as int,
                T::spec_width() as int,
            ) ==> r is Ok && final(self).mem() == store_bytes(
                old(self).mem(),
                ptr.spec_address() as int,
                value.encode_spec(),
            ),
    {
        let addr = match ptr.address() {
            Ok(a) => a,
            Err(e) => {
                return Err(e);
            },
        };
        let w = T::width();
        proof {
            value.lemma_encode_len();
        }
        let j = match self.find_owner(addr) {
            Some(j) => j,
            None => {
                proof {
                    assert(!live_range(self.ledger(), addr as int, T::spec_width() as int)) by {
                        if live_range(self.ledger(), addr as int, T::spec_width() as int) {
                            let k = choose|k: int|
                                0 <= k < self.ledger().len() && (#[trigger] self.ledger()[k]).in_use
                                    && self.ledger()[k].base <= addr as int && addr as int
                                    + T::spec_width() <= chunk_end(self.ledger()[k]);
                            assert(addr < chunk_end(self.ledger()[k]));
                        }
                    };
                }
                return Err(VallocError::InvalidAddress);
            },
        };
        let c = self.chunks.get(j);
        if w > c.size - (addr - c.base) {
            proof {
                assert(!live_range(self.ledger(), addr as int, T::spec_width() as int)) by {
                    if live_range(self.ledger(), addr as int, T::spec_width() as int) {
                        let k = choose|k: int|
                            0 <= k < self.ledger().len() && (#[trigger] self.ledger()[k]).in_use
                                && self.ledger()[k].base <= addr as int && addr as int
                                + T::spec_width() <= chunk_end(self.ledger()[k]);
                        assert(addr < chunk_end(self.ledger()[k]));
                        lemma_container_unique(self.ledger(), k, j as int, addr as int);
                    }
                };
            }
            return Err(VallocError::InvalidAddress);
        }
        proof {
            assert(live_range(self.ledger(), addr as int, T::spec_width() as int)) by {
                assert(0 <= (j as int) && (j as int) < self.ledger().len()
                    && self.ledger()[j as int].in_use && self.ledger()[j as int].base <= addr as int
                    && addr as int + T::spec_width() <= chunk_end(self.ledger()[j as int]));
            };
            lemma_chunk_in_cap(self.ledger(), self.capacity(), j as int);
        }
        let bytes = value.encode();
        proof {
            self.memory.lemma_len_bound();
        }
        let mut k: usize = 0;
        while k < w
            invariant
                self.chunks == old(self).chunks,
                self.memory@.len() == old(self).memory@.len(),
                addr + w <= self.memory@.len(),
                self.memory@.len() <= usize::MAX,
                k <= w,
                w == T::spec_width(),
                bytes@ == value.encode_spec(),
                bytes@.len() == w,
                forall|t: int| 0 <= t < k ==> self.memory@[addr + t] == bytes@[t],
                forall|t: int|
                    0 <= t < self.memory@.len() && !(addr <= t < addr + k) ==> self.memory@[t]
                        == old(self).memory@[t],
            decreases w - k,
        {
            let b = bytes[k];
            self.memory.write_byte(addr + k, b);
            k = k + 1;
        }
        proof {
            assert(self.memory@ =~= store_bytes(
                old(self).memory@,
                addr as int,
                value.encode_spec(),
            ));
        }
        Ok(())
    }

    /// Read a value of type `T` back from the handle's location, after
    /// checking that all `width()` bytes lie inside the in-use chunk
    /// owning that location.
    pub fn read<T: ArenaValue>(&self, ptr: &Pointer<T>) -> (r: Result<T, VallocError>)
        requires
            self.wf(),
        ensures
            match r {
                Ok(v) => !ptr.spec_is_null() && live_range(
                    self.ledger(),
                    ptr.spec_address() as int,
                    T::spec_width() as int,
                ) && v == T::decode_spec(
                    self.mem().subrange(
                        ptr.spec_address() as int,
                        ptr.spec_address() + T::spec_width(),
                    ),
                ),
                Err(e) => {
                    &&& (ptr.spec_is_null() ==> e == VallocError::NullPointerDereference)
                    &&& (!ptr.spec_is_null() ==> e == VallocError::InvalidAddress && !live_range(
                        self.ledger(),
                        ptr.spec_address() as int,
                        T::spec_width() as int,
                    ))
                },
            },
    {
        let addr = match ptr.address() {
            Ok(a) => a,
            Err(e) => {
                return Err(e);
            },
        };
        let w = T::width();
        let j = match self.find_owner(addr) {
            Some(j) => j,
            None => {
                proof {
                    assert(!live_range(self.ledger(), addr as int, T::spec_width() as int)) by {
                        if live_range(self.ledger(), addr as int, T::spec_width() as int) {
                            let k = choose|k: int|
                                0 <= k < self.ledger().len() && (#[trigger] self.ledger()[k]).in_use
                                    && self.ledger()[k].base <= addr as int && addr as int
                                    + T::spec_width() <= chunk_end(self.ledger()[k]);
                            assert(addr < chunk_end(self.ledger()[k]));
                        }
                    };
                }
                return Err(VallocError::InvalidAddress);
            },
        };
        let c = self.chunks.get(j);
        if w > c.size - (addr - c.base) {
            proof {
                assert(!live_range(self.ledger(), addr as int, T::spec_width() as int)) by {
                    if live_range(self.ledger(), addr as int, T::spec_width() as int) {
                        let k = choose|k: int|
                            0 <= k < self.ledger().len() && (#[trigger] self.ledger()[k]).in_use
                                && self.ledger()[k].base <= addr as int && addr as int
                                + T::spec_width() <= chunk_end(self.ledger()[k]);
                        assert(addr < chunk_end(self.ledger()[k]));
                        lemma_container_unique(self.ledger(), k, j as int, addr as int);
                    }
                };
            }
            return Err(VallocError::InvalidAddress);
        }
        proof {
            assert(live_range(self.ledger(), addr as int, T::spec_width() as int)) by {
                assert(0 <= (j as int) && (j as int) < self.ledger().len()
                    && self.ledger()[j as int].in_use && self.ledger()[j as int].base <= addr as int
                    && addr as int + T::spec_width() <= chunk_end(self.ledger()[j as int]));
            };
            lemma_chunk_in_cap(self.ledger(), self.capacity(), j as int);
        }
        let mut bytes: Vec<u8> = Vec::new();
        proof {
            self.memory.lemma_len_bound();
        }
        let mut k: usize = 0;
        while k < w
            invariant
                self.wf(),
                addr + w <= self.memory@.len(),
                self.memory@.len() <= usize::MAX,
                k <= w,
                bytes@.len() == k,
                forall|t: int| 0 <= t < k ==> bytes@[t] == self.memory@[addr + t],
            decreases w - k,
        {
            let b = self.memory.read_byte(addr + k);
            bytes.push(b);
            k = k + 1;
        }
        proof {
            assert(bytes@ =~= self.memory@.subrange(addr as int, addr + T::spec_width()));
        }
        Ok(T::decode(&bytes))
    }
}


/// A live range lies inside the arena.
pub proof fn lemma_live_range_in_cap(cs: Seq<ChunkNode>, cap: int, off: int, w: int)
    requires
        chunks_tile(cs, cap),
        live_range(cs, off, w),
    ensures
        0 <= off,
        off + w <= cap,
{
    let j = choose|j: int|
        0 <= j < cs.len() && (#[trigger] cs[j]).in_use && cs[j].base <= off && off + w <= chunk_end(
            cs[j],
        );
    lemma_chunk_in_cap(cs, cap, j);
}

/// Element `i` of a buffer of `w`-byte elements starting at `off` lies
/// in an in-use chunk.
pub open spec fn elem_live(cs: Seq<ChunkNode>, off: int, w: int, i: int) -> bool {
    live_range(cs, off + i * w, w)
}

/// Every element of a buffer of `count` elements lies in an in-use
/// chunk.
pub open spec fn buffer_live(cs: Seq<ChunkNode>, off: int, w: int, count: int) -> bool {
    forall|i: int| 0 <= i < count ==> #[trigger] elem_live(cs, off, w, i)
}

/// The arena contents after writing each value of `vals` at its slot,
/// element `i` at offset `off + i * width`.
pub open spec fn store_elems<T: ArenaValue>(mem: Seq<u8>, off: int, vals: Seq<T>) -> Seq<u8>
    decreases vals.len(),
{
    if vals.len() == 0 {
        mem
    } else {
        store_elems(
            store_bytes(mem, off, vals[0].encode_spec()),
            off + T::spec_width(),
            vals.drop_first(),
        )
    }
}

/// Writing the elements never changes the arena length.
pub proof fn lemma_store_elems_len<T: ArenaValue>(mem: Seq<u8>, off: int, vals: Seq<T>)
    ensures
        store_elems(mem, off, vals).len() == mem.len(),
    decreases vals.len(),
{
    if vals.len() > 0 {
        lemma_store_elems_len(
            store_bytes(mem, off, vals[0].encode_spec()),
            off + T::spec_width(),
            vals.drop_first(),
        );
    }
}

/// Writing one more element writes its bytes after the others.
pub proof fn lemma_store_elems_push<T: ArenaValue>(mem: Seq<u8>, off: int, vals: Seq<T>, v: T)
    ensures
        store_elems(mem, off, vals.push(v)) == store_bytes(
            store_elems(mem, off, vals),
            off + vals.len() * T::spec_width(),
            v.encode_spec(),
        ),
    decreases vals.len(),
{
    let w = T::spec_width() as int;
    if vals.len() == 0 {
        assert(vals.push(v)[0] == v);
        assert(vals.push(v).drop_first() =~= Seq::<T>::empty());
        assert(store_elems(mem, off, vals.push(v)) == store_elems(
            store_bytes(mem, off, v.encode_spec()),
            off + w,
            Seq::<T>::empty(),
        ));
        assert(store_elems(store_bytes(mem, off, v.encode_spec()), off + w, Seq::<T>::empty())
            == store_bytes(mem, off, v.encode_spec()));
        assert(store_elems(mem, off, vals) == mem);
        assert(off + vals.len() * T::spec_width() == off);
    } else {
        let mem1 = store_bytes(mem, off, vals[0].encode_spec());
        let dropped = vals.drop_first();
        assert(vals.push(v)[0] == vals[0]);
        assert(vals.push(v).drop_first() =~= dropped.push(v));
        assert(store_elems(mem, off, vals.push(v)) == store_elems(mem1, off + w, dropped.push(v)));
        lemma_store_elems_push(mem1, off + w, dropped, v);
        assert(store_elems(mem1, off + w, dropped.push(v)) == store_bytes(
            store_elems(mem1, off + w, dropped),
            off + w + dropped.len() * T::spec_width(),
            v.encode_spec(),
        ));
        assert(store_elems(mem, off, vals) == store_elems(mem1, off + w, dropped));
        assert(w + dropped.len() * T::spec_width() == vals.len() * T::spec_width()) by (nonlinear_arith)
            requires w == T::spec_width() && dropped.len() + 1 == vals.len(),
        ;
    }
}

impl Valloc {
    /// Allocate room for an array of `count` elements of `T`: the
    /// request is `count` element widths, in bytes.
    pub fn alloc_array<T: ArenaValue>(&mut self, count: usize) -> (r: Result<
        Pointer<T>,
        VallocError,
    >)
        requires
            old(self).wf(),
        ensures
            final(self).wf(),
            final(self).mem() == old(self).mem(),
            (r matches Err(VallocError::ZeroSizeRequest)) <==> count == 0,
            (r matches Err(VallocError::OutOfMemory)) <==> (count > 0 && !has_fit(
                old(self).ledger(),
                count * T::spec_width() as int,
            )),
            r is Err ==> final(self).ledger() == old(self).ledger() && final(self).chunks.available
                == old(self).chunks.available,
            r is Err ==> (r matches Err(VallocError::ZeroSizeRequest)) || (r matches Err(
                VallocError::OutOfMemory,
            )),
            r is Ok ==> count > 0 && has_fit(old(self).ledger(), count * T::spec_width() as int),
            forall|j: int|
                r is Ok && #[trigger] is_first_fit(
                    old(self).ledger(),
                    count * T::spec_width() as int,
                    j,
                ) ==> {
                    &&& final(self).ledger() == split_at(
                        old(self).ledger(),
                        j,
                        count * T::spec_width() as int,
                    )
                    &&& final(self).chunks.available + count * T::spec_width() == old(self).chunks.available
                    &&& (r matches Ok(p) ==> !p.spec_is_null() && p.spec_address() == old(self).ledger()[j].base && p.spec_index() == 0)
                },
    {
        if count == 0 {
            return Err(VallocError::ZeroSizeRequest);
        }
        let w = T::width();
        match count.checked_mul(w) {
            Some(size) => {
                proof {
                    assert(size as int == count * T::spec_width() as int);
                    assert(size >= 1) by (nonlinear_arith)
                        requires
                            size as int == count as int * T::spec_width() as int,
                            count >= 1,
                            T::spec_width() >= 1,
                    ;
                }
                self.alloc_bytes::<T>(size)
            },
            None => {
                proof {
                    assert forall|j: int| 0 <= j < self.ledger().len() implies !fits(
                        #[trigger] self.ledger()[j],
                        count * T::spec_width() as int,
                    ) by {
                        assert(self.ledger()[j].size <= usize::MAX);
                        assert(count * T::spec_width() as int > usize::MAX);
                    }
                }
                Err(VallocError::OutOfMemory)
            },
        }
    }

    /// Read `count` consecutive elements starting at the handle:
    /// element by element, stopping at the first failure.
    pub fn read_buffer<T: ArenaValue>(&self, ptr: &Pointer<T>, count: usize) -> (r: Result<
        Vec<T>,
        VallocError,
    >)
        requires
            self.wf(),
        ensures
            match r {
                Ok(vs) => {
                    &&& !ptr.spec_is_null()
                    &&& buffer_live(
                        self.ledger(),
                        ptr.spec_address() as int,
                        T::spec_width() as int,
                        count as int,
                    )
                    &&& vs@.len() == count
                    &&& forall|i: int|
                        0 <= i < count ==> #[trigger] vs@[i] == T::decode_spec(
                            self.mem().subrange(
                                ptr.spec_address() + i * T::spec_width(),
                                ptr.spec_address() + i * T::spec_width() + T::spec_width(),
                            ),
                        )
                },
                Err(e) => {
                    &&& (ptr.spec_is_null() ==> e == VallocError::NullPointerDereference)
                    &&& (!ptr.spec_is_null() ==> e == VallocError::InvalidAddress && !buffer_live(
                        self.ledger(),
                        ptr.spec_address() as int,
                        T::spec_width() as int,
                        count as int,
                    ))
                },
            },
    {
        let addr = match ptr.address() {
            Ok(a) => a,
            Err(e) => {
                return Err(e);
            },
        };
        let w = T::width();
        let ghost cs = self.ledger();
        let ghost cap = self.capacity();
        proof {
            self.memory.lemma_len_bound();
        }
        let mut vs: Vec<T> = Vec::new();
        let mut i: usize = 0;
        while i < count
            invariant
                self.wf(),
                cs == self.ledger(),
                cap == self.capacity(),
                cap <= usize::MAX,
                w == T::spec_width(),
                0 < w,
                addr == ptr.spec_address(),
                !ptr.spec_is_null(),
                i <= count,
                vs@.len() == i,
                forall|k: int| 0 <= k < i ==> #[trigger] elem_live(cs, addr as int, w as int, k),
                forall|k: int|
                    0 <= k < i ==> #[trigger] vs@[k] == T::decode_spec(
                        self.mem().subrange(
                            addr + k * T::spec_width(),
                            addr + k * T::spec_width() + T::spec_width(),
                        ),
                    ),
            decreases count - i,
        {
            let step = match i.checked_mul(w) {
                Some(p) => p,
                None => {
                    proof {
                        assert(!elem_live(cs, addr as int, w as int, i as int)) by {
                            if elem_live(cs, addr as int, w as int, i as int) {
                                lemma_live_range_in_cap(
                                    cs,
                                    cap,
                                    addr + (i as int) * (w as int),
                                    w as int,
                                );
                            }
                        };
                    }
                    return Err(VallocError::InvalidAddress);
                },
            };
            let off_i = match addr.checked_add(step) {
                Some(o) => o,
                None => {
                    proof {
                        assert(!elem_live(cs, addr as int, w as int, i as int)) by {
                            if elem_live(cs, addr as int, w as int, i as int) {
                                lemma_live_range_in_cap(
                                    cs,
                                    cap,
                                    addr + (i as int) * (w as int),
                                    w as int,
                                );
                            }
                        };
                    }
                    return Err(VallocError::InvalidAddress);
                },
            };
            let p: Pointer<T> = Pointer::new(off_i, 0);
            match self.read(&p) {
                Ok(v) => {
                    vs.push(v);
                },
                Err(_) => {
                    proof {
                        assert(!elem_live(cs, addr as int, w as int, i as int));
                    }
                    return Err(VallocError::InvalidAddress);
                },
            }
            i = i + 1;
        }
        Ok(vs)
    }

    /// Write the given values at consecutive element slots starting at
    /// the handle: element by element, stopping at the first failure,
    /// whose predecessors stay written.
    pub fn write_buffer<T: ArenaValue>(&mut self, ptr: &Pointer<T>, values: &Vec<T>) -> (r: Result<
        (),
        VallocError,
    >)
        requires
            old(self).wf(),
        ensures
            final(self).wf(),
            final(self).chunks == old(self).chunks,
            final(self).mem().len() == old(self).mem().len(),
            ptr.spec_is_null() ==> r == Err::<(), VallocError>(VallocError::NullPointerDereference)
                && final(self).mem() == old(self).mem(),
            !ptr.spec_is_null() && buffer_live(
                old(self).ledger(),
                ptr.spec_address() as int,
                T::spec_width() as int,
                values@.len() as int,
            ) ==> r is Ok && final(self).mem() == store_elems(
                old(self).mem(),
                ptr.spec_address() as int,
                values@,
            ),
            !ptr.spec_is_null() && !buffer_live(
                old(self).ledger(),
                ptr.spec_address() as int,
                T::spec_width() as int,
                values@.len() as int,
            ) ==> r == Err::<(), VallocError>(VallocError::InvalidAddress) && exists|k: int|
                {
                    &&& 0 <= k < values@.len()
                    &&& !(#[trigger] elem_live(
                        old(self).ledger(),
                        ptr.spec_address() as int,
                        T::spec_width() as int,
                        k,
                    ))
                    &&& forall|m: int|
                        0 <= m < k ==> #[trigger] elem_live(
                            old(self).ledger(),
                            ptr.spec_address() as int,
                            T::spec_width() as int,
                            m,
                        )
                    &&& final(self).mem() == store_elems(
                        old(self).mem(),
                        ptr.spec_address() as int,
                        values@.take(k),
                    )
                },
    {
        let addr = match ptr.address() {
            Ok(a) => a,
            Err(e) => {
                return Err(e);
            },
        };
        let w = T::width();
        let ghost cs = self.ledger();
        let ghost cap = self.capacity();
        let count = values.len();
        proof {
            self.memory.lemma_len_bound();
            assert(values@.take(0) =~= Seq::<T>::empty());
        }
        let mut i: usize = 0;
        while i < count
            invariant
                self.wf(),
                self.chunks == old(self).chunks,
                self.mem().len() == old(self).mem().len(),
                cs == old(self).ledger(),
                cap == old(self).capacity(),
                cap <= usize::MAX,
                w == T::spec_width(),
                0 < w,
                addr == ptr.spec_address(),
                !ptr.spec_is_null(),
                count == values@.len(),
                i <= count,
                forall|k: int| 0 <= k < i ==> #[trigger] elem_live(cs, addr as int, w as int, k),
                self.mem() == store_elems(old(self).mem(), addr as int, values@.take(i as int)),
            decreases count - i,
        {
            let step = match i.checked_mul(w) {
                Some(p) => p,
                None => {
                    proof {
                        assert(!elem_live(cs, addr as int, w as int, i as int)) by {
                            if elem_live(cs, addr as int, w as int, i as int) {
                                lemma_live_range_in_cap(
                                    cs,
                                    cap,
                                    addr + (i as int) * (w as int),
                                    w as int,
                                );
                            }
                        };
                    }
                    return Err(VallocError::InvalidAddress);
                },
            };
            let off_i = match addr.checked_add(step) {
                Some(o) => o,
                None => {
                    proof {
                        assert(!elem_live(cs, addr as int, w as int, i as int)) by {
                            if elem_live(cs, addr as int, w as int, i as int) {
                                lemma_live_range_in_cap(
                                    cs,
                                    cap,
                                    addr + (i as int) * (w as int),
                                    w as int,
                                );
                            }
                        };
                    }
                    return Err(VallocError::InvalidAddress);
                },
            };
            let p: Pointer<T> = Pointer::new(off_i, 0);
            let v = values[i];
            let ghost mem_before = self.mem();
            match self.write(&p, v) {
                Ok(()) => {
                    proof {
                        lemma_store_elems_push(
                            old(self).mem(),
                            addr as int,
                            values@.take(i as int),
                            v,
                        );
                        assert(values@.take(i as int).push(v) =~= values@.take(i as int + 1));
                        assert(values@.take(i as int).len() == i);
                    }
                },
                Err(_) => {
                    proof {
                        assert(!elem_live(cs, addr as int, w as int, i as int));
                    }
                    return Err(VallocError::InvalidAddress);
                },
            }
            i = i + 1;
        }
        proof {
            assert(values@.take(count as int) =~= values@);
        }
        Ok(())
    }
}


/// Some chunk of the ledger is in use and based at `off`.
pub open spec fn has_live_base(cs: Seq<ChunkNode>, off: int) -> bool {
    exists|j: int| is_base_of(cs, off, j) && cs[j].in_use
}

/// The ledger after shrinking the in-use chunk at `j` to `new_size`
/// bytes in place: the freed tail becomes a free chunk, merged with a
/// free chunk after it.
pub open spec fn shrink_at(cs: Seq<ChunkNode>, j: int, new_size: int) -> Seq<ChunkNode> {
    let cs1 = cs.update(
        j,
        ChunkNode { base: cs[j].base, size: new_size as usize, in_use: true },
    ).insert(
        j + 1,
        ChunkNode {
            base: (cs[j].base + new_size) as usize,
            size: (cs[j].size - new_size) as usize,
            in_use: false,
        },
    );
    if j + 2 < cs1.len() && !cs1[j + 2].in_use {
        merge_at(cs1, j + 1)
    } else {
        cs1
    }
}

/// Whether the chunk at `j` can grow to `new_size` bytes in place by
/// consuming part or all of a free chunk right after it.
pub open spec fn can_grow_in_place(cs: Seq<ChunkNode>, j: int, new_size: int) -> bool {
    j + 1 < cs.len() && !cs[j + 1].in_use && cs[j].size + cs[j + 1].size >= new_size
}

/// The ledger after growing the in-use chunk at `j` to `new_size`
/// bytes in place.
pub open spec fn grow_at(cs: Seq<ChunkNode>, j: int, new_size: int) -> Seq<ChunkNode> {
    let need = new_size - cs[j].size;
    let cs1 = cs.update(j, ChunkNode { base: cs[j].base, size: new_size as usize, in_use: true });
    if cs[j + 1].size == need {
        cs1.remove(j + 1)
    } else {
        cs1.update(
            j + 1,
            ChunkNode {
                base: (cs[j + 1].base + need) as usize,
                size: (cs[j + 1].size - need) as usize,
                in_use: false,
            },
        )
    }
}

/// Shrinking in place preserves the ledger invariant and gives the
/// freed tail back to the free total.
#[verifier::rlimit(100)]
#[verifier::spinoff_prover]
pub proof fn lemma_shrink_preserves_wf(cs: Seq<ChunkNode>, cap: int, j: int, new_size: int)
    requires
        ledger_wf(cs, cap),
        cap <= usize::MAX,
        0 <= j < cs.len(),
        cs[j].in_use,
        0 < new_size < cs[j].size,
    ensures
        ledger_wf(shrink_at(cs, j, new_size), cap),
        free_total(shrink_at(cs, j, new_size)) == free_total(cs) + (cs[j].size - new_size),
{
    let c = cs[j];
    lemma_chunk_in_cap(cs, cap, j);
    if j + 1 < cs.len() {
        lemma_chunk_in_cap(cs, cap, j + 1);
    }
    let used = ChunkNode { base: c.base, size: new_size as usize, in_use: true };
    let tail = ChunkNode {
        base: (c.base + new_size) as usize,
        size: (c.size - new_size) as usize,
        in_use: false,
    };
    let csu = cs.update(j, used);
    let cs1 = csu.insert(j + 1, tail);
    csu.insert_ensures(j + 1, tail);
    assert(forall|i: int| 0 <= i < j ==> #[trigger] cs1[i] == cs[i]);
    assert(cs1[j] == used);
    assert(cs1[j + 1] == tail);
    assert(forall|i: int| j + 2 <= i < cs1.len() ==> #[trigger] cs1[i] == cs[i - 1]);
    assert(chunks_adjacent(cs1)) by {
        assert forall|i: int| 1 <= i < cs1.len() implies (#[trigger] cs1[i]).base == chunk_end(
            cs1[i - 1],
        ) by {
            if i < j {
                assert(adjacent_at(cs, i));
                assert(cs[i].base == chunk_end(cs[i - 1]));
            } else if i == j {
                assert(adjacent_at(cs, j));
                assert(cs[j].base == chunk_end(cs[j - 1]));
            } else if i == j + 1 {
            } else if i == j + 2 {
                assert(cs1[i] == cs[j + 1]);
                assert(adjacent_at(cs, j + 1));
                assert(cs[j + 1].base == chunk_end(cs[j]));
            } else {
                assert(cs1[i] == cs[i - 1]);
                assert(cs1[i - 1] == cs[i - 2]);
                assert(adjacent_at(cs, i - 1));
                assert(cs[i - 1].base == chunk_end(cs[i - 2]));
            }
        }
    };
    assert(sizes_positive(cs1)) by {
        assert forall|i: int| 0 <= i < cs1.len() implies (#[trigger] cs1[i]).size > 0 by {
            if i < j {
                assert(cs[i].size > 0);
            } else if i >= j + 2 {
                assert(cs1[i] == cs[i - 1]);
                assert(cs[i - 1].size > 0);
            }
        }
    };
    assert(cs1[0].base == 0);
    assert(chunk_end(cs1[cs1.len() - 1]) == cap) by {
        if j < cs.len() - 1 {
            assert(cs1[cs1.len() - 1] == cs[cs.len() - 1]);
        }
    };
    lemma_free_total_update(cs, j, used);
    lemma_free_total_insert(csu, j + 1, tail);
    if j + 2 < cs1.len() && !cs1[j + 2].in_use {
        assert(cs1[j + 2] == cs[j + 1]);
        assert(tail.size + cs[j + 1].size <= usize::MAX) by {
            lemma_chunks_ordered(cs, j, j + 1);
        };
        lemma_merge_at(cs1, j + 1);
        let m = merge_at(cs1, j + 1);
        assert(no_adjacent_free(m)) by {
            assert forall|i: int| 1 <= i < m.len() implies (#[trigger] m[i]).in_use || m[i
                - 1].in_use by {
                if i < j {
                    assert(m[i] == cs[i]);
                    assert(m[i - 1] == cs[i - 1]);
                    assert(not_both_free_at(cs, i));
                    assert(cs[i].in_use || cs[i - 1].in_use);
                } else if i == j {
                    assert(m[i] == cs1[i]);
                } else if i == j + 1 {
                    assert(m[i - 1] == cs1[j]);
                } else if i == j + 2 {
                    assert(m[i] == cs1[j + 3]);
                    assert(cs1[j + 3] == cs[j + 2]);
                    assert(not_both_free_at(cs, j + 2));
                    assert(cs[j + 2].in_use || cs[j + 1].in_use);
                } else {
                    assert(m[i] == cs1[i + 1]);
                    assert(m[i - 1] == cs1[i]);
                    assert(cs1[i + 1] == cs[i]);
                    assert(cs1[i] == cs[i - 1]);
                    assert(not_both_free_at(cs, i));
                    assert(cs[i].in_use || cs[i - 1].in_use);
                }
            }
        };
        assert(m[0].base == 0) by {
            if j > 0 {
                assert(m[0] == cs1[0]);
            }
        };
    } else {
        assert(no_adjacent_free(cs1)) by {
            assert forall|i: int| 1 <= i < cs1.len() implies (#[trigger] cs1[i]).in_use || cs1[i
                - 1].in_use by {
                if i < j {
                    assert(not_both_free_at(cs, i));
                    assert(cs[i].in_use || cs[i - 1].in_use);
                } else if i == j + 2 {
                    assert(cs1[i] == cs[j + 1]);
                } else if i > j + 2 {
                    assert(cs1[i] == cs[i - 1]);
                    assert(cs1[i - 1] == cs[i - 2]);
                    assert(not_both_free_at(cs, i - 1));
                    assert(cs[i - 1].in_use || cs[i - 2].in_use);
                }
            }
        };
    }
}

/// Growing in place preserves the ledger invariant and takes the extra
/// bytes out of the free total.
#[verifier::rlimit(100)]
#[verifier::spinoff_prover]
pub proof fn lemma_grow_preserves_wf(cs: Seq<ChunkNode>, cap: int, j: int, new_size: int)
    requires
        ledger_wf(cs, cap),
        cap <= usize::MAX,
        0 <= j < cs.len(),
        cs[j].in_use,
        new_size > cs[j].size,
        can_grow_in_place(cs, j, new_size),
    ensures
        ledger_wf(grow_at(cs, j, new_size), cap),
        free_total(grow_at(cs, j, new_size)) + (new_size - cs[j].size) == free_total(cs),
{
    let c = cs[j];
    let nx = cs[j + 1];
    let need = new_size - c.size;
    lemma_chunk_in_cap(cs, cap, j);
    lemma_chunk_in_cap(cs, cap, j + 1);
    assert(adjacent_at(cs, j + 1));
    assert(new_size <= cap);
    let grown = ChunkNode { base: c.base, size: new_size as usize, in_use: true };
    let cs1 = cs.update(j, grown);
    lemma_free_total_update(cs, j, grown);
    if nx.size == need {
        let m = cs1.remove(j + 1);
        cs1.remove_ensures(j + 1);
        assert(forall|i: int| 0 <= i <= j ==> #[trigger] m[i] == cs1[i]);
        assert(forall|i: int| j < i < m.len() ==> #[trigger] m[i] == cs[i + 1]);
        lemma_free_total_remove(cs1, j + 1);
        assert(cs1[j + 1] == nx);
        assert(chunks_adjacent(m)) by {
            assert forall|i: int| 1 <= i < m.len() implies (#[trigger] m[i]).base == chunk_end(
                m[i - 1],
            ) by {
                if i < j {
                    assert(adjacent_at(cs, i));
                    assert(cs[i].base == chunk_end(cs[i - 1]));
                } else if i == j {
                    assert(adjacent_at(cs, j));
                    assert(cs[j].base == chunk_end(cs[j - 1]));
                } else if i == j + 1 {
                    assert(m[i] == cs[j + 2]);
                    assert(adjacent_at(cs, j + 2));
                    assert(cs[j + 2].base == chunk_end(cs[j + 1]));
                    assert(adjacent_at(cs, j + 1));
                    assert(cs[j + 1].base == chunk_end(cs[j]));
                } else {
                    assert(m[i] == cs[i + 1]);
                    assert(m[i - 1] == cs[i]);
                    assert(adjacent_at(cs, i + 1));
                    assert(cs[i + 1].base == chunk_end(cs[i]));
                }
            }
        };
        assert(sizes_positive(m)) by {
            assert forall|i: int| 0 <= i < m.len() implies (#[trigger] m[i]).size > 0 by {
                if i < j {
                    assert(cs[i].size > 0);
                } else if i > j {
                    assert(m[i] == cs[i + 1]);
                    assert(cs[i + 1].size > 0);
                }
            }
        };
        assert(no_adjacent_free(m)) by {
            assert forall|i: int| 1 <= i < m.len() implies (#[trigger] m[i]).in_use || m[i
                - 1].in_use by {
                if i < j {
                    assert(not_both_free_at(cs, i));
                    assert(cs[i].in_use || cs[i - 1].in_use);
                } else if i == j + 1 {
                    assert(m[i - 1] == grown);
                } else if i > j + 1 {
                    assert(m[i] == cs[i + 1]);
                    assert(m[i - 1] == cs[i]);
                    assert(not_both_free_at(cs, i + 1));
                    assert(cs[i + 1].in_use || cs[i].in_use);
                }
            }
        };
        assert(m[0].base == 0);
        assert(chunk_end(m[m.len() - 1]) == cap) by {
            if j + 1 < cs.len() - 1 {
                assert(m[m.len() - 1] == cs[cs.len() - 1]);
            } else {
                assert(m[m.len() - 1] == grown);
            }
        };
    } else {
        let moved = ChunkNode {
            base: (nx.base + need) as usize,
            size: (nx.size - need) as usize,
            in_use: false,
        };
        let m = cs1.update(j + 1, moved);
        lemma_free_total_update(cs1, j + 1, moved);
        assert(cs1[j + 1] == nx);
        assert(chunks_adjacent(m)) by {
            assert forall|i: int| 1 <= i < m.len() implies (#[trigger] m[i]).base == chunk_end(
                m[i - 1],
            ) by {
                if i == j + 2 {
                    assert(m[i] == cs[j + 2]);
                    assert(adjacent_at(cs, j + 2));
                    assert(cs[j + 2].base == chunk_end(cs[j + 1]));
                } else if i != j && i != j + 1 {
                    assert(m[i] == cs[i]);
                    assert(m[i - 1] == cs[i - 1]);
                    assert(adjacent_at(cs, i));
                    assert(cs[i].base == chunk_end(cs[i - 1]));
                } else if i == j {
                    assert(adjacent_at(cs, j));
                    assert(cs[j].base == chunk_end(cs[j - 1]));
                } else {
                    assert(adjacent_at(cs, j + 1));
                    assert(cs[j + 1].base == chunk_end(cs[j]));
                }
            }
        };
        assert(sizes_positive(m)) by {
            assert forall|i: int| 0 <= i < m.len() implies (#[trigger] m[i]).size > 0 by {
                if i != j && i != j + 1 {
                    assert(m[i] == cs[i]);
                    assert(cs[i].size > 0);
                }
            }
        };
        assert(no_adjacent_free(m)) by {
            assert forall|i: int| 1 <= i < m.len() implies (#[trigger] m[i]).in_use || m[i
                - 1].in_use by {
                if i == j + 2 {
                    assert(m[i] == cs[j + 2]);
                    assert(not_both_free_at(cs, j + 2));
                    assert(cs[j + 2].in_use || cs[j + 1].in_use);
                } else if i != j && i != j + 1 {
                    assert(m[i] == cs[i]);
                    assert(m[i - 1] == cs[i - 1]);
                    assert(not_both_free_at(cs, i));
                    assert(cs[i].in_use || cs[i - 1].in_use);
                }
            }
        };
        assert(m[0].base == 0);
        assert(chunk_end(m[m.len() - 1]) == cap) by {
            if j + 1 < cs.len() - 1 {
                assert(m[m.len() - 1] == cs[cs.len() - 1]);
            }
        };
    }
}

/// A chunk other than the one being split keeps its descriptor; the
/// returned value is its position in the split ledger.
pub proof fn lemma_split_keeps_chunk(cs: Seq<ChunkNode>, k: int, size: int, j: int) -> (j2: int)
    requires
        0 <= k < cs.len(),
        fits(cs[k], size),
        size > 0,
        0 <= j < cs.len(),
        j != k,
    ensures
        0 <= j2 < split_at(cs, k, size).len(),
        split_at(cs, k, size)[j2] == cs[j],
{
    if cs[k].size == size {
        j
    } else {
        let used = ChunkNode { base: cs[k].base, size: size as usize, in_use: true };
        let rem = ChunkNode {
            base: (cs[k].base + size) as usize,
            size: (cs[k].size - size) as usize,
            in_use: false,
        };
        cs.update(k, used).insert_ensures(k + 1, rem);
        if j > k {
            j + 1
        } else {
            j
        }
    }
}


/// Where some chunk fits, a first fit exists.
pub proof fn lemma_first_fit_exists(cs: Seq<ChunkNode>, size: int)
    requires
        has_fit(cs, size),
    ensures
        exists|j: int| is_first_fit(cs, size, j),
    decreases cs.len(),
{
    if fits(cs[0], size) {
        assert(is_first_fit(cs, size, 0));
    } else {
        let rest = cs.drop_first();
        let j0 = choose|j0: int| 0 <= j0 < cs.len() && fits(#[trigger] cs[j0], size);
        assert(j0 != 0);
        assert(rest[j0 - 1] == cs[j0]);
        assert(has_fit(rest, size)) by {
            assert(0 <= j0 - 1 < rest.len() && fits(rest[j0 - 1], size));
        };
        lemma_first_fit_exists(rest, size);
        let jr = choose|jr: int| is_first_fit(rest, size, jr);
        assert(is_first_fit(cs, size, jr + 1)) by {
            assert(cs[jr + 1] == rest[jr]);
            assert forall|i: int| 0 <= i < jr + 1 implies !fits(#[trigger] cs[i], size) by {
                if i > 0 {
                    assert(cs[i] == rest[i - 1]);
                    assert(!fits(rest[i - 1], size));
                }
            }
        };
    }
}

impl Valloc {
    /// The ledger position of the in-use chunk based at `addr`, if
    /// any.
    fn find_live_base(&self, addr: usize) -> (r: Option<usize>)
        requires
            self.wf(),
        ensures
            match r {
                Some(j) => is_base_of(self.ledger(), addr as int, j as int)
                    && self.ledger()[j as int].in_use,
                None => !has_live_base(self.ledger(), addr as int),
            },
    {
        let n = self.chunks.len();
        let mut i: usize = 0;
        while i < n
            invariant
                self.wf(),
                n == self.ledger().len(),
                i <= n,
                forall|k: int| 0 <= k < i ==> (#[trigger] self.ledger()[k]).base != addr,
            decreases n - i,
        {
            let c = self.chunks.get(i);
            if c.base == addr {
                if c.in_use {
                    return Some(i);
                } else {
                    proof {
                        assert forall|k: int|
                            is_base_of(self.ledger(), addr as int, k) implies !self.ledger()[k].in_use by {
                            lemma_base_unique(self.ledger(), k, i as int);
                        };
                    }
                    return None;
                }
            }
            i = i + 1;
        }
        proof {
            assert forall|k: int|
                0 <= k < self.ledger().len() implies !is_base_of(self.ledger(), addr as int, k) by {
                assert(self.ledger()[k].base != addr);
            };
        }
        None
    }

    /// Shrink the in-use chunk at ledger position `j` to `new_size`
    /// bytes; the freed tail becomes a free chunk, merged with a free
    /// chunk after it.
    #[verifier::rlimit(100)]
    #[verifier::spinoff_prover]
    fn shrink_in_place(&mut self, j: usize, new_size: usize)
        requires
            old(self).wf(),
            j < old(self).ledger().len(),
            old(self).ledger()[j as int].in_use,
            0 < new_size < old(self).ledger()[j as int].size,
        ensures
            final(self).wf(),
            final(self).mem() == old(self).mem(),
            final(self).ledger() == shrink_at(old(self).ledger(), j as int, new_size as int),
            final(self).chunks.available == old(self).chunks.available + (old(self).ledger()[j as int].size
                - new_size),
    {
        let ghost cs0 = self.ledger();
        let ghost capg = self.capacity();
        proof {
            self.memory.lemma_len_bound();
            vstd::std_specs::vec::axiom_spec_len(&self.chunks.list);
            lemma_chunk_in_cap(cs0, capg, j as int);
            lemma_shrink_preserves_wf(cs0, capg, j as int, new_size as int);
            lemma_free_total_le_cap(shrink_at(cs0, j as int, new_size as int), capg);
        }
        let c = self.chunks.get(j);
        let used = ChunkNode::new(c.base, new_size, true);
        let tail = ChunkNode::new(c.base + new_size, c.size - new_size, false);
        let elem = &mut self.chunks.list[j];
        *elem = used;
        self.chunks.list.insert(j + 1, tail);
        let ghost cs1g = cs0.update(j as int, used).insert(j as int + 1, tail);
        proof {
            assert(self.ledger() == cs1g);
        }
        if self.chunks.len() - j > 2 {
            let nx = self.chunks.get(j + 2);
            if !nx.in_use {
                proof {
                    lemma_chunks_ordered(cs0, j as int, j as int + 1);
                    lemma_chunk_in_cap(cs0, capg, j as int + 1);
                }
                let merged = ChunkNode::new(tail.base, tail.size + nx.size, false);
                let elem = &mut self.chunks.list[j + 1];
                *elem = merged;
                self.chunks.list.remove(j + 2);
                proof {
                    assert(self.ledger() == merge_at(cs1g, j as int + 1));
                }
            }
        }
        proof {
            assert(self.ledger() =~= shrink_at(cs0, j as int, new_size as int));
        }
        let av = self.chunks.get_available();
        self.chunks.set_available(av + (c.size - new_size));
    }

    /// Grow the in-use chunk at ledger position `j` to `new_size`
    /// bytes in place, consuming part or all of the free chunk right
    /// after it.
    #[verifier::rlimit(100)]
    #[verifier::spinoff_prover]
    fn grow_in_place(&mut self, j: usize, new_size: usize)
        requires
            old(self).wf(),
            j < old(self).ledger().len(),
            old(self).ledger()[j as int].in_use,
            new_size > old(self).ledger()[j as int].size,
            can_grow_in_place(old(self).ledger(), j as int, new_size as int),
        ensures
            final(self).wf(),
            final(self).mem() == old(self).mem(),
            final(self).ledger() == grow_at(old(self).ledger(), j as int, new_size as int),
            final(self).chunks.available + (new_size - old(self).ledger()[j as int].size) == old(self).chunks.available,
    {
        let ghost cs0 = self.ledger();
        let ghost capg = self.capacity();
        proof {
            self.memory.lemma_len_bound();
            vstd::std_specs::vec::axiom_spec_len(&self.chunks.list);
            lemma_chunk_in_cap(cs0, capg, j as int);
            lemma_chunk_in_cap(cs0, capg, j as int + 1);
            lemma_grow_preserves_wf(cs0, capg, j as int, new_size as int);
            lemma_free_total_member(cs0, j as int + 1);
        }
        let c = self.chunks.get(j);
        let nx = self.chunks.get(j + 1);
        let need = new_size - c.size;
        let grown = ChunkNode::new(c.base, new_size, true);
        let elem = &mut self.chunks.list[j];
        *elem = grown;
        if nx.size == need {
            self.chunks.list.remove(j + 1);
        } else {
            let moved = ChunkNode::new(nx.base + need, nx.size - need, false);
            let elem = &mut self.chunks.list[j + 1];
            *elem = moved;
        }
        proof {
            assert(self.ledger() =~= grow_at(cs0, j as int, new_size as int));
        }
        let av = self.chunks.get_available();
        self.chunks.set_available(av - need);
    }

    /// Serve a growing reallocation that cannot happen in place:
    /// allocate a fresh chunk, copy the old contents over, free the
    /// old chunk.  If no chunk fits, everything is left untouched.
    #[verifier::rlimit(100)]
    #[verifier::spinoff_prover]
    fn realloc_move<T: ArenaValue>(&mut self, addr: usize, idx: usize, j: usize, new_size: usize)
        -> (r: Result<Pointer<T>, VallocError>)
        requires
            old(self).wf(),
            is_base_of(old(self).ledger(), addr as int, j as int),
            old(self).ledger()[j as int].in_use,
            new_size > old(self).ledger()[j as int].size,
            new_size <= old(self).capacity(),
        ensures
            final(self).wf(),
            final(self).capacity() == old(self).capacity(),
            final(self).mem().len() == old(self).mem().len(),
            !has_fit(old(self).ledger(), new_size as int) ==> r == Err::<Pointer<T>, VallocError>(
                VallocError::OutOfMemory,
            ) && final(self).ledger() == old(self).ledger() && final(self).chunks.available == old(self).chunks.available && final(self).mem() == old(self).mem(),
            has_fit(old(self).ledger(), new_size as int) ==> {
                &&& r is Ok
                &&& final(self).chunks.available + new_size == old(self).chunks.available + old(self).ledger()[j as int].size
                &&& forall|k: int|
                    #[trigger] is_first_fit(old(self).ledger(), new_size as int, k) ==> {
                        &&& (r matches Ok(q) ==> !q.spec_is_null() && q.spec_address() == old(self).ledger()[k].base
                            && q.spec_index() == idx)
                        &&& final(self).mem() == store_bytes(
                            old(self).mem(),
                            old(self).ledger()[k].base as int,
                            old(self).mem().subrange(
                                addr as int,
                                addr + old(self).ledger()[j as int].size,
                            ),
                        )
                        &&& forall|j2: int|
                            #[trigger] is_base_of(
                                split_at(old(self).ledger(), k, new_size as int),
                                addr as int,
                                j2,
                            ) ==> final(self).ledger() == release_at(
                                split_at(old(self).ledger(), k, new_size as int),
                                j2,
                            )
                    }
            },
    {
        let ghost cs0 = self.ledger();
        let ghost capg = self.capacity();
        let c = self.chunks.get(j);
        proof {
            self.memory.lemma_len_bound();
        }
        let np = match self.alloc_bytes::<T>(new_size) {
            Ok(p) => p,
            Err(e) => {
                proof {
                    assert(old(self).ledger()[j as int].size > 0);
                    assert(e == VallocError::OutOfMemory);
                }
                return Err(VallocError::OutOfMemory);
            },
        };
        proof {
            lemma_first_fit_exists(cs0, new_size as int);
        }
        let ghost k = choose|k: int| is_first_fit(cs0, new_size as int, k);
        let ghost cs1 = split_at(cs0, k, new_size as int);
        let ghost j2 = lemma_split_keeps_chunk(cs0, k, new_size as int, j as int);
        let newbase = match np.address() {
            Ok(a) => a,
            Err(_) => unreached(),
        };
        proof {
            assert(self.ledger() == cs1);
            assert(newbase == cs0[k].base);
            assert(cs1[j2] == cs0[j as int]);
            assert(is_base_of(cs1, addr as int, j2));
            lemma_split_preserves_wf(cs0, capg, k, new_size as int);
            assert(newbase != addr) by {
                if newbase == addr {
                    lemma_base_unique(cs0, k, j as int);
                }
            };
            assert(cs1[k].base == newbase && cs1[k].size == new_size && cs1[k].in_use);
            assert(k != j2);
            lemma_chunk_in_cap(cs1, capg, k);
            lemma_chunk_in_cap(cs1, capg, j2);
            if k < j2 {
                lemma_chunks_ordered(cs1, k, j2);
            } else {
                lemma_chunks_ordered(cs1, j2, k);
            }
            assert(newbase + new_size <= addr as int || addr + c.size <= newbase as int);
            assert forall|k1: int| is_first_fit(cs0, new_size as int, k1) implies k1 == k by {
                lemma_first_fit_unique(cs0, new_size as int, k1, k);
            };
            assert forall|j3: int| is_base_of(cs1, addr as int, j3) implies j3 == j2 by {
                lemma_base_unique(cs1, j3, j2);
            };
        }
        let ghost chunks1 = self.chunks;
        let cur = c.size;
        let mut t: usize = 0;
        while t < cur
            invariant
                self.chunks == chunks1,
                self.mem().len() == old(self).mem().len(),
                self.mem().len() == capg,
                capg <= usize::MAX,
                t <= cur,
                addr + cur <= capg,
                newbase + new_size <= capg,
                cur < new_size,
                newbase + new_size <= addr as int || addr + cur <= newbase as int,
                forall|u: int|
                    newbase <= u < newbase + t ==> #[trigger] self.mem()[u] == old(self).mem()[u
                        - newbase + addr],
                forall|u: int|
                    0 <= u < capg && !(newbase <= u < newbase + t) ==> #[trigger] self.mem()[u]
                        == old(self).mem()[u],
            decreases cur - t,
        {
            let b = self.memory.read_byte(addr + t);
            self.memory.write_byte(newbase + t, b);
            t = t + 1;
        }
        proof {
            assert(self.mem() =~= store_bytes(
                old(self).mem(),
                newbase as int,
                old(self).mem().subrange(addr as int, addr + cur),
            ));
        }
        let mut tmp: Pointer<T> = Pointer::new(addr, 0);
        let fr = crate::allocator::free(self, &mut tmp);
        match fr {
            Ok(()) => {},
            Err(_) => {
                proof {
                    assert(cs1[j2].in_use);
                }
                unreached()
            },
        }
        proof {
            assert(self.ledger() == release_at(cs1, j2));
        }
        Ok(Pointer::new(newbase, idx))
    }

    /// Resize the allocation whose base the handle names.
    ///
    /// In priority order: a zero-byte target is refused; a target
    /// beyond the arena capacity is refused with the original
    /// allocation untouched; an equal target returns the same handle;
    /// a smaller target shrinks in place, freeing the tail; a larger
    /// target grows in place when the chunk right after is free and
    /// large enough; otherwise a fresh chunk is allocated, the old
    /// bytes are copied over, and the old chunk is freed.  If that
    /// fresh allocation fails, the original allocation is left intact.
    #[verifier::rlimit(100)]
    #[verifier::spinoff_prover]
    pub fn realloc<T: ArenaValue>(&mut self, ptr: Pointer<T>, new_size: usize) -> (r: Result<
        Pointer<T>,
        VallocError,
    >)
        requires
            old(self).wf(),
        ensures
            final(self).wf(),
            final(self).capacity() == old(self).capacity(),
            final(self).mem().len() == old(self).mem().len(),
            r is Err ==> final(self).ledger() == old(self).ledger() && final(self).chunks.available
                == old(self).chunks.available && final(self).mem() == old(self).mem(),
            (r matches Err(VallocError::ZeroSizeRequest)) <==> new_size == 0,
            (r matches Err(VallocError::CapacityExceeded)) <==> (new_size > 0 && new_size > old(self).capacity()),
            (r matches Err(VallocError::NullPointerDereference)) <==> (new_size > 0 && new_size
                <= old(self).capacity() && ptr.spec_is_null()),
            (r matches Err(VallocError::InvalidPointer)) <==> (new_size > 0 && new_size <= old(self).capacity()
                && !ptr.spec_is_null() && !has_live_base(
                old(self).ledger(),
                ptr.spec_address() as int,
            )),
            (r matches Err(VallocError::OutOfMemory)) ==> !has_fit(
                old(self).ledger(),
                new_size as int,
            ),
            r is Ok ==> new_size > 0 && new_size <= old(self).capacity() && !ptr.spec_is_null()
                && has_live_base(old(self).ledger(), ptr.spec_address() as int),
            forall|j: int|
                (#[trigger] is_base_of(old(self).ledger(), ptr.spec_address() as int, j)) && old(self).ledger()[j].in_use
                    && !ptr.spec_is_null() && new_size > 0 && new_size <= old(self).capacity()
                    ==> {
                    let cs = old(self).ledger();
                    let cur = cs[j].size as int;
                    let n = new_size as int;
                    &&& (n == cur ==> r is Ok && final(self).ledger() == cs && final(self).chunks.available
                        == old(self).chunks.available && final(self).mem() == old(self).mem())
                    &&& (n < cur ==> r is Ok && final(self).ledger() == shrink_at(cs, j, n)
                        && final(self).chunks.available == old(self).chunks.available + (cur - n)
                        && final(self).mem() == old(self).mem())
                    &&& (n > cur && can_grow_in_place(cs, j, n) ==> r is Ok && final(self).ledger()
                        == grow_at(cs, j, n) && final(self).chunks.available + (n - cur) == old(self).chunks.available
                        && final(self).mem() == old(self).mem())
                    &&& (n > cur && !can_grow_in_place(cs, j, n) && !has_fit(cs, n) ==> r == Err::<
                        Pointer<T>,
                        VallocError,
                    >(VallocError::OutOfMemory))
                    &&& (n > cur && !can_grow_in_place(cs, j, n) && has_fit(cs, n) ==> r is Ok
                        && final(self).chunks.available + n == old(self).chunks.available + cur
                        && (forall|k: int|
                        (#[trigger] is_first_fit(cs, n, k)) ==> {
                            &&& (r matches Ok(q) ==> q.spec_address() == cs[k].base)
                            &&& final(self).mem() == store_bytes(
                                old(self).mem(),
                                cs[k].base as int,
                                old(self).mem().subrange(
                                    ptr.spec_address() as int,
                                    ptr.spec_address() + cur,
                                ),
                            )
                            &&& (forall|j2: int|
                                #[trigger] is_base_of(
                                    split_at(cs, k, n),
                                    ptr.spec_address() as int,
                                    j2,
                                ) ==> final(self).ledger() == release_at(split_at(cs, k, n), j2))
                        }))
                    &&& (n <= cur || can_grow_in_place(cs, j, n) ==> (r matches Ok(q)
                        ==> q.spec_address() == ptr.spec_address()))
                    &&& (r matches Ok(q) ==> !q.spec_is_null() && q.spec_index()
                        == ptr.spec_index() && final(self).mem().subrange(
                        q.spec_address() as int,
                        q.spec_address() + (if n <= cur {
                            n
                        } else {
                            cur
                        }),
                    ) == old(self).mem().subrange(
                        ptr.spec_address() as int,
                        ptr.spec_address() + (if n <= cur {
                            n
                        } else {
                            cur
                        }),
                    ))
                },
    {
        if new_size == 0 {
            return Err(VallocError::ZeroSizeRequest);
        }
        let cap = self.memory.len();
        if new_size > cap {
            return Err(VallocError::CapacityExceeded);
        }
        let addr = match ptr.address() {
            Ok(a) => a,
            Err(e) => {
                return Err(e);
            },
        };
        let idx = match ptr.get_index() {
            Ok(i) => i,
            Err(e) => {
                return Err(e);
            },
        };
        let j = match self.find_live_base(addr) {
            Some(j) => j,
            None => {
                return Err(VallocError::InvalidPointer);
            },
        };
        let ghost cs0 = self.ledger();
        let ghost capg = self.capacity();
        proof {
            self.memory.lemma_len_bound();
            assert forall|j1: int| is_base_of(cs0, addr as int, j1) implies j1 == j as int by {
                lemma_base_unique(cs0, j1, j as int);
            };
            lemma_chunk_in_cap(cs0, capg, j as int);
        }
        let c = self.chunks.get(j);
        if new_size == c.size {
            return Ok(ptr);
        }
        if new_size < c.size {
            self.shrink_in_place(j, new_size);
            proof {
                assert(self.mem().subrange(addr as int, addr + new_size) =~= old(self).mem().subrange(
                    addr as int,
                    addr + new_size,
                ));
            }
            return Ok(ptr);
        }
        let n_chunks = self.chunks.len();
        let grow_ok = if j + 1 < n_chunks {
            let nx = self.chunks.get(j + 1);
            !nx.in_use && nx.size >= new_size - c.size
        } else {
            false
        };
        if grow_ok {
            self.grow_in_place(j, new_size);
            proof {
                assert(self.mem().subrange(addr as int, addr + c.size) =~= old(self).mem().subrange(
                    addr as int,
                    addr + c.size,
                ));
            }
            return Ok(ptr);
        }
        proof {
            assert(!can_grow_in_place(cs0, j as int, new_size as int));
        }
        let r = self.realloc_move::<T>(addr, idx, j, new_size);
        proof {
            if has_fit(cs0, new_size as int) {
                lemma_first_fit_exists(cs0, new_size as int);
                let k = choose|k: int| is_first_fit(cs0, new_size as int, k);
                lemma_chunk_in_cap(cs0, capg, k);
                if r is Ok {
                    let q = r->Ok_0;
                    assert(q.spec_address() == cs0[k].base);
                    assert(self.mem().subrange(
                        cs0[k].base as int,
                        cs0[k].base + c.size,
                    ) =~= old(self).mem().subrange(addr as int, addr + c.size));
                }
            }
        }
        r
    }
}

/// A one-time-initialised container for a process-wide allocator
/// instance.
///
/// Instead of ambient global state, the container is an explicit value
/// a program owns and passes around; a caller that shares one across
/// threads must put its own synchronisation around it.
#[derive(Debug)]
pub struct GlobalValloc {
    /// The installed allocator, if any.
    pub allocator: Option<Valloc>,
}

impl GlobalValloc {
    /// A container already holding the given allocator.
    pub fn new(allocator: Valloc) -> (r: Self)
        ensures
            r.allocator == Some(allocator),
    {
        GlobalValloc { allocator: Some(allocator) }
    }

    /// An empty container, to be initialised exactly once.
    pub fn uninitialized() -> (r: Self)
        ensures
            r.allocator is None,
    {
        GlobalValloc { allocator: None }
    }

    /// Install an allocator; refused, leaving the container as it
    /// was, if one is already installed.
    pub fn init(&mut self, allocator: Valloc) -> (r: bool)
        ensures
            old(self).allocator is None ==> r && final(self).allocator == Some(allocator),
            old(self).allocator is Some ==> !r && final(self).allocator == old(self).allocator,
    {
        if self.allocator.is_some() {
            false
        } else {
            self.allocator = Some(allocator);
            true
        }
    }

    /// Whether an allocator is installed.
    pub fn is_initialized(&self) -> (r: bool)
        ensures
            r == (self.allocator is Some),
    {
        self.allocator.is_some()
    }

    /// Take the installed allocator out, leaving the container empty.
    pub fn take(&mut self) -> (r: Option<Valloc>)
        ensures
            final(self).allocator is None,
            r == old(self).allocator,
    {
        self.allocator.take()
    }
}


} // verus!
