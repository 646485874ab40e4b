//! The allocator's global guarantees, stated and proved once.
//!
//! Each proof function here is a theorem about the ledger model that
//! the operations in [`crate::allocator`] maintain; their contracts
//! refer to the same specification functions, so these statements hold
//! of every reachable allocator state.

use vstd::prelude::*;

use crate::allocator::adjacent_at;
use crate::allocator::chunk_end;
use crate::allocator::is_base_of;
use crate::allocator::is_first_fit;
use crate::allocator::lemma_release_preserves_wf;
use crate::allocator::ledger_wf;
use crate::allocator::lemma_adjacent_sizes_span;
use crate::allocator::lemma_chunks_ordered;
use crate::allocator::not_both_free_at;
use crate::allocator::release_at;
use crate::allocator::size_total;
use crate::allocator::split_at;
use crate::allocator::ChunkNode;
use crate::allocator::store_bytes;
use crate::value::ArenaValue;

verus! {

/// Tiling: in every well-formed ledger the chunks partition
/// `[0, cap)` exactly — the first starts at offset zero, each next one
/// starts where its predecessor ends, the last ends at the capacity,
/// and the sizes sum to the capacity, leaving no gap and no overlap.
pub proof fn lemma_tiling(cs: Seq<ChunkNode>, cap: int)
    requires
        ledger_wf(cs, cap),
    ensures
        size_total(cs) == cap,
        cs.len() > 0 ==> cs[0].base == 0 && chunk_end(cs[cs.len() - 1]) == cap,
        forall|i: int| 1 <= i < cs.len() ==> #[trigger] adjacent_at(cs, i),
{
    if cs.len() > 0 {
        lemma_adjacent_sizes_span(cs);
    }
}

/// No double allocation: two distinct chunks of a well-formed ledger
/// never overlap, so in particular no byte belongs to two live
/// allocations at once.
pub proof fn lemma_no_double_allocation(cs: Seq<ChunkNode>, cap: int, i: int, j: int)
    requires
        ledger_wf(cs, cap),
        0 <= i < j < cs.len(),
    ensures
        chunk_end(cs[i]) <= cs[j].base,
{
    lemma_chunks_ordered(cs, i, j);
}

/// Write/read fidelity: laying a value's byte image down at an offset
/// and reading those same bytes back gives the value itself.  Together
/// with the contracts of the write and read operations this says that
/// a written value is read back unchanged while its chunk stays in
/// use.
pub proof fn lemma_write_read_fidelity<T: ArenaValue>(mem: Seq<u8>, off: int, v: T)
    requires
        0 <= off,
        off + T::spec_width() <= mem.len(),
    ensures
        T::decode_spec(
            store_bytes(mem, off, v.encode_spec()).subrange(off, off + T::spec_width()),
        ) == v,
{
    v.lemma_encode_len();
    assert(store_bytes(mem, off, v.encode_spec()).subrange(off, off + T::spec_width())
        =~= v.encode_spec());
    v.lemma_decode_encode();
}

/// Free/alloc round trip: serving a request from its first-fit chunk
/// and immediately giving that chunk back restores the ledger exactly
/// as it was — so a repeated request of the same size is served at the
/// same base address again.
pub proof fn lemma_alloc_free_round_trip(cs: Seq<ChunkNode>, cap: int, size: int, j: int)
    requires
        ledger_wf(cs, cap),
        cap <= usize::MAX,
        size > 0,
        is_first_fit(cs, size, j),
    ensures
        release_at(split_at(cs, j, size), j) == cs,
        is_first_fit(release_at(split_at(cs, j, size), j), size, j),
{
    let c = cs[j];
    if j + 1 < cs.len() {
        assert(not_both_free_at(cs, j + 1));
    }
    if j > 0 {
        assert(not_both_free_at(cs, j));
    }
    if c.size == size {
        let used = ChunkNode { base: c.base, size: c.size, in_use: true };
        let cs1 = cs.update(j, used);
        let freed = cs1.update(j, ChunkNode { base: cs1[j].base, size: cs1[j].size, in_use: false });
        assert(freed =~= cs);
        assert(release_at(cs1, j) == cs);
    } else {
        let used = ChunkNode { base: c.base, size: size as usize, in_use: true };
        let rem = ChunkNode {
            base: (c.base + size) as usize,
            size: (c.size - size) as usize,
            in_use: false,
        };
        let csu = cs.update(j, used);
        let cs1 = csu.insert(j + 1, rem);
        csu.insert_ensures(j + 1, rem);
        let freed = cs1.update(j, ChunkNode { base: cs1[j].base, size: cs1[j].size, in_use: false });
        assert(freed[j + 1] == rem);
        let big = ChunkNode {
            base: freed[j].base,
            size: (freed[j].size + freed[j + 1].size) as usize,
            in_use: false,
        };
        let merged = freed.update(j, big).remove(j + 1);
        freed.update(j, big).remove_ensures(j + 1);
        assert(merged =~= cs);
        assert(release_at(cs1, j) == cs);
    }
}

/// Coalescing, freeing the left chunk first: freeing two adjacent
/// live chunks always leaves one free chunk spanning both of their
/// byte ranges, and the ledger invariant (which forbids two adjacent
/// free chunks) still holds.  The returned value is the position of
/// the spanning free chunk.
pub proof fn lemma_coalescing_left_first(cs: Seq<ChunkNode>, cap: int, i: int) -> (k: int)
    requires
        ledger_wf(cs, cap),
        cap <= usize::MAX,
        0 <= i,
        i + 1 < cs.len(),
        cs[i].in_use,
        cs[i + 1].in_use,
    ensures
        ({
            let a1 = release_at(cs, i);
            let ia = if i > 0 && !cs[i - 1].in_use {
                i
            } else {
                i + 1
            };
            &&& is_base_of(a1, cs[i + 1].base as int, ia)
            &&& a1[ia].in_use
            &&& ledger_wf(release_at(a1, ia), cap)
            &&& 0 <= k < release_at(a1, ia).len()
            &&& !release_at(a1, ia)[k].in_use
            &&& release_at(a1, ia)[k].base <= cs[i].base
            &&& chunk_end(cs[i + 1]) <= chunk_end(release_at(a1, ia)[k])
        }),
{
    lemma_release_preserves_wf(cs, cap, i);
    let a1 = release_at(cs, i);
    let prev_free_a = i > 0 && !cs[i - 1].in_use;
    let lo_a = if prev_free_a {
        i - 1
    } else {
        i
    };
    let ia = if prev_free_a {
        i
    } else {
        i + 1
    };
    assert(a1[ia] == cs[i + 1]);
    assert(a1[ia].base == cs[i + 1].base);
    lemma_release_preserves_wf(a1, cap, ia);
    let a2 = release_at(a1, ia);
    assert(!a1[ia - 1].in_use);
    let lo2 = ia - 1;
    assert(a2[lo2].base == a1[lo2].base);
    assert(a1[lo2].base == cs[lo_a].base);
    assert(cs[lo_a].base <= cs[i].base) by {
        if prev_free_a {
            assert(adjacent_at(cs, i));
        }
    };
    assert(chunk_end(a2[lo2]) >= chunk_end(a1[ia])) by {
        if ia + 1 < a1.len() && !a1[ia + 1].in_use {
            assert(adjacent_at(a1, ia + 1));
        }
    };
    assert(chunk_end(a1[ia]) == chunk_end(cs[i + 1]));
    lo2
}

/// Coalescing, freeing the right chunk first: the mirror order gives
/// the same picture, one free chunk spanning both ranges.  The
/// returned value is the position of the spanning free chunk.
pub proof fn lemma_coalescing_right_first(cs: Seq<ChunkNode>, cap: int, i: int) -> (k: int)
    requires
        ledger_wf(cs, cap),
        cap <= usize::MAX,
        0 <= i,
        i + 1 < cs.len(),
        cs[i].in_use,
        cs[i + 1].in_use,
    ensures
        ({
            let b1 = release_at(cs, i + 1);
            &&& is_base_of(b1, cs[i].base as int, i)
            &&& b1[i].in_use
            &&& ledger_wf(release_at(b1, i), cap)
            &&& 0 <= k < release_at(b1, i).len()
            &&& !release_at(b1, i)[k].in_use
            &&& release_at(b1, i)[k].base <= cs[i].base
            &&& chunk_end(cs[i + 1]) <= chunk_end(release_at(b1, i)[k])
        }),
{
    lemma_release_preserves_wf(cs, cap, i + 1);
    let b1 = release_at(cs, i + 1);
    assert(b1[i] == cs[i]);
    lemma_release_preserves_wf(b1, cap, i);
    let b2 = release_at(b1, i);
    assert(!b1[i + 1].in_use);
    assert(b1[i + 1].base == cs[i + 1].base);
    let lo2b = if i > 0 && !b1[i - 1].in_use {
        i - 1
    } else {
        i
    };
    assert(b2[lo2b].base == b1[lo2b].base);
    assert(b1[lo2b].base <= cs[i].base) by {
        if i > 0 && !b1[i - 1].in_use {
            assert(b1[i - 1] == cs[i - 1]);
            assert(adjacent_at(cs, i));
        }
    };
    assert(chunk_end(b2[lo2b]) == chunk_end(b1[i + 1]));
    assert(chunk_end(b1[i + 1]) >= chunk_end(cs[i + 1])) by {
        if i + 2 < cs.len() && !cs[i + 2].in_use {
            assert(adjacent_at(cs, i + 2));
        }
    };
    lo2b
}

} // verus!
