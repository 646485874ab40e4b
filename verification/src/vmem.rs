//! The arena: an owned buffer of bytes, and a bounds-checked window into it.

use vstd::prelude::*;

use crate::errors::VallocError;

verus! {

/// The backing store of an allocator: one contiguous, owned buffer of
/// bytes whose length is fixed for the lifetime of the value.
///
/// The arena never interprets its bytes; chunk bookkeeping and typed
/// access live elsewhere.
#[derive(Debug)]
pub struct VirtMemory {
    data: Vec<u8>,
}

impl View for VirtMemory {
    type V = Seq<u8>;

    closed spec fn view(&self) -> Seq<u8> {
        self.data@
    }
}

impl VirtMemory {
    /// Create a zero-filled arena of `size` bytes.
    pub fn new(size: usize) -> (r: Self)
        ensures
            r@.len() == size,
            forall|i: int| 0 <= i < size ==> r@[i] == 0u8,
    {
        let mut data: Vec<u8> = Vec::new();
        let mut i: usize = 0;
        while i < size
            invariant
                i <= size,
                data@.len() == i,
                forall|k: int| 0 <= k < i ==> data@[k] == 0u8,
            decreases size - i,
        {
            data.push(0u8);
            i = i + 1;
        }
        VirtMemory { data }
    }

    /// Adopt an existing buffer as the arena, without zeroing it.
    pub fn from_mem(mem: Vec<u8>) -> (r: Self)
        ensures
            r@ == mem@,
    {
        VirtMemory { data: mem }
    }

    /// Borrow the underlying bytes.
    pub fn get_data(&self) -> (r: &Vec<u8>)
        ensures
            r@ == self@,
    {
        &self.data
    }

    /// The arena fits in the machine: its length is a `usize`.
    pub proof fn lemma_len_bound(&self)
        ensures
            self@.len() <= usize::MAX,
    {
        vstd::std_specs::vec::axiom_spec_len(&self.data);
    }

    /// The fixed capacity of the arena, in bytes.
    pub fn len(&self) -> (r: usize)
        ensures
            r == self@.len(),
    {
        self.data.len()
    }

    /// Read the byte at `i`.
    pub fn read_byte(&self, i: usize) -> (r: u8)
        requires
            i < self@.len(),
        ensures
            r == self@[i as int],
    {
        self.data[i]
    }

    /// Overwrite the byte at `i`.
    pub fn write_byte(&mut self, i: usize, value: u8)
        requires
            i < old(self)@.len(),
        ensures
            final(self)@ == old(self)@.update(i as int, value),
    {
        let elem = &mut self.data[i];
        *elem = value;
    }
}

/// A window over an inclusive range of arena offsets, `[lower_bound,
/// upper_bound]`, shifted by a window base `data`.
///
/// The window carries no storage of its own: its read and write take the
/// arena as an argument and refuse any access outside the window or
/// outside the arena.
#[derive(Debug, Clone, Copy, PartialEq, Eq, Structural)]
pub struct VirtMemoryChunk {
    /// The window base: offsets are resolved relative to this arena offset.
    pub data: usize,
    /// The inclusive lower offset bound.
    pub lower_bound: usize,
    /// The inclusive upper offset bound.
    pub upper_bound: usize,
}

impl VirtMemoryChunk {
    /// The window base: offsets are resolved relative to this point of
    /// the arena.
    pub open spec fn spec_data(self) -> usize {
        self.data
    }

    /// The inclusive lower offset bound.
    pub open spec fn spec_lower_bound(self) -> usize {
        self.lower_bound
    }

    /// The inclusive upper offset bound.
    pub open spec fn spec_upper_bound(self) -> usize {
        self.upper_bound
    }

    /// An access at `address` stays inside the window and inside an
    /// arena of `mem_len` bytes.
    pub open spec fn in_bounds(self, address: int, mem_len: int) -> bool {
        &&& self.lower_bound <= address <= self.upper_bound
        &&& self.data + address < mem_len
    }

    /// A window over `[start, end]` at the beginning of an arena.
    pub fn new(start: usize, end: usize) -> (r: Self)
        ensures
            r.spec_data() == 0,
            r.spec_lower_bound() == start,
            r.spec_upper_bound() == end,
    {
        Self::from_data(0, start, end)
    }

    /// A window over `[start, end]`, resolved relative to arena offset
    /// `data`.
    pub fn from_data(data: usize, start: usize, end: usize) -> (r: Self)
        ensures
            r.spec_data() == data,
            r.spec_lower_bound() == start,
            r.spec_upper_bound() == end,
    {
        VirtMemoryChunk { data, lower_bound: start, upper_bound: end }
    }

    /// Get the upper bound of the window.
    pub fn upper_bound(&self) -> (r: usize)
        ensures
            r == self.spec_upper_bound(),
    {
        self.upper_bound
    }

    /// Get the lower bound of the window.
    pub fn lower_bound(&self) -> (r: usize)
        ensures
            r == self.spec_lower_bound(),
    {
        self.lower_bound
    }

    /// Get the window base.
    pub fn data(&self) -> (r: usize)
        ensures
            r == self.spec_data(),
    {
        self.data
    }

    /// Read the byte at `address`, refusing accesses outside the window
    /// or outside the arena.
    pub fn read(&self, mem: &VirtMemory, address: usize) -> (r: Result<u8, VallocError>)
        ensures
            match r {
                Ok(b) => self.in_bounds(address as int, mem@.len() as int) && b == mem@[self.spec_data()
                    + address],
                Err(e) => !self.in_bounds(address as int, mem@.len() as int) && e
                    == VallocError::InvalidAddress,
            },
    {
        if self.lower_bound <= address && address <= self.upper_bound {
            if address < mem.len() && self.data <= mem.len() - 1 - address {
                return Ok(mem.read_byte(self.data + address));
            }
        }
        Err(VallocError::InvalidAddress)
    }

    /// Overwrite the byte at `address`, refusing accesses outside the
    /// window or outside the arena.
    pub fn write(&self, mem: &mut VirtMemory, address: usize, value: u8) -> (r: Result<
        (),
        VallocError,
    >)
        ensures
            match r {
                Ok(()) => self.in_bounds(address as int, old(mem)@.len() as int) && final(mem)@
                    == old(mem)@.update(self.spec_data() + address, value),
                Err(e) => !self.in_bounds(address as int, old(mem)@.len() as int) && e
                    == VallocError::InvalidAddress && final(mem)@ == old(mem)@,
            },
    {
        if self.lower_bound <= address && address <= self.upper_bound {
            if address < mem.len() && self.data <= mem.len() - 1 - address {
                mem.write_byte(self.data + address, value);
                return Ok(());
            }
        }
        Err(VallocError::InvalidAddress)
    }
}

} // verus!
