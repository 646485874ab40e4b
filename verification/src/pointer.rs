//! Typed, index-based handles naming locations inside the arena.

use core::marker::PhantomData;
use vstd::prelude::*;

use crate::errors::VallocError;
use crate::value::ArenaValue;

verus! {

/// Relies on the derived `Clone` of `core::marker::PhantomData`: the
/// type has a single value, so the clone is that same value.
pub assume_specification<T: core::marker::PointeeSized>[ <PhantomData<T> as Clone>::clone ](v: &PhantomData<T>) -> (r:
    PhantomData<T>)
    ensures
        r == *v,
;

/// A typed handle into the arena: a byte offset paired with the logical
/// element index it stands at, or the distinguishable `NULL` sentinel.
///
/// The handle is index-based rather than a raw machine address, so the
/// allocator re-validates it against the chunk ledger on every access; a
/// handle carries no guarantee beyond "usable while the chunk it points
/// into stays in use".  The element type is tracked only as a phantom:
/// arithmetic scales by the element width, and reads and writes move
/// exactly that many bytes.
#[allow(non_camel_case_types)]
#[derive(Debug, Clone, Copy, PartialEq, Eq)]
pub enum Pointer<T> {
    /// A live handle on a byte offset of the arena.
    Pointer {
        /// The byte offset into the arena this handle names.
        address: usize,
        /// The logical element index the handle stands at.
        index: usize,
        /// The element type the handle reads and writes.
        element: PhantomData<T>,
    },
    /// The sentinel carrying no location.
    NULL,
}

impl<T> Pointer<T> {
    /// Whether this handle is the `NULL` sentinel.
    pub open spec fn spec_is_null(self) -> bool {
        self is NULL
    }

    /// The byte offset a live handle names.
    pub open spec fn spec_address(self) -> usize {
        match self {
            Pointer::Pointer { address, .. } => address,
            Pointer::NULL => 0,
        }
    }

    /// The logical element index of a live handle.
    pub open spec fn spec_index(self) -> usize {
        match self {
            Pointer::Pointer { index, .. } => index,
            Pointer::NULL => 0,
        }
    }

    /// A live handle on byte offset `address` at element index `index`.
    pub fn new(address: usize, index: usize) -> (r: Self)
        ensures
            !r.spec_is_null(),
            r.spec_address() == address,
            r.spec_index() == index,
    {
        Pointer::Pointer { address, index, element: PhantomData }
    }

    /// Whether this handle is the `NULL` sentinel.
    pub fn is_null(&self) -> (r: bool)
        ensures
            r == self.spec_is_null(),
    {
        match self {
            Pointer::Pointer { .. } => false,
            Pointer::NULL => true,
        }
    }

    /// The byte offset this handle names; `NULL` has none.
    pub fn address(&self) -> (r: Result<usize, VallocError>)
        ensures
            match r {
                Ok(a) => !self.spec_is_null() && a == self.spec_address(),
                Err(e) => self.spec_is_null() && e == VallocError::NullPointerDereference,
            },
    {
        match self {
            Pointer::Pointer { address, .. } => Ok(*address),
            Pointer::NULL => Err(VallocError::NullPointerDereference),
        }
    }

    /// The logical element index of this handle; `NULL` has none.
    pub fn get_index(&self) -> (r: Result<usize, VallocError>)
        ensures
            match r {
                Ok(i) => !self.spec_is_null() && i == self.spec_index(),
                Err(e) => self.spec_is_null() && e == VallocError::NullPointerDereference,
            },
    {
        match self {
            Pointer::Pointer { index, .. } => Ok(*index),
            Pointer::NULL => Err(VallocError::NullPointerDereference),
        }
    }

    /// Reinterpret the same location as holding elements of type `U`,
    /// preserving the logical index.
    ///
    /// The cast itself checks nothing about the two element widths: the
    /// next read or write through the handle is what validates the
    /// accessed byte range against the owning chunk.
    pub fn cast<U>(self) -> (r: Result<Pointer<U>, VallocError>)
        ensures
            match r {
                Ok(q) => !self.spec_is_null() && !q.spec_is_null() && q.spec_address()
                    == self.spec_address() && q.spec_index() == self.spec_index(),
                Err(e) => self.spec_is_null() && e == VallocError::NullPointerDereference,
            },
    {
        match self {
            Pointer::Pointer { address, index, .. } => Ok(
                Pointer::Pointer { address, index, element: PhantomData },
            ),
            Pointer::NULL => Err(VallocError::NullPointerDereference),
        }
    }
}

impl<T: ArenaValue> Pointer<T> {
    /// The handle `n` elements forward: the offset moves by `n` element
    /// widths and the logical index by `n`.
    ///
    /// The move itself is not validated against any chunk; validation
    /// happens at the next read or write.
    pub fn add(self, n: usize) -> (r: Self)
        requires
            !self.spec_is_null(),
            self.spec_address() + n * T::spec_width() <= usize::MAX,
            self.spec_index() + n <= usize::MAX,
        ensures
            !r.spec_is_null(),
            r.spec_address() == self.spec_address() + n * T::spec_width(),
            r.spec_index() == self.spec_index() + n,
    {
        match self {
            Pointer::Pointer { address, index, .. } => {
                let w = T::width();
                Pointer::Pointer { address: address + n * w, index: index + n, element: PhantomData }
            },
            Pointer::NULL => unreached(),
        }
    }

    /// The handle `n` elements backward.
    pub fn sub(self, n: usize) -> (r: Self)
        requires
            !self.spec_is_null(),
            n * T::spec_width() <= self.spec_address(),
            n <= self.spec_index(),
        ensures
            !r.spec_is_null(),
            r.spec_address() == self.spec_address() - n * T::spec_width(),
            r.spec_index() == self.spec_index() - n,
    {
        match self {
            Pointer::Pointer { address, index, .. } => {
                let w = T::width();
                Pointer::Pointer { address: address - n * w, index: index - n, element: PhantomData }
            },
            Pointer::NULL => unreached(),
        }
    }
}

/// A plain-old-data form of a byte handle: address, window length and
/// logical index as bare machine words, exchangeable with callers that
/// cannot carry a generic handle.
#[derive(Debug, Clone, Copy, PartialEq, Eq, Structural)]
pub struct CPointer {
    /// The byte offset into the arena.
    pub address: usize,
    /// The length, in bytes, of the window the handle was issued for.
    pub len: usize,
    /// The logical element index.
    pub index: usize,
}

impl CPointer {
    /// Bundle an address, window length and index.
    pub fn new(address: usize, len: usize, index: usize) -> (r: Self)
        ensures
            r.address == address,
            r.len == len,
            r.index == index,
    {
        CPointer { address, len, index }
    }

    /// The byte handle this plain form stands for.
    pub fn to_pointer(&self) -> (r: Pointer<u8>)
        ensures
            !r.spec_is_null(),
            r.spec_address() == self.address,
            r.spec_index() == self.index,
    {
        Pointer::new(self.address, self.index)
    }

    /// The plain form of a live byte handle over a window of `len`
    /// bytes.
    pub fn from_pointer(ptr: &Pointer<u8>, len: usize) -> (r: Result<CPointer, VallocError>)
        ensures
            match r {
                Ok(c) => !ptr.spec_is_null() && c.address == ptr.spec_address() && c.len == len
                    && c.index == ptr.spec_index(),
                Err(e) => ptr.spec_is_null() && e == VallocError::NullPointerDereference,
            },
    {
        match ptr {
            Pointer::Pointer { address, index, .. } => Ok(CPointer::new(*address, len, *index)),
            Pointer::NULL => Err(VallocError::NullPointerDereference),
        }
    }
}

} // verus!
