//! A user-space virtual memory allocator simulated over a contiguous byte
//! arena.
//!
//! The crate provides `malloc`/`free`/`realloc`-style bookkeeping over a
//! single owned buffer of bytes: a ledger of chunks partitions the arena,
//! allocation is first-fit with splitting, freeing eagerly coalesces
//! adjacent free chunks, and typed handles give bounds- and width-checked
//! access to values stored in the arena.

pub mod allocator;
pub mod errors;
pub mod laws;
pub mod pointer;
pub mod value;
pub mod vmem;
