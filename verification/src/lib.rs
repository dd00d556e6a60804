//! A verified page layer for raw NOR flash.
//!
//! The flash is a set of fixed-size pages that erase to `0xFF` and accept
//! aligned, one-shot writes. On top of it this crate frames each page as a
//! header followed by a run of *chunks*, appended data that becomes visible
//! to readers only when its length cell is written, so that a write
//! interrupted by power loss is indistinguishable from no write at all.

use vstd::prelude::*;

pub mod config;
pub mod flash;
pub mod layout;
pub mod page;

verus! {

/// Errors reported by the page layer.
#[derive(Clone, Copy, PartialEq, Eq, Debug)]
pub enum Error {
    /// An on-flash invariant does not hold: a bad magic value, or a chunk
    /// that runs past the end of its page.
    Corrupted,
}

} // verus!
