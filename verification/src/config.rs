//! Compile-time geometry of the flash device.

use vstd::prelude::*;

verus! {

/// Size in bytes of one flash page: the unit of erase.
pub const PAGE_SIZE: usize = 256;

/// Number of pages the in-memory flash holds.
pub const MAX_PAGE_COUNT: usize = 32;

/// Write granularity: the offset and length of every flash write are
/// multiples of this, and a page is a whole number of such units.
pub const ALIGN: usize = 4;

/// The value every byte of a page holds after an erase.
pub const ERASE_VALUE: u8 = 0xFF;

/// Upper bound on the encoded size of a higher-layer page header.
pub const MAX_HEADER_SIZE: usize = 16;

} // verus!
