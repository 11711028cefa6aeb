//! The byte that tells the three buffer kinds apart.
//!
//! The last byte of an inline buffer that holds fewer than `MAX_INLINE_SIZE` bytes is
//! `MASK_1100_0000 | len`. When the inline buffer is full, the last byte is the last byte of the
//! text, which is never `0b11xx_xxxx` because it is the last byte of valid UTF-8. The markers of the
//! other two kinds lie above every inline tag.
use vstd::prelude::*;

verus! {

/// The bits that every inline length tag carries.
pub const MASK_1100_0000: u8 = 0xC0;

/// The tag of an empty inline buffer.
pub const LENGTH_00: u8 = 0xC0;

/// The tag of a heap buffer.
pub const HEAP_MARKER: u8 = 0xD8;

/// The tag of a static buffer.
pub const STATIC_MARKER: u8 = 0xD9;

} // verus!
