//! The length and capacity words of a heap buffer.
//!
//! The length of a heap buffer is kept in a word whose most significant byte is
//! [`HEAP_MARKER`], so that the word can share its top byte with the tag of the representation.
//! The rest of the word holds the length. On a 64-bit target every length that a heap buffer can
//! hold fits there. On a 32-bit target the three remaining bytes are not enough for every length:
//! the largest value of the low bytes then says that the length is stored on the heap instead.
use vstd::prelude::*;

use super::super::last_byte::HEAP_MARKER;
use crate::errors::ReserveError;

verus! {

/// The width of a machine word.
#[derive(Clone, Copy, Debug, PartialEq, Eq)]
pub enum Width {
    /// A 32-bit word.
    W32,
    /// A 64-bit word.
    W64,
}

impl Width {
    /// The width of `usize` on the target.
    pub open spec fn spec_native() -> Width {
        if usize::BITS == 64 {
            Width::W64
        } else {
            Width::W32
        }
    }

    /// The width of `usize` on the target.
    pub fn native() -> (w: Width)
        ensures
            w == Width::spec_native(),
    {
        if usize::BITS == 64 {
            Width::W64
        } else {
            Width::W32
        }
    }

    /// The largest length that the low bytes of a length word hold.
    pub open spec fn spec_max_len(self) -> u64 {
        match self {
            Width::W32 => 0x00ff_fffe,
            Width::W64 => 0x00ff_ffff_ffff_ffff,
        }
    }

    /// The largest length that the low bytes of a length word hold.
    pub fn max_len(self) -> (r: u64)
        ensures
            r == self.spec_max_len(),
    {
        match self {
            Width::W32 => 0x00ff_fffe,
            Width::W64 => 0x00ff_ffff_ffff_ffff,
        }
    }

    /// A word whose most significant byte is `marker` and whose other bytes are zero.
    pub open spec fn spec_tag(self, marker: u8) -> u64 {
        match self {
            Width::W32 => ((marker as u64) << 24u64) as u64,
            Width::W64 => ((marker as u64) << 56u64) as u64,
        }
    }

    /// A word whose most significant byte is `marker` and whose other bytes are zero.
    pub fn tag(self, marker: u8) -> (r: u64)
        ensures
            r == self.spec_tag(marker),
    {
        match self {
            Width::W32 => (marker as u64) << 24u64,
            Width::W64 => (marker as u64) << 56u64,
        }
    }

    /// The most significant byte of a word.
    pub open spec fn spec_top_byte(self, word: u64) -> u8 {
        match self {
            Width::W32 => ((word >> 24u64) & 0xff) as u8,
            Width::W64 => ((word >> 56u64) & 0xff) as u8,
        }
    }

    /// The most significant byte of a word.
    pub fn top_byte(self, word: u64) -> (r: u8)
        ensures
            r == self.spec_top_byte(word),
    {
        match self {
            Width::W32 => ((word >> 24u64) & 0xff) as u8,
            Width::W64 => ((word >> 56u64) & 0xff) as u8,
        }
    }

    /// The word that says, on a 32-bit target, that the length is stored on the heap.
    pub open spec fn spec_on_the_heap(self) -> u64 {
        (0x00ff_ffffu64 | self.spec_tag(HEAP_MARKER)) as u64
    }

    /// The largest value that fits below the most significant byte of a word.
    pub open spec fn spec_low_mask(self) -> u64 {
        match self {
            Width::W32 => 0x00ff_ffff,
            Width::W64 => 0x00ff_ffff_ffff_ffff,
        }
    }

    /// The largest value that fits below the most significant byte of a word.
    pub fn low_mask(self) -> (r: u64)
        ensures
            r == self.spec_low_mask(),
    {
        match self {
            Width::W32 => 0x00ff_ffff,
            Width::W64 => 0x00ff_ffff_ffff_ffff,
        }
    }
}

/// The encoding of a value `v` that fits below the most significant byte: tag and value share
/// the word without overlapping.
pub proof fn lemma_tagged_word(w: Width, marker: u8, v: u64)
    requires
        v <= w.spec_low_mask(),
    ensures
        (v | w.spec_tag(marker)) ^ w.spec_tag(marker) == v,
        w.spec_top_byte(v | w.spec_tag(marker)) == marker,
        w == Width::W32 ==> (v | w.spec_tag(marker)) <= 0xffff_ffff,
        w == Width::W32 && v <= w.spec_max_len() ==> (v | w.spec_tag(marker)) != (0x00ff_ffffu64
            | w.spec_tag(marker)),
{
    match w {
        Width::W32 => {
            assert((v | ((marker as u64) << 24u64)) ^ ((marker as u64) << 24u64) == v)
                by (bit_vector)
                requires
                    v <= 0x00ff_ffff,
            ;
            assert((((v | ((marker as u64) << 24u64)) >> 24u64) & 0xff) as u8 == marker)
                by (bit_vector)
                requires
                    v <= 0x00ff_ffff,
            ;
            assert((v | ((marker as u64) << 24u64)) <= 0xffff_ffff) by (bit_vector)
                requires
                    v <= 0x00ff_ffff,
            ;
            assert(v <= 0x00ff_fffe ==> (v | ((marker as u64) << 24u64)) != (0x00ff_ffffu64 | ((
            marker as u64) << 24u64))) by (bit_vector);
        },
        Width::W64 => {
            assert((v | ((marker as u64) << 56u64)) ^ ((marker as u64) << 56u64) == v)
                by (bit_vector)
                requires
                    v <= 0x00ff_ffff_ffff_ffff,
            ;
            assert((((v | ((marker as u64) << 56u64)) >> 56u64) & 0xff) as u8 == marker)
                by (bit_vector)
                requires
                    v <= 0x00ff_ffff_ffff_ffff,
            ;
        },
    }
}

/// The word that says that the length is on the heap carries the marker too.
pub proof fn lemma_on_the_heap_word(marker: u8)
    ensures
        Width::W32.spec_top_byte((0x00ff_ffffu64 | Width::W32.spec_tag(marker)) as u64) == marker,
{
    assert((((0x00ff_ffffu64 | ((marker as u64) << 24u64)) >> 24u64) & 0xff) as u8 == marker)
        by (bit_vector);
}

/// The length of a heap buffer, stored in a word whose most significant byte is
/// [`HEAP_MARKER`].
///
/// The largest length that the word holds is `2^56 - 1` on a 64-bit target and `2^24 - 2` on a
/// 32-bit target. On a 32-bit target a longer length is stored on the heap, and the word then holds
/// the marker above `2^24 - 1`.
#[derive(Clone, Copy, Debug, PartialEq, Eq)]
pub struct TextLen {
    raw: u64,
    width: Width,
}

impl TextLen {
    /// The raw word.
    pub closed spec fn spec_raw(self) -> u64 {
        self.raw
    }

    /// The width of the word.
    pub closed spec fn spec_width(self) -> Width {
        self.width
    }

    /// True when the length is stored on the heap.
    pub closed spec fn spec_is_heap(self) -> bool {
        self.width == Width::W32 && self.raw == self.width.spec_on_the_heap()
    }

    /// The length that the word holds, when it is not on the heap.
    pub closed spec fn spec_value(self) -> u64 {
        self.raw ^ self.width.spec_tag(HEAP_MARKER)
    }

    /// The word is one that [`TextLen::new_in`] makes.
    pub closed spec fn wf(self) -> bool {
        ||| self.spec_is_heap()
        ||| {
            &&& self.spec_value() <= self.width.spec_max_len()
            &&& self.raw == (self.spec_value() | self.width.spec_tag(HEAP_MARKER))
        }
    }

    /// Encodes `size` in a length word of the given width.
    ///
    /// A size above the width's maximum length is refused on a 64-bit target, and stored on the
    /// heap on a 32-bit target.
    pub fn new_in(width: Width, size: u64) -> (r: Result<TextLen, ReserveError>)
        ensures
            size <= width.spec_max_len() ==> (r matches Ok(t) && !t.spec_is_heap()
                && t.spec_value() == size),
            size > width.spec_max_len() ==> (width == Width::W64 <==> r is Err),
            size > width.spec_max_len() && width == Width::W32 ==> (r matches Ok(t)
                && t.spec_is_heap()),
            r matches Ok(t) ==> t.wf() && t.spec_width() == width,
    {
        let tag = width.tag(HEAP_MARKER);
        if size > width.max_len() {
            match width {
                Width::W64 => {
                    cold_path();
                    return Err(ReserveError);
                },
                Width::W32 => {
                    return Ok(TextLen { raw: 0x00ff_ffffu64 | tag, width });
                },
            }
        }
        proof {
            lemma_tagged_word(width, HEAP_MARKER, size);
        }
        Ok(TextLen { raw: size | tag, width })
    }

    /// Encodes `size` in a length word of the target's width.
    pub fn new(size: usize) -> (r: Result<TextLen, ReserveError>)
        ensures
            size <= Width::spec_native().spec_max_len() ==> (r matches Ok(t)
                && !t.spec_is_heap() && t.spec_value() == size),
            size > Width::spec_native().spec_max_len() ==> (Width::spec_native() == Width::W64
                <==> r is Err),
            size > Width::spec_native().spec_max_len() && Width::spec_native() == Width::W32 ==> (
            r matches Ok(t) && t.spec_is_heap()),
            r matches Ok(t) ==> t.wf() && t.spec_width() == Width::spec_native(),
    {
        TextLen::new_in(Width::native(), size as u64)
    }

    /// True when the length is stored on the heap.
    pub fn is_heap(&self) -> (r: bool)
        ensures
            r == self.spec_is_heap(),
    {
        match self.width {
            Width::W64 => false,
            Width::W32 => self.raw == 0x00ff_ffffu64 | self.width.tag(HEAP_MARKER),
        }
    }

    /// The length that the word holds. Meaningful only when the length is not on the heap.
    pub fn as_u64(self) -> (r: u64)
        ensures
            r == self.spec_value(),
    {
        self.raw ^ self.width.tag(HEAP_MARKER)
    }

    /// The length that a word of the target's width holds, when it is not on the heap.
    pub fn as_usize(self) -> (r: usize)
        requires
            self.wf(),
            !self.spec_is_heap(),
            self.spec_width() == Width::spec_native(),
        ensures
            r == self.spec_value(),
    {
        self.as_u64() as usize
    }

    /// The most significant byte of the word.
    pub fn tag_byte(&self) -> (r: u8)
        requires
            self.wf(),
        ensures
            r == HEAP_MARKER,
    {
        proof {
            if self.spec_is_heap() {
                lemma_on_the_heap_word(HEAP_MARKER);
            } else {
                lemma_tagged_word(self.width, HEAP_MARKER, self.spec_value());
            }
        }
        self.width.top_byte(self.raw)
    }
}

/// The largest length that a length word of the target holds.
pub fn max_len() -> (r: usize)
    ensures
        r == Width::spec_native().spec_max_len(),
{
    Width::native().max_len() as usize
}

/// True when a buffer of `capacity` bytes keeps its length on the heap, which happens on a 32-bit
/// target only.
pub open spec fn spec_is_len_heap_layout(capacity: nat) -> bool {
    Width::spec_native() == Width::W32 && capacity > Width::W32.spec_max_len()
}

/// True when a buffer of `capacity` bytes keeps its length on the heap.
pub fn is_len_heap_layout(capacity: Capacity) -> (r: bool)
    ensures
        r == spec_is_len_heap_layout(capacity.spec_value() as nat),
{
    match Width::native() {
        Width::W64 => false,
        Width::W32 => capacity.as_usize() as u64 > Width::W32.max_len(),
    }
}

/// The capacity of a heap buffer: at most `2^56 - 1` on a 64-bit target.
#[derive(Clone, Copy, Debug, PartialEq, Eq)]
pub struct Capacity {
    value: usize,
}

/// True when `capacity` is a capacity that a heap buffer may have.
pub open spec fn spec_capacity_ok(capacity: nat) -> bool {
    Width::spec_native() == Width::W64 ==> capacity <= Width::W64.spec_max_len()
}

impl Capacity {
    /// The number of bytes.
    pub closed spec fn spec_value(self) -> usize {
        self.value
    }

    /// Checks that `capacity` is a capacity that a heap buffer may have.
    pub fn new(capacity: usize) -> (r: Result<Capacity, ReserveError>)
        ensures
            spec_capacity_ok(capacity as nat) <==> r is Ok,
            r matches Ok(c) ==> c.spec_value() == capacity,
    {
        if usize::BITS == 64 && capacity as u64 > Width::W64.max_len() {
            cold_path();
            return Err(ReserveError);
        }
        Ok(Capacity { value: capacity })
    }

    /// The number of bytes.
    pub fn as_usize(&self) -> (r: usize)
        ensures
            r == self.spec_value(),
    {
        self.value
    }
}

/// Marks the path that calls it as unlikely. It does nothing.
#[inline(always)]
pub fn cold_path() {
}

} // verus!
