//! A shared, reference-counted heap buffer.
//!
//! The allocation holds a header and the bytes; every handle to it keeps its own length word.
//! Handles share the allocation until one of them needs to change shared bytes, which then works
//! on a copy of its own. A growable header keeps the capacity; an exact header keeps nothing, and
//! the capacity of an exact buffer is its length.
use std::sync::Arc;
use vstd::prelude::*;
use vstd::string::*;
use vstd::utf8::*;

pub mod internal;

use self::internal::{
    Capacity, TextLen, Width, is_len_heap_layout, spec_capacity_ok, spec_is_len_heap_layout,
};
use super::last_byte::HEAP_MARKER;
use crate::errors::ReserveError;
use crate::std_glue::{arc_clone, arc_strong_count, arc_try_unwrap, str_from_utf8};

verus! {

/// The number of bytes in a machine word.
pub open spec fn spec_word_bytes() -> nat {
    if usize::BITS == 64 {
        8
    } else {
        4
    }
}

/// The number of bytes in a machine word.
pub fn word_bytes() -> (r: usize)
    ensures
        r == spec_word_bytes(),
{
    if usize::BITS == 64 {
        8
    } else {
        4
    }
}

/// The size of the allocation of a buffer whose header has `header_size` bytes and whose text
/// has `capacity` bytes. A buffer that keeps its length on the heap has room for it in front of
/// the header.
pub open spec fn spec_alloc_size(header_size: nat, capacity: nat) -> nat {
    header_size + capacity + if spec_is_len_heap_layout(capacity) {
        spec_word_bytes()
    } else {
        0
    }
}

/// True when an allocation of that size, aligned to a word, is a valid layout: rounded up to the
/// alignment, it must not exceed `isize::MAX`.
pub open spec fn spec_layout_ok(header_size: nat, capacity: nat) -> bool {
    spec_alloc_size(header_size, capacity) + spec_word_bytes() - 1 <= isize::MAX
}

/// The header at the start of a heap allocation.
pub trait Header: Sized {
    /// The number of bytes the header takes in front of the text.
    spec fn spec_size() -> nat;

    /// The capacity of a buffer whose header is `self` and whose text has `len` bytes.
    spec fn spec_capacity(&self, len: nat) -> nat;

    /// A header takes one or two words.
    proof fn lemma_size_bounds()
        ensures
            spec_word_bytes() <= Self::spec_size() <= 2 * spec_word_bytes(),
    ;

    /// The number of bytes the header takes in front of the text.
    fn size() -> (r: usize)
        ensures
            r == Self::spec_size(),
            spec_word_bytes() <= r <= 2 * spec_word_bytes(),
    ;

    /// A header for a new allocation of `capacity` bytes.
    fn new(capacity: Capacity) -> (h: Self)
        ensures
            h.spec_capacity(capacity.spec_value() as nat) == capacity.spec_value(),
    ;
}

/// The header of a buffer that can grow: it keeps the capacity.
#[derive(Debug)]
pub struct GrowableHeader {
    capacity: Capacity,
}

impl Header for GrowableHeader {
    open spec fn spec_size() -> nat {
        2 * spec_word_bytes()
    }

    closed spec fn spec_capacity(&self, len: nat) -> nat {
        self.capacity.spec_value() as nat
    }

    proof fn lemma_size_bounds() {
    }

    fn size() -> (r: usize) {
        2 * word_bytes()
    }

    fn new(capacity: Capacity) -> (h: Self) {
        GrowableHeader { capacity }
    }
}

/// The header of a buffer that never grows: its capacity is its length.
#[derive(Debug)]
pub struct ExactHeader {}

impl Header for ExactHeader {
    open spec fn spec_size() -> nat {
        spec_word_bytes()
    }

    open spec fn spec_capacity(&self, len: nat) -> nat {
        len
    }

    proof fn lemma_size_bounds() {
    }

    fn size() -> (r: usize) {
        word_bytes()
    }

    fn new(capacity: Capacity) -> (h: Self) {
        ExactHeader {  }
    }
}

/// A heap allocation: the header, the length of the text when the handles keep it here, and the
/// bytes.
#[derive(Debug)]
pub struct Allocation<H> {
    header: H,
    heap_len: usize,
    bytes: Vec<u8>,
}

/// A handle to a shared heap allocation, with the length of its text.
#[derive(Debug)]
pub struct HeapBuffer<H: Header> {
    alloc: Arc<Allocation<H>>,
    len: TextLen,
}

/// [`HeapBuffer`] grows at an amortized rate of 1.5x: the new capacity is the larger of
/// `cur_len + additional` and `cur_len * 3 / 2`, each saturated at `usize::MAX`.
pub open spec fn spec_amortized_growth(cur_len: nat, additional: nat) -> nat {
    let required = if cur_len + additional > usize::MAX {
        usize::MAX as nat
    } else {
        cur_len + additional
    };
    let tripled = if cur_len * 3 > usize::MAX {
        usize::MAX as nat
    } else {
        cur_len * 3
    };
    let amortized = tripled / 2;
    if amortized > required {
        amortized
    } else {
        required
    }
}

/// The capacity to grow to: see [`spec_amortized_growth`].
pub fn amortized_growth(cur_len: usize, additional: usize) -> (r: usize)
    ensures
        r == spec_amortized_growth(cur_len as nat, additional as nat),
{
    let required = cur_len.saturating_add(additional);
    let tripled = if cur_len > usize::MAX / 3 {
        usize::MAX
    } else {
        cur_len * 3
    };
    let amortized = tripled / 2;
    max(amortized, required)
}

/// The larger of two numbers.
pub fn max(x: usize, y: usize) -> (r: usize)
    ensures
        r == if x > y {
            x
        } else {
            y
        },
{
    if x > y {
        x
    } else {
        y
    }
}

impl<H: Header> HeapBuffer<H> {
    /// The length of the text.
    pub closed spec fn spec_len(self) -> nat {
        if self.len.spec_is_heap() {
            self.alloc.heap_len as nat
        } else {
            self.len.spec_value() as nat
        }
    }

    /// The text, as bytes.
    pub closed spec fn view(self) -> Seq<u8> {
        self.alloc.bytes@.subrange(0, self.spec_len() as int)
    }

    /// The number of bytes the allocation has room for.
    pub closed spec fn spec_capacity(self) -> nat {
        self.alloc.header.spec_capacity(self.spec_len())
    }

    /// The capacity the allocation would have if its text had `len` bytes.
    pub closed spec fn spec_capacity_at(self, len: nat) -> nat {
        self.alloc.header.spec_capacity(len)
    }

    /// True when the length word says that the length is on the heap.
    pub closed spec fn spec_len_on_heap(self) -> bool {
        self.len.spec_is_heap()
    }

    /// The length word matches the length, the text fits in the capacity, the capacity is one that
    /// a heap buffer may have, and the text is valid UTF-8.
    pub closed spec fn wf(self) -> bool {
        &&& self.len.wf()
        &&& self.len.spec_width() == Width::spec_native()
        &&& (self.len.spec_is_heap() <==> self.spec_len() > Width::spec_native().spec_max_len())
        &&& self.spec_len() <= self.alloc.bytes@.len()
        &&& self.alloc.bytes@.len() <= self.spec_capacity()
        &&& spec_capacity_ok(self.spec_capacity())
        &&& spec_layout_ok(H::spec_size(), self.spec_capacity())
        &&& valid_utf8(self.view())
    }

    /// Facts that follow from well-formedness.
    pub proof fn lemma_wf(self)
        requires
            self.wf(),
        ensures
            self.view().len() == self.spec_len(),
            self.spec_len() <= self.spec_capacity(),
            self.spec_capacity() <= usize::MAX,
            valid_utf8(self.view()),
            self.spec_len_on_heap() <==> self.view().len() > Width::spec_native().spec_max_len(),
    {
    }

    /// A well-formed buffer's capacity is one that a heap buffer may have.
    pub proof fn lemma_heap_ok(self)
        requires
            self.wf(),
        ensures
            spec_capacity_ok(self.spec_capacity()),
            spec_layout_ok(H::spec_size(), self.spec_capacity()),
    {
    }

    /// The alignment of the allocation: a word.
    pub fn align() -> (r: usize)
        ensures
            r == spec_word_bytes(),
    {
        word_bytes()
    }

    /// The offset of the text from the start of the header.
    pub fn header_offset() -> (r: usize)
        ensures
            r == H::spec_size(),
    {
        max(H::size(), Self::align())
    }

    /// The size of an allocation for `capacity` bytes, or an error when that size is not a valid
    /// layout.
    pub fn layout_for(capacity: Capacity) -> (r: Result<usize, ReserveError>)
        ensures
            r is Ok <==> spec_layout_ok(H::spec_size(), capacity.spec_value() as nat),
            r matches Ok(size) ==> size == spec_alloc_size(
                H::spec_size(),
                capacity.spec_value() as nat,
            ),
    {
        let size = match Self::header_offset().checked_add(capacity.as_usize()) {
            Some(size) => size,
            None => return Err(ReserveError),
        };
        let size = if is_len_heap_layout(capacity) {
            match size.checked_add(word_bytes()) {
                Some(size) => size,
                None => return Err(ReserveError),
            }
        } else {
            size
        };
        if size > (isize::MAX as usize) - (Self::align() - 1) {
            return Err(ReserveError);
        }
        Ok(size)
    }

    /// Reserves room for `size` bytes: the capacity must be one that a heap buffer may have, its
    /// layout must be valid, and the allocator must grant the memory.
    fn allocate(size: usize) -> (r: Result<(Vec<u8>, Capacity), ReserveError>)
        ensures
            !spec_capacity_ok(size as nat) ==> r is Err,
            !spec_layout_ok(H::spec_size(), size as nat) ==> r is Err,
            r matches Ok((v, c)) ==> v@ == Seq::<u8>::empty() && c.spec_value() == size
                && spec_capacity_ok(size as nat) && spec_layout_ok(H::spec_size(), size as nat),
    {
        let capacity = Capacity::new(size)?;
        Self::layout_for(capacity)?;
        let mut bytes: Vec<u8> = Vec::new();
        match bytes.try_reserve(size) {
            Ok(()) => Ok((bytes, capacity)),
            Err(_) => Err(ReserveError),
        }
    }

    /// Copies `text` into a new allocation whose capacity is the length of `text`.
    pub fn new(text: &str) -> (r: Result<Self, ReserveError>)
        ensures
            !spec_capacity_ok(text.spec_bytes().len()) ==> r is Err,
            !spec_layout_ok(H::spec_size(), text.spec_bytes().len()) ==> r is Err,
            r matches Ok(b) ==> b.wf() && b.view() == text.spec_bytes() && b.spec_capacity()
                == text.spec_bytes().len(),
    {
        let src = text.as_bytes();
        proof {
            encode_utf8_valid_utf8(text@);
        }
        Self::from_utf8_bytes(src)
    }

    /// Copies bytes of valid UTF-8 into a new allocation whose capacity is their length.
    pub fn from_utf8_bytes(src: &[u8]) -> (r: Result<Self, ReserveError>)
        requires
            valid_utf8(src@),
        ensures
            !spec_capacity_ok(src@.len()) ==> r is Err,
            !spec_layout_ok(H::spec_size(), src@.len()) ==> r is Err,
            r matches Ok(b) ==> b.wf() && b.view() == src@ && b.spec_capacity() == src@.len(),
    {
        let text_len = src.len();
        let len = TextLen::new(text_len)?;
        let (mut bytes, capacity) = Self::allocate(text_len)?;
        extend_bytes(&mut bytes, src);
        let heap_len = if len.is_heap() {
            text_len
        } else {
            0
        };
        let r = HeapBuffer { alloc: Arc::new(Allocation { header: H::new(capacity), heap_len, bytes }), len };
        assert(r.view() =~= src@);
        Ok(r)
    }

    /// Moves `bytes` of valid UTF-8 into a new allocation whose capacity is their length.
    pub fn from_utf8_vec(bytes: Vec<u8>) -> (r: Result<Self, (Vec<u8>, ReserveError)>)
        requires
            valid_utf8(bytes@),
        ensures
            !spec_capacity_ok(bytes@.len()) ==> r is Err,
            !spec_layout_ok(H::spec_size(), bytes@.len()) ==> r is Err,
            r matches Ok(b) ==> b.wf() && b.view() == bytes@ && b.spec_capacity() == bytes@.len(),
            r matches Err((v, _)) ==> v == bytes,
            spec_capacity_ok(bytes@.len()) && spec_layout_ok(H::spec_size(), bytes@.len())
                ==> r is Ok,
    {
        let text_len = bytes.len();
        let len = match TextLen::new(text_len) {
            Ok(len) => len,
            Err(e) => return Err((bytes, e)),
        };
        let capacity = match Capacity::new(text_len) {
            Ok(c) => c,
            Err(e) => return Err((bytes, e)),
        };
        match Self::layout_for(capacity) {
            Ok(_) => {},
            Err(e) => return Err((bytes, e)),
        }
        let heap_len = if len.is_heap() {
            text_len
        } else {
            0
        };
        let r = HeapBuffer { alloc: Arc::new(Allocation { header: H::new(capacity), heap_len, bytes }), len };
        assert(r.view() =~= bytes@);
        Ok(r)
    }

    /// The length of the text.
    pub fn len(&self) -> (r: usize)
        requires
            self.wf(),
        ensures
            r == self.spec_len(),
    {
        if self.len.is_heap() {
            self.alloc.heap_len
        } else {
            self.len.as_usize()
        }
    }

    /// The text, as bytes.
    pub fn as_bytes(&self) -> (r: &[u8])
        requires
            self.wf(),
        ensures
            r@ == self.view(),
    {
        let len = self.len();
        vstd::slice::slice_subrange(self.alloc.bytes.as_slice(), 0, len)
    }

    /// The text.
    pub fn as_str(&self) -> (r: &str)
        requires
            self.wf(),
        ensures
            r.spec_bytes() == self.view(),
    {
        let bytes = self.as_bytes();
        match str_from_utf8(bytes) {
            Ok(s) => s,
            Err(_) => {
                assert(false);
                ""
            },
        }
    }

    /// The most significant byte of the length word: the heap marker.
    pub fn last_byte(&self) -> (r: u8)
        requires
            self.wf(),
        ensures
            r == HEAP_MARKER,
    {
        self.len.tag_byte()
    }

    /// True when no other handle shares the allocation. The answer depends on the other handles
    /// alive at the time of the call.
    pub fn is_unique(&self) -> bool {
        self.reference_count() == 1
    }

    /// True when the length word says that the length is on the heap.
    pub fn is_len_on_heap(&self) -> (r: bool)
        ensures
            r == self.spec_len_on_heap(),
    {
        self.len.is_heap()
    }

    /// The number of handles that share the allocation.
    pub fn reference_count(&self) -> usize {
        arc_strong_count(&self.alloc)
    }

    /// A new handle to the same allocation.
    pub fn clone_handle(&self) -> (r: Self)
        ensures
            r == *self,
    {
        HeapBuffer { alloc: arc_clone(&self.alloc), len: self.len }
    }

    /// Gives up this handle. The allocation is freed with the last handle.
    pub fn release(self) {
    }

}

impl HeapBuffer<GrowableHeader> {
    /// A new, empty buffer with room for `capacity` bytes.
    pub fn with_capacity(capacity: usize) -> (r: Result<Self, ReserveError>)
        ensures
            !spec_capacity_ok(capacity as nat) ==> r is Err,
            !spec_layout_ok(GrowableHeader::spec_size(), capacity as nat) ==> r is Err,
            r matches Ok(b) ==> b.wf() && b.view() == Seq::<u8>::empty() && b.spec_capacity()
                == capacity,
    {
        let len = TextLen::new(0)?;
        let (bytes, cap) = Self::allocate(capacity)?;
        let r = HeapBuffer {
            alloc: Arc::new(Allocation { header: GrowableHeader { capacity: cap }, heap_len: 0, bytes }),
            len,
        };
        assert(r.view() =~= Seq::<u8>::empty());
        Ok(r)
    }

    /// Copies `text` into a new buffer with room for `capacity` bytes. Refused when `text` is
    /// longer than `capacity`.
    pub fn with_exact_capacity(text: &[u8], capacity: usize) -> (r: Result<Self, ReserveError>)
        requires
            valid_utf8(text@),
        ensures
            text@.len() > capacity ==> r is Err,
            !spec_capacity_ok(capacity as nat) ==> r is Err,
            !spec_layout_ok(GrowableHeader::spec_size(), capacity as nat) ==> r is Err,
            r matches Ok(b) ==> b.wf() && b.view() == text@ && b.spec_capacity() == capacity,
    {
        let text_len = text.len();
        if text_len > capacity {
            return Err(ReserveError);
        }
        let len = TextLen::new(text_len)?;
        let (mut bytes, cap) = Self::allocate(capacity)?;
        extend_bytes(&mut bytes, text);
        let heap_len = if len.is_heap() {
            text_len
        } else {
            0
        };
        let r = HeapBuffer {
            alloc: Arc::new(Allocation { header: GrowableHeader { capacity: cap }, heap_len, bytes }),
            len,
        };
        assert(r.view() =~= text@);
        Ok(r)
    }

    /// Copies `text` into a new buffer with room for at least `additional` more bytes, grown at
    /// the amortized rate.
    pub fn with_additional(text: &[u8], additional: usize) -> (r: Result<Self, ReserveError>)
        requires
            valid_utf8(text@),
        ensures
            !spec_capacity_ok(spec_amortized_growth(text@.len(), additional as nat)) ==> r is Err,
            !spec_layout_ok(
                GrowableHeader::spec_size(),
                spec_amortized_growth(text@.len(), additional as nat),
            ) ==> r is Err,
            r matches Ok(b) ==> b.wf() && b.view() == text@ && b.spec_capacity()
                == spec_amortized_growth(text@.len(), additional as nat),
    {
        let capacity = amortized_growth(text.len(), additional);
        Self::with_exact_capacity(text, capacity)
    }

    /// The number of bytes the allocation has room for.
    pub fn capacity(&self) -> (r: usize)
        requires
            self.wf(),
        ensures
            r == self.spec_capacity(),
    {
        self.alloc.header.capacity.as_usize()
    }

    /// Changes the capacity to `new_capacity`, in place when this handle is the only one, and
    /// on a copy otherwise. On failure the buffer is handed back with its text and capacity.
    pub fn realloc(self, new_capacity: usize) -> (r: Result<Self, (Self, ReserveError)>)
        requires
            self.wf(),
            self.spec_len() <= new_capacity,
        ensures
            !spec_capacity_ok(new_capacity as nat) ==> r is Err,
            !spec_layout_ok(GrowableHeader::spec_size(), new_capacity as nat) ==> r is Err,
            r matches Ok(b) ==> b.wf() && b.view() == self.view() && b.spec_capacity()
                == new_capacity,
            r matches Err((b, _)) ==> b.wf() && b.view() == self.view() && b.spec_capacity()
                == self.spec_capacity(),
    {
        let cap = match Capacity::new(new_capacity) {
            Ok(c) => c,
            Err(e) => return Err((self, e)),
        };
        match Self::layout_for(cap) {
            Ok(_) => {},
            Err(e) => return Err((self, e)),
        }
        let len = self.len();
        let HeapBuffer { alloc, len: word } = self;
        match arc_try_unwrap(alloc) {
            Ok(a) => {
                let Allocation { header, heap_len, mut bytes } = a;
                bytes.truncate(len);
                let old_capacity = header.capacity;
                if new_capacity > len {
                    match bytes.try_reserve(new_capacity - len) {
                        Ok(()) => {},
                        Err(_) => {
                            let b = HeapBuffer {
                                alloc: Arc::new(Allocation { header: GrowableHeader { capacity: old_capacity }, heap_len, bytes }),
                                len: word,
                            };
                            assert(b.view() =~= self.view());
                            return Err((b, ReserveError));
                        },
                    }
                }
                let b = HeapBuffer {
                    alloc: Arc::new(Allocation { header: GrowableHeader { capacity: cap }, heap_len, bytes }),
                    len: word,
                };
                assert(b.view() =~= self.view());
                Ok(b)
            },
            Err(alloc) => {
                let me = HeapBuffer { alloc, len: word };
                match Self::with_exact_capacity(me.as_bytes(), new_capacity) {
                    Ok(b) => Ok(b),
                    Err(e) => Err((me, e)),
                }
            },
        }
    }

    /// Appends `src` to the text. The capacity must already have room for it. Works in place when
    /// this handle is the only one, and on a copy otherwise.
    pub fn push_bytes(self, src: &[u8]) -> (r: Result<Self, (Self, ReserveError)>)
        requires
            self.wf(),
            self.spec_len() + src@.len() <= self.spec_capacity(),
            valid_utf8(src@),
        ensures
            r matches Ok(b) ==> b.wf() && b.view() == self.view() + src@ && b.spec_capacity()
                == self.spec_capacity(),
            r matches Err((b, _)) ==> b.wf() && b.view() == self.view() && b.spec_capacity()
                == self.spec_capacity(),
    {
        proof {
            valid_utf8_concat(self.view(), src@);
        }
        let len = self.len();
        let new_len = len + src.len();
        let word = match TextLen::new(new_len) {
            Ok(w) => w,
            Err(_) => {
                assert(false);
                return Err((self, ReserveError));
            },
        };
        let HeapBuffer { alloc, len: old_word } = self;
        match arc_try_unwrap(alloc) {
            Ok(a) => {
                let Allocation { header, heap_len, mut bytes } = a;
                bytes.truncate(len);
                match bytes.try_reserve(src.len()) {
                    Ok(()) => {},
                    Err(_) => {
                        let b = HeapBuffer {
                            alloc: Arc::new(Allocation { header, heap_len, bytes }),
                            len: old_word,
                        };
                        assert(b.view() =~= self.view());
                        return Err((b, ReserveError));
                    },
                }
                extend_bytes(&mut bytes, src);
                let heap_len = if word.is_heap() {
                    new_len
                } else {
                    heap_len
                };
                let b = HeapBuffer { alloc: Arc::new(Allocation { header, heap_len, bytes }), len: word };
                assert(b.view() =~= self.view() + src@);
                Ok(b)
            },
            Err(alloc) => {
                let me = HeapBuffer { alloc, len: old_word };
                let capacity = me.capacity();
                let (mut bytes, cap) = match Self::allocate(capacity) {
                    Ok(p) => p,
                    Err(e) => return Err((me, e)),
                };
                extend_bytes(&mut bytes, me.as_bytes());
                extend_bytes(&mut bytes, src);
                let heap_len = if word.is_heap() {
                    new_len
                } else {
                    0
                };
                let b = HeapBuffer {
                    alloc: Arc::new(Allocation { header: GrowableHeader { capacity: cap }, heap_len, bytes }),
                    len: word,
                };
                assert(b.view() =~= self.view() + src@);
                Ok(b)
            },
        }
    }

    /// Replaces the text with `content`, keeping the capacity. The allocation is reused when this
    /// handle is the only one.
    pub fn replace_content(self, content: Vec<u8>) -> (r: Self)
        requires
            self.wf(),
            content@.len() <= self.spec_capacity(),
            valid_utf8(content@),
        ensures
            r.wf(),
            r.view() == content@,
            r.spec_capacity() == self.spec_capacity(),
    {
        let capacity = self.alloc.header.capacity;
        let new_len = content.len();
        let word = match TextLen::new(new_len) {
            Ok(w) => w,
            Err(_) => {
                assert(false);
                self.len
            },
        };
        let heap_len = if word.is_heap() {
            new_len
        } else {
            0
        };
        self.release();
        let r = HeapBuffer {
            alloc: Arc::new(Allocation { header: GrowableHeader { capacity }, heap_len, bytes: content }),
            len: word,
        };
        assert(r.view() =~= content@);
        r
    }

    /// Turns this buffer into an exact buffer, whose capacity is its length. Reuses the allocation
    /// when this handle is the only one, and copies otherwise. On failure the buffer is handed
    /// back unchanged.
    pub fn into_exact(self) -> (r: Result<HeapBuffer<ExactHeader>, (Self, ReserveError)>)
        requires
            self.wf(),
        ensures
            r matches Ok(b) ==> b.wf() && b.view() == self.view(),
            r matches Err((b, _)) ==> b == self,
    {
        let len = self.len();
        let capacity = match Capacity::new(len) {
            Ok(c) => c,
            Err(e) => return Err((self, e)),
        };
        match HeapBuffer::<ExactHeader>::layout_for(capacity) {
            Ok(_) => {},
            Err(e) => return Err((self, e)),
        }
        let HeapBuffer { alloc, len: word } = self;
        match arc_try_unwrap(alloc) {
            Ok(a) => {
                let Allocation { header, heap_len, mut bytes } = a;
                bytes.truncate(len);
                let b = HeapBuffer {
                    alloc: Arc::new(Allocation { header: ExactHeader {  }, heap_len, bytes }),
                    len: word,
                };
                assert(b.view() =~= self.view());
                Ok(b)
            },
            Err(alloc) => {
                let me = HeapBuffer { alloc, len: word };
                match HeapBuffer::<ExactHeader>::from_utf8_bytes(me.as_bytes()) {
                    Ok(b) => Ok(b),
                    Err(e) => Err((me, e)),
                }
            },
        }
    }

    /// Sets the length of the text to `len`, when neither the old nor the new length is on the
    /// heap: only this handle's length word changes.
    pub fn set_len(&mut self, len: usize)
        requires
            old(self).wf(),
            !old(self).spec_len_on_heap(),
            len <= old(self).spec_len(),
            is_char_boundary(old(self).view(), len as int),
        ensures
            final(self).wf(),
            final(self).view() == old(self).view().subrange(0, len as int),
            final(self).spec_capacity() == old(self).spec_capacity(),
    {
        proof {
            valid_utf8_split(self.view(), len as int);
            assert(self.view().subrange(0, len as int) =~= self.alloc.bytes@.subrange(0, len as int));
        }
        let new_len = TextLen::new(len);
        match new_len {
            Ok(l) => {
                self.len = l;
            },
            Err(_) => {
                assert(false);
            },
        }
        assert(self.view() =~= old(self).view().subrange(0, len as int));
    }

    /// Sets the length of the text to `len` in the allocation itself, when this handle is the only
    /// one. Hands the buffer back unchanged when it is shared.
    pub fn set_len_unique(self, len: usize) -> (r: Result<Self, Self>)
        requires
            self.wf(),
            len <= self.spec_len(),
            is_char_boundary(self.view(), len as int),
        ensures
            r matches Ok(b) ==> b.wf() && b.view() == self.view().subrange(0, len as int)
                && b.spec_capacity() == self.spec_capacity(),
            r matches Err(b) ==> b == self,
    {
        proof {
            valid_utf8_split(self.view(), len as int);
        }
        let HeapBuffer { alloc, len: old_len } = self;
        match arc_try_unwrap(alloc) {
            Ok(mut a) => {
                a.bytes.truncate(len);
                let new_len = match TextLen::new(len) {
                    Ok(l) => l,
                    Err(_) => {
                        assert(false);
                        old_len
                    },
                };
                if new_len.is_heap() {
                    a.heap_len = len;
                }
                let r = HeapBuffer { alloc: Arc::new(a), len: new_len };
                assert(r.view() =~= self.view().subrange(0, len as int));
                Ok(r)
            },
            Err(alloc) => Err(HeapBuffer { alloc, len: old_len }),
        }
    }
}

impl HeapBuffer<ExactHeader> {
    /// Turns this buffer into a growable buffer whose capacity is its length. Reuses the
    /// allocation when this handle is the only one, and copies otherwise. On failure the buffer is
    /// handed back unchanged.
    pub fn into_growable(self) -> (r: Result<HeapBuffer<GrowableHeader>, (Self, ReserveError)>)
        requires
            self.wf(),
        ensures
            !spec_layout_ok(GrowableHeader::spec_size(), self.spec_len()) ==> r is Err,
            r matches Ok(b) ==> b.wf() && b.view() == self.view() && b.spec_capacity()
                == self.spec_len(),
            r matches Err((b, _)) ==> b == self,
    {
        let len = self.len();
        let capacity = match Capacity::new(len) {
            Ok(c) => c,
            Err(e) => return Err((self, e)),
        };
        match HeapBuffer::<GrowableHeader>::layout_for(capacity) {
            Ok(_) => {},
            Err(e) => return Err((self, e)),
        }
        let HeapBuffer { alloc, len: word } = self;
        match arc_try_unwrap(alloc) {
            Ok(a) => {
                let Allocation { header, heap_len, bytes } = a;
                let b = HeapBuffer {
                    alloc: Arc::new(Allocation { header: GrowableHeader { capacity }, heap_len, bytes }),
                    len: word,
                };
                assert(b.view() =~= self.view());
                Ok(b)
            },
            Err(alloc) => {
                let me = HeapBuffer { alloc, len: word };
                match HeapBuffer::<GrowableHeader>::from_utf8_bytes(me.as_bytes()) {
                    Ok(b) => Ok(b),
                    Err(e) => Err((me, e)),
                }
            },
        }
    }
}

/// Appends the bytes of `src` to `v`.
pub fn extend_bytes(v: &mut Vec<u8>, src: &[u8])
    ensures
        final(v)@ == old(v)@ + src@,
{
    let n = src.len();
    let mut i: usize = 0;
    while i < n
        invariant
            n == src@.len(),
            i <= n,
            v@ == old(v)@ + src@.subrange(0, i as int),
        decreases n - i,
    {
        v.push(src[i]);
        i = i + 1;
        assert(v@ =~= old(v)@ + src@.subrange(0, i as int));
    }
    assert(src@.subrange(0, n as int) =~= src@);
}

} // verus!
