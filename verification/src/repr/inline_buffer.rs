//! A buffer that keeps up to `MAX_INLINE_SIZE` bytes of text in place.
use vstd::prelude::*;
use vstd::string::*;
use vstd::utf8::*;

use super::last_byte::{LENGTH_00, MASK_1100_0000};
use crate::MAX_INLINE_SIZE;

verus! {

/// The length that the last byte of an inline buffer encodes.
///
/// A byte below `0b1100_0000` is the last byte of a full buffer. Above, the low bits hold the
/// length, capped at `MAX_INLINE_SIZE`.
pub open spec fn spec_inline_len(last: u8) -> nat {
    if last < MASK_1100_0000 {
        MAX_INLINE_SIZE as nat
    } else if last - MASK_1100_0000 < MAX_INLINE_SIZE {
        (last - MASK_1100_0000) as nat
    } else {
        MAX_INLINE_SIZE as nat
    }
}

/// The last byte of valid UTF-8 text is never `0b11xx_xxxx`.
pub proof fn lemma_utf8_last_byte(bytes: Seq<u8>)
    requires
        valid_utf8(bytes),
        bytes.len() > 0,
    ensures
        bytes.last() < MASK_1100_0000,
{
    valid_utf8_last(bytes);
}

/// `len | 0b1100_0000` is the tag of a length below `MAX_INLINE_SIZE`.
pub proof fn lemma_length_tag(len: u8)
    requires
        len < MAX_INLINE_SIZE,
    ensures
        len | MASK_1100_0000 == MASK_1100_0000 + len,
        spec_inline_len((len | MASK_1100_0000) as u8) == len,
{
    assert(len | 0xC0u8 == 0xC0u8 + len) by (bit_vector)
        requires
            len < 16,
    ;
}

/// The number of bytes an inline buffer stores: room for the largest inline limit, that of a
/// 64-bit target, of which the first `MAX_INLINE_SIZE` are used.
pub const INLINE_STORAGE: usize = 16;

/// A buffer that keeps up to `MAX_INLINE_SIZE` bytes of text in place. Its last byte, at position
/// `MAX_INLINE_SIZE - 1`, is either the length tag `0b1100_0000 | len` or, when the buffer is
/// full, the last byte of the text.
#[derive(Clone, Copy, Debug)]
pub struct InlineBuffer {
    bytes: [u8; INLINE_STORAGE],
}

impl InlineBuffer {
    /// The `MAX_INLINE_SIZE` bytes in use, the tag included.
    pub closed spec fn spec_bytes(self) -> Seq<u8> {
        self.bytes@.subrange(0, MAX_INLINE_SIZE as int)
    }

    /// The last byte.
    pub closed spec fn spec_last_byte(self) -> u8 {
        self.bytes@[MAX_INLINE_SIZE - 1]
    }

    /// The length of the text.
    pub closed spec fn spec_len(self) -> nat {
        spec_inline_len(self.spec_last_byte())
    }

    /// The text, as bytes.
    pub closed spec fn view(self) -> Seq<u8> {
        self.spec_bytes().subrange(0, self.spec_len() as int)
    }

    /// The last byte is a length tag or the end of a full buffer, and the text is valid UTF-8.
    pub closed spec fn wf(self) -> bool {
        &&& self.spec_last_byte() < MASK_1100_0000 + MAX_INLINE_SIZE
        &&& valid_utf8(self.view())
    }

    /// The last byte of a well-formed buffer is below every other marker.
    pub proof fn lemma_last_byte(self)
        requires
            self.wf(),
        ensures
            self.spec_last_byte() < MASK_1100_0000 + MAX_INLINE_SIZE,
            self.spec_len() <= MAX_INLINE_SIZE,
            self.view().len() == self.spec_len(),
            valid_utf8(self.view()),
            self.view() == self.spec_bytes().subrange(0, self.view().len() as int),
            self.spec_bytes().len() == MAX_INLINE_SIZE,
            self.spec_len() < MAX_INLINE_SIZE ==> self.spec_last_byte() == MASK_1100_0000
                + self.spec_len(),
            self.spec_len() == MAX_INLINE_SIZE ==> self.spec_last_byte() == self.view().last(),
    {
        assert(MAX_INLINE_SIZE <= INLINE_STORAGE);
    }

    /// Copies `text` into a new buffer.
    pub fn new(text: &str) -> (r: InlineBuffer)
        requires
            text.spec_bytes().len() <= MAX_INLINE_SIZE,
        ensures
            r.wf(),
            r.view() == text.spec_bytes(),
            text.spec_bytes().len() < MAX_INLINE_SIZE ==> r.spec_last_byte() == MASK_1100_0000
                + text.spec_bytes().len(),
            text.spec_bytes().len() == MAX_INLINE_SIZE ==> r.spec_last_byte()
                == text.spec_bytes().last(),
    {
        let src = text.as_bytes();
        proof {
            encode_utf8_valid_utf8(text@);
        }
        let r = InlineBuffer::from_utf8_bytes(src);
        r
    }

    /// Copies bytes of valid UTF-8 into a new buffer.
    pub fn from_utf8_bytes(src: &[u8]) -> (r: InlineBuffer)
        requires
            src@.len() <= MAX_INLINE_SIZE,
            valid_utf8(src@),
        ensures
            r.wf(),
            r.view() == src@,
            src@.len() < MAX_INLINE_SIZE ==> r.spec_last_byte() == MASK_1100_0000 + src@.len(),
            src@.len() == MAX_INLINE_SIZE ==> r.spec_last_byte() == src@.last(),
    {
        let len = src.len();
        let mut bytes = [0u8; INLINE_STORAGE];
        let mut i: usize = 0;
        while i < len
            invariant
                len == src@.len(),
                len <= MAX_INLINE_SIZE,
                i <= len,
                bytes@.len() == INLINE_STORAGE,
                MAX_INLINE_SIZE <= INLINE_STORAGE,
                forall|j: int| 0 <= j < i ==> bytes@[j] == src@[j],
            decreases len - i,
        {
            bytes[i] = src[i];
            i = i + 1;
        }
        if len < MAX_INLINE_SIZE {
            proof {
                lemma_length_tag(len as u8);
            }
            bytes[MAX_INLINE_SIZE - 1] = (len as u8) | MASK_1100_0000;
        } else {
            proof {
                lemma_utf8_last_byte(src@);
            }
        }
        let r = InlineBuffer { bytes };
        assert(r.view() =~= src@);
        assert(len == MAX_INLINE_SIZE ==> r.spec_last_byte() == src@[len - 1]);
        r
    }

    /// A buffer that holds the empty text.
    pub fn empty() -> (r: InlineBuffer)
        ensures
            r.wf(),
            r.view() == Seq::<u8>::empty(),
            r.spec_last_byte() == LENGTH_00,
    {
        let mut bytes = [0u8; INLINE_STORAGE];
        assert(MAX_INLINE_SIZE <= INLINE_STORAGE);
        bytes[MAX_INLINE_SIZE - 1] = LENGTH_00;
        let r = InlineBuffer { bytes };
        assert(r.view() =~= Seq::<u8>::empty());
        r
    }

    /// The length of the text.
    pub fn len(&self) -> (r: usize)
        requires
            self.wf(),
        ensures
            r == self.spec_len(),
            r == self.view().len(),
    {
        let last = self.bytes[MAX_INLINE_SIZE - 1];
        if last < MASK_1100_0000 {
            MAX_INLINE_SIZE
        } else {
            let n = (last - MASK_1100_0000) as usize;
            if MAX_INLINE_SIZE < n {
                MAX_INLINE_SIZE
            } else {
                n
            }
        }
    }

    /// The text, as bytes.
    pub fn as_bytes(&self) -> (r: &[u8])
        requires
            self.wf(),
        ensures
            r@ == self.view(),
    {
        let len = self.len();
        let r = vstd::slice::slice_subrange(self.bytes.as_slice(), 0, len);
        assert(r@ =~= self.view());
        r
    }

    /// The last byte.
    pub fn last_byte(&self) -> (r: u8)
        ensures
            r == self.spec_last_byte(),
    {
        self.bytes[MAX_INLINE_SIZE - 1]
    }

    /// The stored byte at `i`.
    pub fn byte_at(&self, i: usize) -> (r: u8)
        requires
            i < MAX_INLINE_SIZE,
        ensures
            r == self.spec_bytes()[i as int],
    {
        self.bytes[i]
    }

    /// Copies `src` into the buffer at `offset`. The tag may be overwritten: call
    /// [`InlineBuffer::set_len`] afterwards.
    pub fn write_at(&mut self, offset: usize, src: &[u8])
        requires
            offset + src@.len() <= MAX_INLINE_SIZE,
        ensures
            final(self).spec_bytes() == old(self).spec_bytes().subrange(0, offset as int) + src@
                + old(self).spec_bytes().subrange(
                offset + src@.len(),
                MAX_INLINE_SIZE as int,
            ),
    {
        let n = src.len();
        let mut i: usize = 0;
        while i < n
            invariant
                n == src@.len(),
                offset + n <= MAX_INLINE_SIZE,
                i <= n,
                self.bytes@.len() == INLINE_STORAGE,
                MAX_INLINE_SIZE <= INLINE_STORAGE,
                forall|j: int| 0 <= j < offset ==> self.bytes@[j] == old(self).bytes@[j],
                forall|j: int| 0 <= j < i ==> self.bytes@[offset + j] == src@[j],
                forall|j: int|
                    offset + n <= j < MAX_INLINE_SIZE ==> self.bytes@[j] == old(self).bytes@[j],
            decreases n - i,
        {
            self.bytes[offset + i] = src[i];
            i = i + 1;
        }
        assert(self.spec_bytes() =~= old(self).spec_bytes().subrange(0, offset as int) + src@
            + old(self).spec_bytes().subrange(offset + src@.len(), MAX_INLINE_SIZE as int));
    }

    /// Sets the length of the text to `len`. The first `len` stored bytes become the text.
    pub fn set_len(&mut self, len: usize)
        requires
            len <= MAX_INLINE_SIZE,
            valid_utf8(old(self).spec_bytes().subrange(0, len as int)),
        ensures
            final(self).wf(),
            final(self).view() == old(self).spec_bytes().subrange(0, len as int),
            len < MAX_INLINE_SIZE ==> final(self).spec_bytes().subrange(0, len as int)
                == old(self).spec_bytes().subrange(0, len as int),
    {
        if len < MAX_INLINE_SIZE {
            proof {
                lemma_length_tag(len as u8);
            }
            self.bytes[MAX_INLINE_SIZE - 1] = (len as u8) | MASK_1100_0000;
            assert(self.view() =~= old(self).spec_bytes().subrange(0, len as int));
        } else {
            proof {
                assert(self.spec_bytes().subrange(0, len as int) =~= self.spec_bytes());
                lemma_utf8_last_byte(self.spec_bytes());
            }
            assert(self.view() =~= old(self).spec_bytes().subrange(0, len as int));
        }
    }
}

} // verus!
