//! A buffer that borrows a `&'static str`.
use vstd::prelude::*;
use vstd::string::*;
use vstd::utf8::*;

use super::heap_buffer::internal::{Width, lemma_tagged_word};
use super::last_byte::STATIC_MARKER;
use crate::errors::ReserveError;

verus! {

/// A buffer that borrows a `&'static str`. The length is kept in a word whose most significant
/// byte is [`STATIC_MARKER`].
#[derive(Clone, Copy, Debug)]
pub struct StaticBuffer {
    text: &'static str,
    len: u64,
}

impl StaticBuffer {
    /// The text, as bytes.
    pub open spec fn view(self) -> Seq<u8> {
        self.as_str_spec().spec_bytes()
    }

    /// The borrowed text.
    pub closed spec fn as_str_spec(self) -> &'static str {
        self.text
    }

    /// The length word holds the length of the text under the static marker.
    pub closed spec fn wf(self) -> bool {
        &&& self.text.spec_bytes().len() <= Width::spec_native().spec_low_mask()
        &&& self.len == (self.text.spec_bytes().len() as u64 | Width::spec_native().spec_tag(
            STATIC_MARKER,
        ))
    }

    /// The longest text that a static buffer can hold.
    pub open spec fn spec_max_length() -> nat {
        Width::spec_native().spec_low_mask() as nat
    }

    /// The text of a well-formed buffer is no longer than a static buffer can hold.
    pub proof fn lemma_len(self)
        requires
            self.wf(),
        ensures
            self.view().len() <= Self::spec_max_length(),
            self.view().len() <= usize::MAX,
    {
    }

    /// Borrows `text`. Refused when `text` is longer than `2^56 - 1` bytes (`2^24 - 1` on a 32-bit
    /// target).
    pub fn new(text: &'static str) -> (r: Result<StaticBuffer, ReserveError>)
        ensures
            r is Ok <==> text.spec_bytes().len() <= Self::spec_max_length(),
            r matches Ok(b) ==> b.wf() && b.view() == text.spec_bytes(),
    {
        let text_len = text.as_bytes().len();
        let width = Width::native();
        if text_len as u64 > width.low_mask() {
            return Err(ReserveError);
        }
        let len = (text_len as u64) | width.tag(STATIC_MARKER);
        Ok(StaticBuffer { text, len })
    }

    /// The length of the text.
    pub fn len(&self) -> (r: usize)
        requires
            self.wf(),
        ensures
            r == self.view().len(),
    {
        proof {
            lemma_tagged_word(Width::spec_native(), STATIC_MARKER, self.text.spec_bytes().len() as u64);
        }
        let len = self.len ^ Width::native().tag(STATIC_MARKER);
        len as usize
    }

    /// The most significant byte of the length word: the static marker.
    pub fn last_byte(&self) -> (r: u8)
        requires
            self.wf(),
        ensures
            r == STATIC_MARKER,
    {
        proof {
            lemma_tagged_word(Width::spec_native(), STATIC_MARKER, self.text.spec_bytes().len() as u64);
        }
        Width::native().top_byte(self.len)
    }

    /// The text.
    pub fn as_str(&self) -> (r: &'static str)
        ensures
            r.spec_bytes() == self.view(),
    {
        self.text
    }

    /// Shortens the text to its first `len` bytes.
    pub fn set_len(&mut self, len: usize)
        requires
            old(self).wf(),
            len <= old(self).view().len(),
            is_char_boundary(old(self).view(), len as int),
        ensures
            final(self).wf(),
            final(self).view() == old(self).view().subrange(0, len as int),
    {
        proof {
            lemma_tagged_word(Width::spec_native(), STATIC_MARKER, len as u64);
        }
        let (head, _) = self.text.split_at(len);
        self.text = head;
        self.len = (len as u64) | Width::native().tag(STATIC_MARKER);
    }
}

} // verus!
