//! The mutable string.
use vstd::prelude::*;
use vstd::string::*;
use vstd::utf8::*;

use crate::case::{
    ascii_map_fn, spec_case_text, spec_has_change, spec_keeps_ascii, spec_sigma_path, CaseMapping,
};
use crate::repr::heap_buffer::extend_bytes;
use crate::errors::{FromUtf16Error, FromUtf16ErrorKind, ReserveError};
use crate::std_glue::str_from_utf8;
use crate::utf16::{
    decode_utf16, decode_utf16_bytes, decode_utf16_bytes_lossy, decode_utf16_lossy, replacement_char,
    spec_decode_utf16, spec_decode_utf16_bytes_lossy, spec_decode_utf16_lossy, spec_units,
};
use crate::lean_str::LeanStr;
use crate::repr::{spec_heap_ok, spec_retained, MutableRepr, Repr};
use crate::repr::heap_buffer::internal::Width;
use crate::repr::heap_buffer::{spec_amortized_growth, GrowableHeader};
use crate::repr::static_buffer::StaticBuffer;
use crate::MAX_INLINE_SIZE;

verus! {

/// A compact, clone-on-write string.
///
/// A text of up to `MAX_INLINE_SIZE` bytes is kept inline, a `&'static str` is borrowed, and a
/// longer text lives in a reference-counted heap buffer that clones share until one of them is
/// changed.
#[derive(Debug)]
pub struct LeanString(MutableRepr);

impl View for LeanString {
    type V = Seq<u8>;

    /// The text, as UTF-8 bytes.
    closed spec fn view(&self) -> Seq<u8> {
        self.0.view()
    }
}

impl LeanString {
    #[verifier::type_invariant]
    closed spec fn inv(self) -> bool {
        self.0.wf()
    }

    /// True when the text is in a heap buffer.
    pub closed spec fn spec_is_heap(&self) -> bool {
        self.0 is Heap
    }

    /// True when the text is borrowed from a `&'static str`.
    pub closed spec fn spec_is_static(&self) -> bool {
        self.0 is Static
    }

    /// The number of bytes the string has room for without reallocating.
    pub closed spec fn spec_capacity(&self) -> nat {
        self.0.spec_capacity()
    }

    /// The representation.
    pub closed spec fn spec_repr(&self) -> MutableRepr {
        self.0
    }

    /// Wraps a representation.
    pub fn from_repr(repr: MutableRepr) -> (r: LeanString)
        requires
            repr.wf(),
        ensures
            r@ == repr.view(),
            r.spec_repr() == repr,
            r.spec_is_heap() == repr is Heap,
            r.spec_is_static() == repr is Static,
            r.spec_capacity() == repr.spec_capacity(),
    {
        LeanString(repr)
    }

    /// The representation.
    pub fn into_repr(self) -> (r: MutableRepr)
        ensures
            r.wf(),
            r.view() == self@,
            r == self.spec_repr(),
    {
        proof {
            use_type_invariant(&self);
        }
        self.0
    }

    /// The empty string.
    pub fn new() -> (r: LeanString)
        ensures
            r@ == Seq::<u8>::empty(),
            !r.spec_is_heap(),
            !r.spec_is_static(),
    {
        LeanString(Repr::new())
    }

    /// A copy of `text`: inline when it has at most `MAX_INLINE_SIZE` bytes, and in a new heap
    /// buffer otherwise.
    pub fn try_from_str(text: &str) -> (r: Result<LeanString, ReserveError>)
        ensures
            r matches Ok(s) ==> s@ == text.spec_bytes(),
            r matches Ok(s) ==> (s.spec_is_heap() <==> text.spec_bytes().len() > MAX_INLINE_SIZE)
                && !s.spec_is_static(),
            text.spec_bytes().len() <= MAX_INLINE_SIZE ==> r is Ok,
            text.spec_bytes().len() > MAX_INLINE_SIZE && !spec_heap_ok::<GrowableHeader>(
                text.spec_bytes().len(),
            ) ==> r is Err,
    {
        match Repr::from_str(text) {
            Ok(repr) => Ok(LeanString(repr)),
            Err(e) => Err(e),
        }
    }

    /// The string made of the single character `ch`, kept inline.
    pub fn from_char(ch: char) -> (r: LeanString)
        ensures
            r@ == encode_scalar(ch as u32),
            decode_utf8(r@) == seq![ch],
            !r.spec_is_heap(),
    {
        LeanString(Repr::from_char(ch))
    }

    /// The string `"true"` or `"false"`, kept inline.
    pub fn from_bool(b: bool) -> (r: LeanString)
        ensures
            b ==> r@ == "true".spec_bytes(),
            !b ==> r@ == "false".spec_bytes(),
            !r.spec_is_heap(),
    {
        LeanString(Repr::from_bool(b))
    }

    /// The string of `text`: copied inline when it has at most `MAX_INLINE_SIZE` bytes, and
    /// borrowed otherwise, without allocating. Refused when `text` is longer than a static buffer
    /// can hold.
    pub fn try_from_static_str(text: &'static str) -> (r: Result<LeanString, ReserveError>)
        ensures
            r matches Ok(s) ==> s@ == text.spec_bytes() && !s.spec_is_heap() && (s.spec_is_static()
                <==> text.spec_bytes().len() > MAX_INLINE_SIZE),
            r is Ok <==> text.spec_bytes().len() <= StaticBuffer::spec_max_length(),
    {
        proof {
            assert(MAX_INLINE_SIZE <= StaticBuffer::spec_max_length());
        }
        match Repr::from_static_str(text) {
            Ok(repr) => Ok(LeanString(repr)),
            Err(e) => Err(e),
        }
    }

    /// An empty string with room for `capacity` bytes: inline when that fits, and in a new heap
    /// buffer otherwise.
    pub fn try_with_capacity(capacity: usize) -> (r: Result<LeanString, ReserveError>)
        ensures
            r matches Ok(s) ==> s@ == Seq::<u8>::empty() && (s.spec_is_heap() <==> capacity
                > MAX_INLINE_SIZE) && s.spec_capacity() == if capacity > MAX_INLINE_SIZE {
                capacity as nat
            } else {
                MAX_INLINE_SIZE as nat
            },
            capacity <= MAX_INLINE_SIZE ==> r is Ok,
            capacity > MAX_INLINE_SIZE && !spec_heap_ok::<GrowableHeader>(capacity as nat) ==> r is Err,
    {
        match Repr::with_capacity(capacity) {
            Ok(repr) => Ok(LeanString(repr)),
            Err(e) => Err(e),
        }
    }

    /// The text of `bytes` when they are valid UTF-8, copied inline or into a new heap buffer;
    /// the outer error when they are not, the inner one when the buffer could not be had.
    pub fn try_from_utf8(bytes: &[u8]) -> (r: Result<
        Result<LeanString, ReserveError>,
        core::str::Utf8Error,
    >)
        ensures
            r is Ok <==> valid_utf8(bytes@),
            r matches Ok(Ok(s)) ==> s@ == bytes@,
            bytes@.len() <= MAX_INLINE_SIZE ==> (r matches Ok(inner) ==> inner is Ok),
            bytes@.len() > MAX_INLINE_SIZE && !spec_heap_ok::<GrowableHeader>(
                bytes@.len(),
            ) ==> (r matches Ok(inner) ==> inner is Err),
            bytes@.len() > MAX_INLINE_SIZE ==> (r matches Ok(inner) ==> (inner is Ok
                <==> spec_heap_ok::<GrowableHeader>(bytes@.len()))),
    {
        match str_from_utf8(bytes) {
            Ok(_) => {
                let mut content: Vec<u8> = Vec::new();
                extend_bytes(&mut content, bytes);
                proof {
                    assert(Seq::<u8>::empty() + bytes@ =~= bytes@);
                }
                Ok(Self::from_decoded(content))
            },
            Err(e) => Err(e),
        }
    }

    /// The string of decoded UTF-8 bytes, moved into a buffer of their own when they do not fit
    /// inline.
    fn from_decoded(bytes: Vec<u8>) -> (r: Result<LeanString, ReserveError>)
        requires
            valid_utf8(bytes@),
        ensures
            r matches Ok(s) ==> s@ == bytes@,
            bytes@.len() <= MAX_INLINE_SIZE ==> r is Ok,
            bytes@.len() > MAX_INLINE_SIZE ==> (r is Ok <==> spec_heap_ok::<GrowableHeader>(bytes@.len())),
    {
        match Repr::new_with(bytes) {
            Ok(repr) => Ok(LeanString(repr)),
            Err(e) => Err(e),
        }
    }

    /// The text of UTF-16 code units; the outer error at a surrogate that is not part of a pair,
    /// the inner one when the buffer could not be had.
    pub fn try_from_utf16(units: &[u16]) -> (r: Result<
        Result<LeanString, ReserveError>,
        FromUtf16Error,
    >)
        ensures
            r is Err <==> spec_decode_utf16(units@) is None,
            r matches Err(e) ==> e.kind == FromUtf16ErrorKind::LoneSurrogate,
            r matches Ok(Ok(s)) ==> s@ == encode_utf8(spec_decode_utf16(units@)->0),
            encode_utf8(spec_decode_utf16(units@)->0).len() <= MAX_INLINE_SIZE ==> (r matches Ok(
                inner,
            ) ==> inner is Ok),
            encode_utf8(spec_decode_utf16(units@)->0).len() > MAX_INLINE_SIZE ==> (r matches Ok(
                inner,
            ) ==> (inner is Ok <==> spec_heap_ok::<GrowableHeader>(
                encode_utf8(spec_decode_utf16(units@)->0).len(),
            ))),
    {
        match decode_utf16(units) {
            Ok(bytes) => {
                proof {
                    encode_utf8_valid_utf8(spec_decode_utf16(units@)->0);
                }
                Ok(Self::from_decoded(bytes))
            },
            Err(e) => Err(e),
        }
    }

    /// The text of UTF-16 code units, each surrogate that is not part of a pair replaced by the
    /// replacement character.
    pub fn try_from_utf16_lossy(units: &[u16]) -> (r: Result<LeanString, ReserveError>)
        ensures
            r matches Ok(s) ==> s@ == encode_utf8(spec_decode_utf16_lossy(units@)),
            encode_utf8(spec_decode_utf16_lossy(units@)).len() <= MAX_INLINE_SIZE ==> r is Ok,
            encode_utf8(spec_decode_utf16_lossy(units@)).len() > MAX_INLINE_SIZE ==> (r is Ok
                <==> spec_heap_ok::<GrowableHeader>(encode_utf8(spec_decode_utf16_lossy(units@)).len())),
    {
        let bytes = decode_utf16_lossy(units);
        proof {
            encode_utf8_valid_utf8(spec_decode_utf16_lossy(units@));
        }
        Self::from_decoded(bytes)
    }

    /// The text of UTF-16 bytes in little-endian order; the outer error for an odd number of bytes
    /// or at a surrogate that is not part of a pair, the inner one when the buffer could not be
    /// had.
    pub fn try_from_utf16le(bytes: &[u8]) -> (r: Result<
        Result<LeanString, ReserveError>,
        FromUtf16Error,
    >)
        ensures
            bytes@.len() % 2 == 1 ==> (r matches Err(e) && e.kind == FromUtf16ErrorKind::OddBytes),
            bytes@.len() % 2 == 0 ==> (r is Err <==> spec_decode_utf16(
                spec_units(bytes@, true),
            ) is None),
            bytes@.len() % 2 == 0 ==> (r matches Err(e) ==> e.kind
                == FromUtf16ErrorKind::LoneSurrogate),
            r matches Ok(Ok(s)) ==> s@ == encode_utf8(
                spec_decode_utf16(spec_units(bytes@, true))->0,
            ),
            encode_utf8(spec_decode_utf16(spec_units(bytes@, true))->0).len()
                <= MAX_INLINE_SIZE ==> (r matches Ok(inner) ==> inner is Ok),
            encode_utf8(spec_decode_utf16(spec_units(bytes@, true))->0).len()
                > MAX_INLINE_SIZE ==> (r matches Ok(inner) ==> (inner is Ok <==> spec_heap_ok::<
                GrowableHeader,
            >(encode_utf8(spec_decode_utf16(spec_units(bytes@, true))->0).len()))),
    {
        match decode_utf16_bytes(bytes, true) {
            Ok(text) => {
                proof {
                    encode_utf8_valid_utf8(spec_decode_utf16(spec_units(bytes@, true))->0);
                }
                Ok(Self::from_decoded(text))
            },
            Err(e) => Err(e),
        }
    }

    /// The text of UTF-16 bytes in little-endian order, each surrogate that is not part of a
    /// pair, and a last odd byte, replaced by the replacement character.
    pub fn try_from_utf16le_lossy(bytes: &[u8]) -> (r: Result<LeanString, ReserveError>)
        ensures
            r matches Ok(s) ==> s@ == encode_utf8(spec_decode_utf16_bytes_lossy(bytes@, true)),
            r is Ok <==> encode_utf8(spec_decode_utf16_bytes_lossy(bytes@, true)).len()
                <= MAX_INLINE_SIZE || spec_heap_ok::<GrowableHeader>(
                encode_utf8(spec_decode_utf16_bytes_lossy(bytes@, true)).len(),
            ),
    {
        let text = decode_utf16_bytes_lossy(bytes, true);
        proof {
            encode_utf8_valid_utf8(spec_decode_utf16_lossy(spec_units(bytes@, true)));
            encode_utf8_valid_utf8(
                spec_decode_utf16_lossy(spec_units(bytes@, true)).push(replacement_char()),
            );
        }
        Self::from_decoded(text)
    }

    /// The text of UTF-16 bytes in big-endian order; the outer error for an odd number of bytes
    /// or at a surrogate that is not part of a pair, the inner one when the buffer could not be
    /// had.
    pub fn try_from_utf16be(bytes: &[u8]) -> (r: Result<
        Result<LeanString, ReserveError>,
        FromUtf16Error,
    >)
        ensures
            bytes@.len() % 2 == 1 ==> (r matches Err(e) && e.kind == FromUtf16ErrorKind::OddBytes),
            bytes@.len() % 2 == 0 ==> (r is Err <==> spec_decode_utf16(
                spec_units(bytes@, false),
            ) is None),
            bytes@.len() % 2 == 0 ==> (r matches Err(e) ==> e.kind
                == FromUtf16ErrorKind::LoneSurrogate),
            r matches Ok(Ok(s)) ==> s@ == encode_utf8(
                spec_decode_utf16(spec_units(bytes@, false))->0,
            ),
            encode_utf8(spec_decode_utf16(spec_units(bytes@, false))->0).len()
                <= MAX_INLINE_SIZE ==> (r matches Ok(inner) ==> inner is Ok),
            encode_utf8(spec_decode_utf16(spec_units(bytes@, false))->0).len()
                > MAX_INLINE_SIZE ==> (r matches Ok(inner) ==> (inner is Ok <==> spec_heap_ok::<
                GrowableHeader,
            >(encode_utf8(spec_decode_utf16(spec_units(bytes@, false))->0).len()))),
    {
        match decode_utf16_bytes(bytes, false) {
            Ok(text) => {
                proof {
                    encode_utf8_valid_utf8(spec_decode_utf16(spec_units(bytes@, false))->0);
                }
                Ok(Self::from_decoded(text))
            },
            Err(e) => Err(e),
        }
    }

    /// The text of UTF-16 bytes in big-endian order, each surrogate that is not part of a
    /// pair, and a last odd byte, replaced by the replacement character.
    pub fn try_from_utf16be_lossy(bytes: &[u8]) -> (r: Result<LeanString, ReserveError>)
        ensures
            r matches Ok(s) ==> s@ == encode_utf8(spec_decode_utf16_bytes_lossy(bytes@, false)),
            r is Ok <==> encode_utf8(spec_decode_utf16_bytes_lossy(bytes@, false)).len()
                <= MAX_INLINE_SIZE || spec_heap_ok::<GrowableHeader>(
                encode_utf8(spec_decode_utf16_bytes_lossy(bytes@, false)).len(),
            ),
    {
        let text = decode_utf16_bytes_lossy(bytes, false);
        proof {
            encode_utf8_valid_utf8(spec_decode_utf16_lossy(spec_units(bytes@, false)));
            encode_utf8_valid_utf8(
                spec_decode_utf16_lossy(spec_units(bytes@, false)).push(replacement_char()),
            );
        }
        Self::from_decoded(text)
    }

    /// The length of the text in bytes.
    pub fn len(&self) -> (r: usize)
        ensures
            r == self@.len(),
    {
        proof {
            use_type_invariant(self);
        }
        self.0.len()
    }

    /// True when the text is empty.
    pub fn is_empty(&self) -> (r: bool)
        ensures
            r == (self@.len() == 0),
    {
        proof {
            use_type_invariant(self);
        }
        self.0.is_empty()
    }

    /// The text.
    pub fn as_str(&self) -> (r: &str)
        ensures
            r.spec_bytes() == self@,
    {
        proof {
            use_type_invariant(self);
        }
        self.0.as_str()
    }

    /// The text, as bytes.
    pub fn as_bytes(&self) -> (r: &[u8])
        ensures
            r@ == self@,
    {
        proof {
            use_type_invariant(self);
        }
        self.0.as_bytes()
    }

    /// The number of bytes the string has room for without reallocating.
    pub fn capacity(&self) -> (r: usize)
        ensures
            r == self.spec_capacity(),
    {
        proof {
            use_type_invariant(self);
        }
        self.0.capacity()
    }

    /// True when the text is in a heap buffer.
    pub fn is_heap_allocated(&self) -> (r: bool)
        ensures
            r == self.spec_is_heap(),
    {
        proof {
            use_type_invariant(self);
        }
        self.0.is_heap_buffer()
    }

    /// The borrowed `&'static str`, when the text is one.
    pub fn as_static_str(&self) -> (r: Option<&'static str>)
        ensures
            r is Some <==> self.spec_is_static(),
            r matches Some(s) ==> s.spec_bytes() == self@,
    {
        match &self.0 {
            Repr::Static(b) => Some(b.as_str()),
            _ => None,
        }
    }

    /// A copy that shares the heap buffer, if there is one.
    pub fn clone_shallow(&self) -> (r: LeanString)
        ensures
            r@ == self@,
            r.spec_repr() == self.spec_repr(),
            r.spec_is_heap() == self.spec_is_heap(),
            r.spec_is_static() == self.spec_is_static(),
    {
        proof {
            use_type_invariant(self);
        }
        LeanString(self.0.make_shallow_clone())
    }

    /// Makes room for at least `additional` more bytes. Does nothing when `additional` is zero;
    /// otherwise a borrowed or shared text is copied into a buffer of its own.
    pub fn try_reserve(&mut self, additional: usize) -> (r: Result<(), ReserveError>)
        ensures
            final(self)@ == old(self)@,
            additional == 0 ==> (r is Ok && final(self).spec_repr() == old(self).spec_repr()),
            old(self)@.len() + additional > usize::MAX ==> r is Err,
            r is Ok ==> final(self).spec_capacity() >= old(self)@.len() + additional,
            r is Ok && additional > 0 ==> !final(self).spec_is_static(),
            r is Err ==> final(self).spec_capacity() == old(self).spec_capacity(),
            !old(self).spec_is_heap() && !old(self).spec_is_static() && old(self)@.len()
                + additional <= MAX_INLINE_SIZE ==> r is Ok && final(self).spec_repr() == old(self).spec_repr(),
            !old(self).spec_is_heap() && additional > 0 && old(self)@.len() + additional
                > MAX_INLINE_SIZE && !spec_heap_ok::<GrowableHeader>(
                spec_amortized_growth(old(self)@.len(), additional as nat),
            ) ==> r is Err,
    {
        proof {
            use_type_invariant(&*self);
            self.0.lemma_capacity();
        }
        if additional == 0 {
            return Ok(());
        }
        let mut repr = Repr::new();
        std::mem::swap(&mut self.0, &mut repr);
        let r = repr.reserve(additional);
        self.0 = repr;
        r
    }

    /// Appends `string`.
    pub fn try_push_str(&mut self, string: &str) -> (r: Result<(), ReserveError>)
        ensures
            r is Ok ==> final(self)@ == old(self)@ + string.spec_bytes(),
            r is Err ==> final(self)@ == old(self)@,
            old(self)@.len() + string.spec_bytes().len() > usize::MAX ==> r is Err,
            string.spec_bytes().len() == 0 ==> (r is Ok && final(self).spec_repr() == old(self).spec_repr()),
            !old(self).spec_is_heap() && !old(self).spec_is_static() && old(self)@.len()
                + string.spec_bytes().len() <= MAX_INLINE_SIZE ==> (r is Ok && !final(self).spec_is_heap()),
            r is Ok && old(self).spec_is_heap() ==> final(self).spec_is_heap() && (final(self).spec_capacity()
                == old(self).spec_capacity() || final(self).spec_capacity()
                == spec_amortized_growth(old(self)@.len(), string.spec_bytes().len())),
            r is Ok && old(self).spec_is_heap() && old(self)@.len() + string.spec_bytes().len()
                > old(self).spec_capacity() ==> final(self).spec_capacity() == spec_amortized_growth(
                old(self)@.len(),
                string.spec_bytes().len(),
            ),
            r is Ok && !old(self).spec_is_heap() && string.spec_bytes().len() > 0 && old(self)@.len()
                + string.spec_bytes().len() > MAX_INLINE_SIZE ==> final(self).spec_is_heap()
                && final(self).spec_capacity() == spec_amortized_growth(
                old(self)@.len(),
                string.spec_bytes().len(),
            ),
            old(self).spec_is_static() && old(self)@.len() + string.spec_bytes().len()
                <= MAX_INLINE_SIZE ==> (r is Ok && !final(self).spec_is_heap()),
            r is Err ==> old(self)@.len() + string.spec_bytes().len() > usize::MAX
                || old(self).spec_is_heap() || old(self)@.len() + string.spec_bytes().len()
                > MAX_INLINE_SIZE,
    {
        proof {
            use_type_invariant(&*self);
        }
        let mut repr = Repr::new();
        std::mem::swap(&mut self.0, &mut repr);
        let r = repr.push_str(string);
        self.0 = repr;
        r
    }

    /// Appends the character `ch`.
    pub fn try_push(&mut self, ch: char) -> (r: Result<(), ReserveError>)
        ensures
            r is Ok ==> final(self)@ == old(self)@ + encode_scalar(ch as u32),
            r is Ok ==> decode_utf8(final(self)@) == decode_utf8(old(self)@).push(ch),
            r is Err ==> final(self)@ == old(self)@,
            !old(self).spec_is_heap() && !old(self).spec_is_static() && old(self)@.len()
                + encode_scalar(ch as u32).len() <= MAX_INLINE_SIZE ==> (r is Ok
                && !final(self).spec_is_heap()),
            old(self).spec_is_static() && old(self)@.len() + encode_scalar(ch as u32).len()
                <= MAX_INLINE_SIZE ==> (r is Ok && !final(self).spec_is_heap()),
            r is Err ==> old(self).spec_is_heap() || old(self)@.len() + encode_scalar(
                ch as u32,
            ).len() > MAX_INLINE_SIZE,
    {
        proof {
            use_type_invariant(&*self);
            self.0.lemma_capacity();
            crate::chars::lemma_encode_utf8_single(ch);
            crate::chars::lemma_encode_utf8_push(decode_utf8(self@), ch);
            decode_utf8_encode_utf8(self@);
            encode_utf8_decode_utf8(decode_utf8(self@).push(ch));
        }
        let (buf, n) = crate::chars::encode_char(ch);
        let bytes = vstd::slice::slice_subrange(buf.as_slice(), 0, n);
        let text = match crate::std_glue::str_from_utf8(bytes) {
            Ok(t) => t,
            Err(_) => {
                assert(false);
                ""
            },
        };
        self.try_push_str(text)
    }

    /// Removes the last character and returns it, or `None` when the string is empty.
    pub fn try_pop(&mut self) -> (r: Result<Option<char>, ReserveError>)
        ensures
            old(self)@.len() == 0 ==> r == Ok::<Option<char>, ReserveError>(None),
            r matches Ok(None) ==> old(self)@.len() == 0 && final(self)@ == old(self)@,
            r matches Ok(Some(c)) ==> old(self)@ == final(self)@ + encode_scalar(c as u32)
                && decode_utf8(old(self)@) == decode_utf8(final(self)@).push(c),
            r is Err ==> final(self)@ == old(self)@,
            old(self)@.len() <= Width::spec_native().spec_max_len() ==> r is Ok,
    {
        proof {
            use_type_invariant(&*self);
            self.0.lemma_len_on_heap();
        }
        let mut repr = Repr::new();
        std::mem::swap(&mut self.0, &mut repr);
        let r = repr.pop();
        self.0 = repr;
        r
    }

    /// Shortens the text to its first `new_len` bytes; does nothing when `new_len` is not less
    /// than the length. `new_len` must then be a character boundary.
    pub fn try_truncate(&mut self, new_len: usize) -> (r: Result<(), ReserveError>)
        requires
            new_len >= old(self)@.len() || is_char_boundary(old(self)@, new_len as int),
        ensures
            r is Ok ==> final(self)@ == if new_len >= old(self)@.len() {
                old(self)@
            } else {
                old(self)@.subrange(0, new_len as int)
            },
            r is Err ==> final(self)@ == old(self)@,
            old(self)@.len() <= Width::spec_native().spec_max_len() ==> r is Ok,
    {
        proof {
            use_type_invariant(&*self);
            self.0.lemma_len_on_heap();
        }
        let mut repr = Repr::new();
        std::mem::swap(&mut self.0, &mut repr);
        let r = repr.truncate(new_len);
        self.0 = repr;
        r
    }

    /// Removes the character that starts at byte `idx` and returns it. `idx` must be a character
    /// boundary before the end of the text.
    pub fn try_remove(&mut self, idx: usize) -> (r: Result<char, ReserveError>)
        requires
            idx < old(self)@.len(),
            is_char_boundary(old(self)@, idx as int),
        ensures
            r matches Ok(c) ==> old(self)@.subrange(idx as int, idx + encode_scalar(c as u32).len())
                == encode_scalar(c as u32) && final(self)@ == old(self)@.subrange(0, idx as int)
                + old(self)@.subrange(idx + encode_scalar(c as u32).len(), old(self)@.len() as int),
            r matches Ok(c) ==> decode_utf8(old(self)@) == decode_utf8(
                old(self)@.subrange(0, idx as int),
            ) + seq![c] + decode_utf8(
                old(self)@.subrange(idx + encode_scalar(c as u32).len(), old(self)@.len() as int),
            ),
            r is Err ==> final(self)@ == old(self)@,
            !old(self).spec_is_heap() && !old(self).spec_is_static() ==> r is Ok,
            old(self).spec_is_static() && old(self)@.len() <= MAX_INLINE_SIZE ==> r is Ok,
            r is Err ==> old(self).spec_is_heap() || (old(self).spec_is_static() && old(self)@.len()
                > MAX_INLINE_SIZE),
    {
        proof {
            use_type_invariant(&*self);
        }
        let mut repr = Repr::new();
        std::mem::swap(&mut self.0, &mut repr);
        let r = repr.remove(idx);
        self.0 = repr;
        r
    }

    /// Inserts `string` at byte `idx`, which must be a character boundary. Inserting the empty
    /// string only checks the index.
    pub fn try_insert_str(&mut self, idx: usize, string: &str) -> (r: Result<(), ReserveError>)
        requires
            idx <= old(self)@.len(),
            is_char_boundary(old(self)@, idx as int),
        ensures
            r is Ok ==> final(self)@ == old(self)@.subrange(0, idx as int) + string.spec_bytes()
                + old(self)@.subrange(idx as int, old(self)@.len() as int),
            r is Err ==> final(self)@ == old(self)@,
            string.spec_bytes().len() == 0 ==> (r is Ok && final(self).spec_repr() == old(self).spec_repr()),
            old(self)@.len() + string.spec_bytes().len() > usize::MAX ==> r is Err,
            !old(self).spec_is_heap() && !old(self).spec_is_static() && old(self)@.len()
                + string.spec_bytes().len() <= MAX_INLINE_SIZE ==> r is Ok,
    {
        proof {
            use_type_invariant(&*self);
            self.0.lemma_capacity();
        }
        if string.as_bytes().len() == 0 {
            proof {
                assert(self@ =~= self@.subrange(0, idx as int) + string.spec_bytes()
                    + self@.subrange(idx as int, self@.len() as int));
            }
            return Ok(());
        }
        let mut repr = Repr::new();
        std::mem::swap(&mut self.0, &mut repr);
        let r = repr.insert_str(idx, string);
        self.0 = repr;
        r
    }

    /// Inserts the character `ch` at byte `idx`, which must be a character boundary.
    pub fn try_insert(&mut self, idx: usize, ch: char) -> (r: Result<(), ReserveError>)
        requires
            idx <= old(self)@.len(),
            is_char_boundary(old(self)@, idx as int),
        ensures
            r is Ok ==> final(self)@ == old(self)@.subrange(0, idx as int) + encode_scalar(
                ch as u32,
            ) + old(self)@.subrange(idx as int, old(self)@.len() as int),
            r is Err ==> final(self)@ == old(self)@,
            !old(self).spec_is_heap() && !old(self).spec_is_static() && old(self)@.len()
                + encode_scalar(ch as u32).len() <= MAX_INLINE_SIZE ==> r is Ok,
    {
        proof {
            crate::chars::lemma_encode_utf8_single(ch);
        }
        let (buf, n) = crate::chars::encode_char(ch);
        let bytes = vstd::slice::slice_subrange(buf.as_slice(), 0, n);
        let text = match crate::std_glue::str_from_utf8(bytes) {
            Ok(t) => t,
            Err(_) => {
                assert(false);
                ""
            },
        };
        self.try_insert_str(idx, text)
    }

    /// Keeps only the characters for which `predicate` returns `true`.
    pub fn try_retain<F: Fn(char) -> bool>(&mut self, predicate: F) -> (r: Result<(), ReserveError>)
        requires
            forall|c: char| predicate.requires((c,)),
        ensures
            r is Ok ==> exists|keep: Seq<bool>|
                {
                    &&& keep.len() == decode_utf8(old(self)@).len()
                    &&& forall|i: int|
                        0 <= i < keep.len() ==> predicate.ensures(
                            (decode_utf8(old(self)@)[i],),
                            #[trigger] keep[i],
                        )
                    &&& final(self)@ == encode_utf8(spec_retained(decode_utf8(old(self)@), keep))
                },
            r is Err ==> final(self)@ == old(self)@,
            !old(self).spec_is_heap() && !old(self).spec_is_static() ==> r is Ok,
            old(self).spec_is_static() && old(self)@.len() <= MAX_INLINE_SIZE ==> r is Ok,
            r is Err ==> old(self).spec_is_heap() || (old(self).spec_is_static() && old(self)@.len()
                > MAX_INLINE_SIZE),
    {
        proof {
            use_type_invariant(&*self);
        }
        let mut repr = Repr::new();
        std::mem::swap(&mut self.0, &mut repr);
        let ghost old_view = repr.view();
        let r = repr.retain(predicate);
        self.0 = repr;
        proof {
            if r is Ok {
                let keep = choose|keep: Seq<bool>|
                    {
                        &&& keep.len() == decode_utf8(old_view).len()
                        &&& forall|i: int|
                            0 <= i < keep.len() ==> predicate.ensures(
                                (decode_utf8(old_view)[i],),
                                #[trigger] keep[i],
                            )
                        &&& self.0.view() == encode_utf8(spec_retained(decode_utf8(old_view), keep))
                    };
                assert(keep.len() == decode_utf8(old(self)@).len() && (forall|i: int|
                    0 <= i < keep.len() ==> predicate.ensures(
                        (decode_utf8(old(self)@)[i],),
                        #[trigger] keep[i],
                    )) && self@ == encode_utf8(spec_retained(decode_utf8(old(self)@), keep)));
            }
        }
        r
    }

    /// Shrinks the capacity to the larger of `min_capacity` and the length, moving the text inline
    /// when that fits.
    pub fn try_shrink_to(&mut self, min_capacity: usize) -> (r: Result<(), ReserveError>)
        ensures
            final(self)@ == old(self)@,
            !old(self).spec_is_heap() ==> (r is Ok && final(self).spec_repr() == old(self).spec_repr()),
            r is Ok && old(self).spec_is_heap() ==> ({
                let target = if old(self)@.len() > min_capacity {
                    old(self)@.len()
                } else {
                    min_capacity as nat
                };
                &&& target <= MAX_INLINE_SIZE ==> !final(self).spec_is_heap()
                    && !final(self).spec_is_static()
                &&& target > MAX_INLINE_SIZE ==> final(self).spec_is_heap()
                    && final(self).spec_capacity() == if target < old(self).spec_capacity() {
                    target
                } else {
                    old(self).spec_capacity()
                }
            }),
            r is Err ==> final(self).spec_is_heap() && final(self).spec_capacity() == old(
                self,
            ).spec_capacity(),
            r is Ok && old(self).spec_is_heap() && old(self)@.len() > MAX_INLINE_SIZE
                && min_capacity <= old(self)@.len() && old(self)@.len() >= old(self).spec_capacity()
                ==> final(self).spec_repr() == old(self).spec_repr(),
            old(self).spec_is_heap() && ({
                let target = if old(self)@.len() > min_capacity {
                    old(self)@.len()
                } else {
                    min_capacity as nat
                };
                target <= MAX_INLINE_SIZE || target >= old(self).spec_capacity()
            }) ==> r is Ok,
    {
        proof {
            use_type_invariant(&*self);
        }
        let mut repr = Repr::new();
        std::mem::swap(&mut self.0, &mut repr);
        let r = repr.shrink_to(min_capacity);
        self.0 = repr;
        r
    }

    /// Shrinks the capacity to the length, moving the text inline when that fits.
    pub fn try_shrink_to_fit(&mut self) -> (r: Result<(), ReserveError>)
        ensures
            final(self)@ == old(self)@,
            r is Ok && old(self).spec_is_heap() && old(self)@.len() > MAX_INLINE_SIZE ==> final(self).spec_capacity() == old(self)@.len(),
            r is Ok && old(self)@.len() <= MAX_INLINE_SIZE ==> !final(self).spec_is_heap(),
            !old(self).spec_is_heap() ==> (r is Ok && final(self).spec_repr() == old(self).spec_repr()),
            old(self)@.len() <= MAX_INLINE_SIZE ==> r is Ok,
            old(self).spec_is_heap() && old(self)@.len() > MAX_INLINE_SIZE && old(self)@.len()
                == old(self).spec_capacity() ==> (r is Ok && final(self).spec_repr() == old(
                self,
            ).spec_repr()),
            r is Err ==> final(self).spec_is_heap() && final(self).spec_capacity() == old(self).spec_capacity(),
    {
        proof {
            use_type_invariant(&*self);
            self.0.lemma_capacity();
        }
        self.try_shrink_to(0)
    }

    /// Empties the string, keeping a heap buffer that no other string shares.
    pub fn try_clear(&mut self) -> (r: Result<(), ReserveError>)
        ensures
            r is Ok ==> final(self)@ == Seq::<u8>::empty(),
            r is Err ==> final(self)@ == old(self)@,
            old(self)@.len() <= Width::spec_native().spec_max_len() ==> r is Ok,
    {
        proof {
            use_type_invariant(&*self);
            self.0.lemma_len_on_heap();
            self.0.lemma_capacity();
            is_char_boundary_start_end_of_seq(self@);
        }
        self.try_truncate(0)
    }

    /// The text in lowercase, by the full Unicode mapping. A text with nothing to change is shared;
    /// otherwise the characters before the first change are kept and the rest is mapped one
    /// character at a time, except that a lowercase mapping whose rest holds a capital sigma
    /// takes the whole text through `str::to_lowercase`.
    pub fn try_to_lowercase(&self) -> (r: Result<LeanString, ReserveError>)
        ensures
            r matches Ok(s) ==> s@ == encode_utf8(spec_case_text(CaseMapping::ToLower, decode_utf8(self@))),
            !spec_has_change(CaseMapping::ToLower, decode_utf8(self@)) ==> (r matches Ok(s)
                && s.spec_repr() == self.spec_repr()),
            spec_has_change(CaseMapping::ToLower, decode_utf8(self@)) ==> (r is Ok <==> ({
                let len = encode_utf8(spec_case_text(CaseMapping::ToLower, decode_utf8(self@))).len();
                len <= MAX_INLINE_SIZE || spec_heap_ok::<GrowableHeader>(len)
            })),
    {
        proof {
            use_type_invariant(self);
        }
        match self.0.to_case(CaseMapping::ToLower) {
            Ok(repr) => Ok(LeanString(repr)),
            Err(e) => Err(e),
        }
    }

    /// The text in uppercase, by the full Unicode mapping. A text with nothing to change is shared;
    /// otherwise the characters before the first change are kept and the rest is mapped one
    /// character at a time, except that a lowercase mapping whose rest holds a capital sigma
    /// takes the whole text through `str::to_lowercase`.
    pub fn try_to_uppercase(&self) -> (r: Result<LeanString, ReserveError>)
        ensures
            r matches Ok(s) ==> s@ == encode_utf8(spec_case_text(CaseMapping::ToUpper, decode_utf8(self@))),
            !spec_has_change(CaseMapping::ToUpper, decode_utf8(self@)) ==> (r matches Ok(s)
                && s.spec_repr() == self.spec_repr()),
            spec_has_change(CaseMapping::ToUpper, decode_utf8(self@)) ==> (r is Ok <==> ({
                let len = encode_utf8(spec_case_text(CaseMapping::ToUpper, decode_utf8(self@))).len();
                len <= MAX_INLINE_SIZE || spec_heap_ok::<GrowableHeader>(len)
            })),
    {
        proof {
            use_type_invariant(self);
        }
        match self.0.to_case(CaseMapping::ToUpper) {
            Ok(repr) => Ok(LeanString(repr)),
            Err(e) => Err(e),
        }
    }

    /// A copy with every ASCII letter in lowercase; other characters stay. A text with nothing to
    /// change is shared rather than copied.
    pub fn try_to_ascii_lowercase(&self) -> (r: Result<LeanString, ReserveError>)
        ensures
            r matches Ok(s) ==> s@ == self@.map_values(ascii_map_fn(CaseMapping::ToLower)),
            self@.len() <= MAX_INLINE_SIZE ==> r is Ok,
            spec_keeps_ascii(CaseMapping::ToLower, self@) ==> (r matches Ok(s) && s.spec_repr() == self.spec_repr()),
    {
        proof {
            use_type_invariant(self);
        }
        match self.0.to_ascii_case(CaseMapping::ToLower) {
            Ok(repr) => Ok(LeanString(repr)),
            Err(e) => Err(e),
        }
    }

    /// A copy with every ASCII letter in uppercase; other characters stay. A text with nothing to
    /// change is shared rather than copied.
    pub fn try_to_ascii_uppercase(&self) -> (r: Result<LeanString, ReserveError>)
        ensures
            r matches Ok(s) ==> s@ == self@.map_values(ascii_map_fn(CaseMapping::ToUpper)),
            self@.len() <= MAX_INLINE_SIZE ==> r is Ok,
            spec_keeps_ascii(CaseMapping::ToUpper, self@) ==> (r matches Ok(s) && s.spec_repr() == self.spec_repr()),
    {
        proof {
            use_type_invariant(self);
        }
        match self.0.to_ascii_case(CaseMapping::ToUpper) {
            Ok(repr) => Ok(LeanString(repr)),
            Err(e) => Err(e),
        }
    }

    /// Turns every ASCII letter into lowercase in place; other characters stay. A text with nothing
    /// to change is left as it is, shared or borrowed buffer included.
    pub fn try_make_ascii_lowercase(&mut self) -> (r: Result<(), ReserveError>)
        ensures
            r is Ok ==> final(self)@ == old(self)@.map_values(ascii_map_fn(CaseMapping::ToLower)),
            r is Err ==> final(self)@ == old(self)@,
            spec_keeps_ascii(CaseMapping::ToLower, old(self)@) ==> (r is Ok && final(self).spec_repr() == old(self).spec_repr()),
            !old(self).spec_is_heap() && !old(self).spec_is_static() ==> r is Ok,
    {
        proof {
            use_type_invariant(&*self);
        }
        let mut repr = Repr::new();
        std::mem::swap(&mut self.0, &mut repr);
        let r = repr.make_ascii_case(CaseMapping::ToLower);
        self.0 = repr;
        r
    }

    /// Turns every ASCII letter into uppercase in place; other characters stay. A text with nothing
    /// to change is left as it is, shared or borrowed buffer included.
    pub fn try_make_ascii_uppercase(&mut self) -> (r: Result<(), ReserveError>)
        ensures
            r is Ok ==> final(self)@ == old(self)@.map_values(ascii_map_fn(CaseMapping::ToUpper)),
            r is Err ==> final(self)@ == old(self)@,
            spec_keeps_ascii(CaseMapping::ToUpper, old(self)@) ==> (r is Ok && final(self).spec_repr() == old(self).spec_repr()),
            !old(self).spec_is_heap() && !old(self).spec_is_static() ==> r is Ok,
    {
        proof {
            use_type_invariant(&*self);
        }
        let mut repr = Repr::new();
        std::mem::swap(&mut self.0, &mut repr);
        let r = repr.make_ascii_case(CaseMapping::ToUpper);
        self.0 = repr;
        r
    }

    /// Turns the string into an immutable string, reusing a heap buffer that no other string
    /// shares. On failure the string is handed back.
    pub fn try_into_lean_str(self) -> (r: Result<LeanStr, (LeanString, ReserveError)>)
        ensures
            r matches Ok(s) ==> s@ == self@,
            r matches Ok(s) ==> (s.spec_is_static() <==> self.spec_is_static()) && (!self.spec_is_heap()
                ==> !s.spec_is_heap()) && (self.spec_is_heap() ==> (s.spec_is_heap() <==> self@.len()
                > MAX_INLINE_SIZE)),
            r matches Err((s, _)) ==> s@ == self@ && s.spec_repr() == self.spec_repr(),
            !self.spec_is_heap() ==> r is Ok,
            self.spec_is_heap() && self@.len() <= MAX_INLINE_SIZE ==> (r matches Ok(s)
                && !s.spec_is_heap() && !s.spec_is_static()),
    {
        proof {
            use_type_invariant(&self);
        }
        match self.0.into_immutable() {
            Ok(repr) => Ok(LeanStr::from_repr(repr)),
            Err((repr, e)) => Err((LeanString(repr), e)),
        }
    }
}

impl Clone for LeanString {
    /// A copy that shares the heap buffer, if there is one.
    fn clone(&self) -> (r: Self)
        ensures
            r@ == self@,
            r.spec_repr() == self.spec_repr(),
    {
        self.clone_shallow()
    }
}

impl Default for LeanString {
    /// The empty string.
    fn default() -> (r: Self)
        ensures
            r@ == Seq::<u8>::empty(),
    {
        LeanString::new()
    }
}

/// The text with `inserted` put in at byte `idx`.
pub open spec fn spec_inserted(text: Seq<u8>, idx: int, inserted: Seq<u8>) -> Seq<u8> {
    text.subrange(0, idx) + inserted + text.subrange(idx, text.len() as int)
}

/// Popping right after pushing `c` gives `c` back and leaves the text as it was: whatever
/// [`LeanString::try_pop`] may return from the text of [`LeanString::try_push`], it is `c`
/// and the old text.
pub proof fn lemma_pop_undoes_push(text: Seq<u8>, c: char, popped: char, rest: Seq<u8>)
    requires
        valid_utf8(text),
        text + encode_scalar(c as u32) == rest + encode_scalar(popped as u32),
        decode_utf8(text + encode_scalar(c as u32)) == decode_utf8(rest).push(popped),
    ensures
        popped == c,
        rest == text,
{
    let chars = decode_utf8(text);
    decode_utf8_encode_utf8(text);
    crate::chars::lemma_encode_utf8_push(chars, c);
    encode_utf8_decode_utf8(chars.push(c));
    assert(decode_utf8(rest).push(popped).last() == chars.push(c).last());
    crate::chars::lemma_encode_scalar_len(c);
    assert(rest =~= (rest + encode_scalar(popped as u32)).subrange(0, rest.len() as int));
    assert(text =~= (text + encode_scalar(c as u32)).subrange(0, text.len() as int));
}

/// Truncating to the old length undoes a push of valid text: the old length is a character
/// boundary of the longer text, as [`LeanString::try_truncate`] requires, and the text up to it
/// is the old text.
pub proof fn lemma_truncate_undoes_push_str(text: Seq<u8>, pushed: Seq<u8>)
    requires
        valid_utf8(text),
        valid_utf8(pushed),
    ensures
        is_char_boundary(text + pushed, text.len() as int),
        (text + pushed).subrange(0, text.len() as int) == text,
{
    let a = decode_utf8(text);
    let b = decode_utf8(pushed);
    decode_utf8_encode_utf8(text);
    decode_utf8_encode_utf8(pushed);
    crate::chars::lemma_encode_utf8_concat(a, b);
    crate::chars::lemma_boundary_at(a + b, a.len() as int);
    assert((a + b).subrange(0, a.len() as int) =~= a);
    assert((text + pushed).subrange(0, text.len() as int) =~= text);
}

/// Removing at the byte where a character was inserted undoes the insertion: the position is a
/// character boundary of the longer text, as [`LeanString::try_remove`] requires, and whatever
/// the removal may return, it is the inserted character and the old text.
pub proof fn lemma_remove_undoes_insert(
    text: Seq<u8>,
    idx: int,
    c: char,
    removed: char,
    rest: Seq<u8>,
)
    requires
        valid_utf8(text),
        0 <= idx <= text.len(),
        is_char_boundary(text, idx),
        ({
            let t = spec_inserted(text, idx, encode_scalar(c as u32));
            let w = encode_scalar(removed as u32).len() as int;
            &&& t.subrange(idx, idx + w) == encode_scalar(removed as u32)
            &&& rest == t.subrange(0, idx) + t.subrange(idx + w, t.len() as int)
            &&& decode_utf8(t) == decode_utf8(t.subrange(0, idx)) + seq![removed] + decode_utf8(
                t.subrange(idx + w, t.len() as int),
            )
        }),
    ensures
        idx < spec_inserted(text, idx, encode_scalar(c as u32)).len(),
        is_char_boundary(spec_inserted(text, idx, encode_scalar(c as u32)), idx),
        removed == c,
        rest == text,
{
    let e = encode_scalar(c as u32);
    let t = spec_inserted(text, idx, e);
    let pre = text.subrange(0, idx);
    let suf = text.subrange(idx, text.len() as int);
    valid_utf8_split(text, idx);
    let dp = decode_utf8(pre);
    let ds = decode_utf8(suf);
    decode_utf8_encode_utf8(pre);
    decode_utf8_encode_utf8(suf);
    let chars = dp + seq![c] + ds;
    crate::chars::lemma_encode_utf8_concat(dp + seq![c], ds);
    crate::chars::lemma_encode_utf8_concat(dp, seq![c]);
    crate::chars::lemma_encode_utf8_single(c);
    crate::chars::lemma_encode_scalar_len(c);
    assert(t =~= encode_utf8(chars));
    encode_utf8_decode_utf8(chars);
    assert(chars.subrange(0, dp.len() as int) =~= dp);
    crate::chars::lemma_boundary_at(chars, dp.len() as int);
    assert(t.subrange(0, idx) =~= pre);
    let w = encode_scalar(removed as u32).len() as int;
    assert(decode_utf8(t)[dp.len() as int] == c);
    assert((dp + seq![removed] + decode_utf8(t.subrange(idx + w, t.len() as int)))[dp.len() as int]
        == removed);
    crate::chars::lemma_encode_scalar_len(removed);
    assert(t.subrange(idx + w, t.len() as int) =~= suf);
    assert(rest =~= text);
}

/// The bytes of any string are taken back by [`LeanString::try_from_utf8`]: they are valid UTF-8
/// and fit a buffer, so whatever it may return for them is a string, with the same text.
pub proof fn lemma_from_utf8_takes_string_bytes(
    s: MutableRepr,
    r: Result<Result<LeanString, ReserveError>, core::str::Utf8Error>,
)
    requires
        s.wf(),
        r is Ok <==> valid_utf8(s.view()),
        r matches Ok(Ok(t)) ==> t@ == s.view(),
        s.view().len() <= MAX_INLINE_SIZE ==> (r matches Ok(inner) ==> inner is Ok),
        s.view().len() > MAX_INLINE_SIZE ==> (r matches Ok(inner) ==> (inner is Ok
            <==> spec_heap_ok::<GrowableHeader>(s.view().len()))),
    ensures
        r matches Ok(Ok(t)) && t@ == s.view(),
{
    s.lemma_valid();
    s.lemma_text_held();
}

} // verus!
