//! The immutable string.
use vstd::prelude::*;
use vstd::string::*;
use vstd::utf8::*;

use crate::case::{
    ascii_map_fn, spec_case_text, spec_has_change, spec_keeps_ascii, spec_sigma_path, CaseMapping,
};
use crate::errors::{FromUtf16Error, FromUtf16ErrorKind, ReserveError};
use crate::std_glue::str_from_utf8;
use crate::utf16::{
    decode_utf16, decode_utf16_bytes, decode_utf16_bytes_lossy, decode_utf16_lossy, replacement_char,
    spec_decode_utf16, spec_decode_utf16_bytes_lossy, spec_decode_utf16_lossy, spec_units,
};
use crate::lean_string::LeanString;
use crate::repr::heap_buffer::{extend_bytes, ExactHeader};
use crate::repr::static_buffer::StaticBuffer;
use crate::repr::{spec_heap_ok, ImmutableRepr, Repr};
use crate::MAX_INLINE_SIZE;

verus! {

/// An immutable, compact string whose clones share one heap buffer.
///
/// A text of up to `MAX_INLINE_SIZE` bytes is kept inline, a `&'static str` is borrowed, and a
/// longer text lives in a reference-counted heap buffer of exactly its length.
#[derive(Debug)]
pub struct LeanStr(ImmutableRepr);

impl View for LeanStr {
    type V = Seq<u8>;

    /// The text, as UTF-8 bytes.
    closed spec fn view(&self) -> Seq<u8> {
        self.0.view()
    }
}

/// The text `s` repeated `n` times.
pub open spec fn spec_repeat(s: Seq<u8>, n: nat) -> Seq<u8>
    decreases n,
{
    if n == 0 {
        Seq::<u8>::empty()
    } else {
        spec_repeat(s, (n - 1) as nat) + s
    }
}

/// The length of a repetition.
pub proof fn lemma_repeat_len(s: Seq<u8>, n: nat)
    ensures
        spec_repeat(s, n).len() == s.len() * n,
    decreases n,
{
    if n == 0 {
        assert(s.len() * 0 == 0) by (nonlinear_arith);
    } else {
        let m = (n - 1) as nat;
        lemma_repeat_len(s, m);
        assert(spec_repeat(s, n) == spec_repeat(s, m) + s);
        assert(s.len() * n == s.len() * m + s.len()) by (nonlinear_arith)
            requires
                n == m + 1,
        ;
    }
}

/// A repetition of valid UTF-8 is valid UTF-8.
pub proof fn lemma_repeat_valid(s: Seq<u8>, n: nat)
    requires
        valid_utf8(s),
    ensures
        valid_utf8(spec_repeat(s, n)),
    decreases n,
{
    if n > 0 {
        lemma_repeat_valid(s, (n - 1) as nat);
        valid_utf8_concat(spec_repeat(s, (n - 1) as nat), s);
    }
}

/// The bytes of `src` repeated `n` times, or an error when their length overflows `usize` or the
/// allocator refuses the memory.
pub fn repeat_bytes(src: &[u8], n: usize) -> (r: Result<Vec<u8>, ReserveError>)
    ensures
        r matches Ok(v) ==> v@ == spec_repeat(src@, n as nat),
        src@.len() * n > usize::MAX ==> r is Err,
{
    proof {
        lemma_repeat_len(src@, n as nat);
    }
    let total = match src.len().checked_mul(n) {
        Some(t) => t,
        None => return Err(ReserveError),
    };
    let mut out: Vec<u8> = Vec::new();
    match out.try_reserve(total) {
        Ok(()) => {},
        Err(_) => return Err(ReserveError),
    }
    let mut i: usize = 0;
    while i < n
        invariant
            i <= n,
            out@ == spec_repeat(src@, i as nat),
        decreases n - i,
    {
        extend_bytes(&mut out, src);
        i = i + 1;
    }
    Ok(out)
}

impl LeanStr {
    #[verifier::type_invariant]
    closed spec fn inv(self) -> bool {
        self.0.wf()
    }

    /// True when the text is in a heap buffer.
    pub closed spec fn spec_is_heap(&self) -> bool {
        self.0 is Heap
    }

    /// True when the text is borrowed from a `&'static str`.
    pub closed spec fn spec_is_static(&self) -> bool {
        self.0 is Static
    }

    /// The representation.
    pub closed spec fn spec_repr(&self) -> ImmutableRepr {
        self.0
    }

    /// Wraps a representation.
    pub fn from_repr(repr: ImmutableRepr) -> (r: LeanStr)
        requires
            repr.wf(),
        ensures
            r@ == repr.view(),
            r.spec_repr() == repr,
            r.spec_is_heap() == repr is Heap,
            r.spec_is_static() == repr is Static,
    {
        LeanStr(repr)
    }

    /// The empty string.
    pub fn new() -> (r: LeanStr)
        ensures
            r@ == Seq::<u8>::empty(),
            !r.spec_is_heap(),
            !r.spec_is_static(),
    {
        LeanStr(Repr::new())
    }

    /// A copy of `text`: inline when it has at most `MAX_INLINE_SIZE` bytes, and in a new heap
    /// buffer of exactly its length otherwise.
    pub fn try_from_str(text: &str) -> (r: Result<LeanStr, ReserveError>)
        ensures
            r matches Ok(s) ==> s@ == text.spec_bytes(),
            r matches Ok(s) ==> (s.spec_is_heap() <==> text.spec_bytes().len() > MAX_INLINE_SIZE)
                && !s.spec_is_static(),
            text.spec_bytes().len() <= MAX_INLINE_SIZE ==> r is Ok,
            text.spec_bytes().len() > MAX_INLINE_SIZE && !spec_heap_ok::<ExactHeader>(
                text.spec_bytes().len(),
            ) ==> r is Err,
    {
        match Repr::from_str(text) {
            Ok(repr) => Ok(LeanStr(repr)),
            Err(e) => Err(e),
        }
    }

    /// The string made of the single character `ch`, kept inline.
    pub fn from_char(ch: char) -> (r: LeanStr)
        ensures
            r@ == encode_scalar(ch as u32),
            decode_utf8(r@) == seq![ch],
            !r.spec_is_heap(),
    {
        LeanStr(Repr::from_char(ch))
    }

    /// The string `"true"` or `"false"`, kept inline.
    pub fn from_bool(b: bool) -> (r: LeanStr)
        ensures
            b ==> r@ == "true".spec_bytes(),
            !b ==> r@ == "false".spec_bytes(),
            !r.spec_is_heap(),
    {
        LeanStr(Repr::from_bool(b))
    }

    /// The string of `text`: copied inline when it has at most `MAX_INLINE_SIZE` bytes, and
    /// borrowed otherwise, without allocating. Refused when `text` is longer than a static buffer
    /// can hold.
    pub fn try_from_static_str(text: &'static str) -> (r: Result<LeanStr, ReserveError>)
        ensures
            r matches Ok(s) ==> s@ == text.spec_bytes() && !s.spec_is_heap() && (s.spec_is_static()
                <==> text.spec_bytes().len() > MAX_INLINE_SIZE),
            r is Ok <==> text.spec_bytes().len() <= StaticBuffer::spec_max_length(),
    {
        proof {
            assert(MAX_INLINE_SIZE <= StaticBuffer::spec_max_length());
        }
        match Repr::from_static_str(text) {
            Ok(repr) => Ok(LeanStr(repr)),
            Err(e) => Err(e),
        }
    }

    /// The text of `bytes` when they are valid UTF-8, copied inline or into a new heap buffer;
    /// the outer error when they are not, the inner one when the buffer could not be had.
    pub fn try_from_utf8(bytes: &[u8]) -> (r: Result<
        Result<LeanStr, ReserveError>,
        core::str::Utf8Error,
    >)
        ensures
            r is Ok <==> valid_utf8(bytes@),
            r matches Ok(Ok(s)) ==> s@ == bytes@,
            bytes@.len() <= MAX_INLINE_SIZE ==> (r matches Ok(inner) ==> inner is Ok),
            bytes@.len() > MAX_INLINE_SIZE && !spec_heap_ok::<ExactHeader>(
                bytes@.len(),
            ) ==> (r matches Ok(inner) ==> inner is Err),
            bytes@.len() > MAX_INLINE_SIZE ==> (r matches Ok(inner) ==> (inner is Ok
                <==> spec_heap_ok::<ExactHeader>(bytes@.len()))),
    {
        match str_from_utf8(bytes) {
            Ok(_) => {
                let mut content: Vec<u8> = Vec::new();
                extend_bytes(&mut content, bytes);
                proof {
                    assert(Seq::<u8>::empty() + bytes@ =~= bytes@);
                }
                Ok(Self::from_decoded(content))
            },
            Err(e) => Err(e),
        }
    }

    /// The string of decoded UTF-8 bytes, moved into a buffer of their own when they do not fit
    /// inline.
    fn from_decoded(bytes: Vec<u8>) -> (r: Result<LeanStr, ReserveError>)
        requires
            valid_utf8(bytes@),
        ensures
            r matches Ok(s) ==> s@ == bytes@,
            bytes@.len() <= MAX_INLINE_SIZE ==> r is Ok,
            bytes@.len() > MAX_INLINE_SIZE ==> (r is Ok <==> spec_heap_ok::<ExactHeader>(bytes@.len())),
    {
        match Repr::new_with(bytes) {
            Ok(repr) => Ok(LeanStr(repr)),
            Err(e) => Err(e),
        }
    }

    /// The text of UTF-16 code units; the outer error at a surrogate that is not part of a pair,
    /// the inner one when the buffer could not be had.
    pub fn try_from_utf16(units: &[u16]) -> (r: Result<
        Result<LeanStr, ReserveError>,
        FromUtf16Error,
    >)
        ensures
            r is Err <==> spec_decode_utf16(units@) is None,
            r matches Err(e) ==> e.kind == FromUtf16ErrorKind::LoneSurrogate,
            r matches Ok(Ok(s)) ==> s@ == encode_utf8(spec_decode_utf16(units@)->0),
            encode_utf8(spec_decode_utf16(units@)->0).len() <= MAX_INLINE_SIZE ==> (r matches Ok(
                inner,
            ) ==> inner is Ok),
            encode_utf8(spec_decode_utf16(units@)->0).len() > MAX_INLINE_SIZE ==> (r matches Ok(
                inner,
            ) ==> (inner is Ok <==> spec_heap_ok::<ExactHeader>(
                encode_utf8(spec_decode_utf16(units@)->0).len(),
            ))),
    {
        match decode_utf16(units) {
            Ok(bytes) => {
                proof {
                    encode_utf8_valid_utf8(spec_decode_utf16(units@)->0);
                }
                Ok(Self::from_decoded(bytes))
            },
            Err(e) => Err(e),
        }
    }

    /// The text of UTF-16 code units, each surrogate that is not part of a pair replaced by the
    /// replacement character.
    pub fn try_from_utf16_lossy(units: &[u16]) -> (r: Result<LeanStr, ReserveError>)
        ensures
            r matches Ok(s) ==> s@ == encode_utf8(spec_decode_utf16_lossy(units@)),
            encode_utf8(spec_decode_utf16_lossy(units@)).len() <= MAX_INLINE_SIZE ==> r is Ok,
            encode_utf8(spec_decode_utf16_lossy(units@)).len() > MAX_INLINE_SIZE ==> (r is Ok
                <==> spec_heap_ok::<ExactHeader>(encode_utf8(spec_decode_utf16_lossy(units@)).len())),
    {
        let bytes = decode_utf16_lossy(units);
        proof {
            encode_utf8_valid_utf8(spec_decode_utf16_lossy(units@));
        }
        Self::from_decoded(bytes)
    }

    /// The text of UTF-16 bytes in little-endian order; the outer error for an odd number of bytes
    /// or at a surrogate that is not part of a pair, the inner one when the buffer could not be
    /// had.
    pub fn try_from_utf16le(bytes: &[u8]) -> (r: Result<
        Result<LeanStr, ReserveError>,
        FromUtf16Error,
    >)
        ensures
            bytes@.len() % 2 == 1 ==> (r matches Err(e) && e.kind == FromUtf16ErrorKind::OddBytes),
            bytes@.len() % 2 == 0 ==> (r is Err <==> spec_decode_utf16(
                spec_units(bytes@, true),
            ) is None),
            bytes@.len() % 2 == 0 ==> (r matches Err(e) ==> e.kind
                == FromUtf16ErrorKind::LoneSurrogate),
            r matches Ok(Ok(s)) ==> s@ == encode_utf8(
                spec_decode_utf16(spec_units(bytes@, true))->0,
            ),
            encode_utf8(spec_decode_utf16(spec_units(bytes@, true))->0).len()
                <= MAX_INLINE_SIZE ==> (r matches Ok(inner) ==> inner is Ok),
            encode_utf8(spec_decode_utf16(spec_units(bytes@, true))->0).len()
                > MAX_INLINE_SIZE ==> (r matches Ok(inner) ==> (inner is Ok <==> spec_heap_ok::<
                ExactHeader,
            >(encode_utf8(spec_decode_utf16(spec_units(bytes@, true))->0).len()))),
    {
        match decode_utf16_bytes(bytes, true) {
            Ok(text) => {
                proof {
                    encode_utf8_valid_utf8(spec_decode_utf16(spec_units(bytes@, true))->0);
                }
                Ok(Self::from_decoded(text))
            },
            Err(e) => Err(e),
        }
    }

    /// The text of UTF-16 bytes in little-endian order, each surrogate that is not part of a
    /// pair, and a last odd byte, replaced by the replacement character.
    pub fn try_from_utf16le_lossy(bytes: &[u8]) -> (r: Result<LeanStr, ReserveError>)
        ensures
            r matches Ok(s) ==> s@ == encode_utf8(spec_decode_utf16_bytes_lossy(bytes@, true)),
            r is Ok <==> encode_utf8(spec_decode_utf16_bytes_lossy(bytes@, true)).len()
                <= MAX_INLINE_SIZE || spec_heap_ok::<ExactHeader>(
                encode_utf8(spec_decode_utf16_bytes_lossy(bytes@, true)).len(),
            ),
    {
        let text = decode_utf16_bytes_lossy(bytes, true);
        proof {
            encode_utf8_valid_utf8(spec_decode_utf16_lossy(spec_units(bytes@, true)));
            encode_utf8_valid_utf8(
                spec_decode_utf16_lossy(spec_units(bytes@, true)).push(replacement_char()),
            );
        }
        Self::from_decoded(text)
    }

    /// The text of UTF-16 bytes in big-endian order; the outer error for an odd number of bytes
    /// or at a surrogate that is not part of a pair, the inner one when the buffer could not be
    /// had.
    pub fn try_from_utf16be(bytes: &[u8]) -> (r: Result<
        Result<LeanStr, ReserveError>,
        FromUtf16Error,
    >)
        ensures
            bytes@.len() % 2 == 1 ==> (r matches Err(e) && e.kind == FromUtf16ErrorKind::OddBytes),
            bytes@.len() % 2 == 0 ==> (r is Err <==> spec_decode_utf16(
                spec_units(bytes@, false),
            ) is None),
            bytes@.len() % 2 == 0 ==> (r matches Err(e) ==> e.kind
                == FromUtf16ErrorKind::LoneSurrogate),
            r matches Ok(Ok(s)) ==> s@ == encode_utf8(
                spec_decode_utf16(spec_units(bytes@, false))->0,
            ),
            encode_utf8(spec_decode_utf16(spec_units(bytes@, false))->0).len()
                <= MAX_INLINE_SIZE ==> (r matches Ok(inner) ==> inner is Ok),
            encode_utf8(spec_decode_utf16(spec_units(bytes@, false))->0).len()
                > MAX_INLINE_SIZE ==> (r matches Ok(inner) ==> (inner is Ok <==> spec_heap_ok::<
                ExactHeader,
            >(encode_utf8(spec_decode_utf16(spec_units(bytes@, false))->0).len()))),
    {
        match decode_utf16_bytes(bytes, false) {
            Ok(text) => {
                proof {
                    encode_utf8_valid_utf8(spec_decode_utf16(spec_units(bytes@, false))->0);
                }
                Ok(Self::from_decoded(text))
            },
            Err(e) => Err(e),
        }
    }

    /// The text of UTF-16 bytes in big-endian order, each surrogate that is not part of a
    /// pair, and a last odd byte, replaced by the replacement character.
    pub fn try_from_utf16be_lossy(bytes: &[u8]) -> (r: Result<LeanStr, ReserveError>)
        ensures
            r matches Ok(s) ==> s@ == encode_utf8(spec_decode_utf16_bytes_lossy(bytes@, false)),
            r is Ok <==> encode_utf8(spec_decode_utf16_bytes_lossy(bytes@, false)).len()
                <= MAX_INLINE_SIZE || spec_heap_ok::<ExactHeader>(
                encode_utf8(spec_decode_utf16_bytes_lossy(bytes@, false)).len(),
            ),
    {
        let text = decode_utf16_bytes_lossy(bytes, false);
        proof {
            encode_utf8_valid_utf8(spec_decode_utf16_lossy(spec_units(bytes@, false)));
            encode_utf8_valid_utf8(
                spec_decode_utf16_lossy(spec_units(bytes@, false)).push(replacement_char()),
            );
        }
        Self::from_decoded(text)
    }

    /// The length of the text in bytes.
    pub fn len(&self) -> (r: usize)
        ensures
            r == self@.len(),
    {
        proof {
            use_type_invariant(self);
        }
        self.0.len()
    }

    /// True when the text is empty.
    pub fn is_empty(&self) -> (r: bool)
        ensures
            r == (self@.len() == 0),
    {
        proof {
            use_type_invariant(self);
        }
        self.0.is_empty()
    }

    /// The text.
    pub fn as_str(&self) -> (r: &str)
        ensures
            r.spec_bytes() == self@,
    {
        proof {
            use_type_invariant(self);
        }
        self.0.as_str()
    }

    /// The text, as bytes.
    pub fn as_bytes(&self) -> (r: &[u8])
        ensures
            r@ == self@,
    {
        proof {
            use_type_invariant(self);
        }
        self.0.as_bytes()
    }

    /// True when the text is in a heap buffer.
    pub fn is_heap_allocated(&self) -> (r: bool)
        ensures
            r == self.spec_is_heap(),
    {
        proof {
            use_type_invariant(self);
        }
        self.0.is_heap_buffer()
    }

    /// The borrowed `&'static str`, when the text is one.
    pub fn as_static_str(&self) -> (r: Option<&'static str>)
        ensures
            r is Some <==> self.spec_is_static(),
            r matches Some(s) ==> s.spec_bytes() == self@,
    {
        match &self.0 {
            Repr::Static(b) => Some(b.as_str()),
            _ => None,
        }
    }

    /// A copy that shares the heap buffer, if there is one.
    pub fn clone_shallow(&self) -> (r: LeanStr)
        ensures
            r@ == self@,
            r.spec_repr() == self.spec_repr(),
            r.spec_is_heap() == self.spec_is_heap(),
            r.spec_is_static() == self.spec_is_static(),
    {
        proof {
            use_type_invariant(self);
        }
        LeanStr(self.0.make_shallow_clone())
    }

    /// The text repeated `n` times. Zero repetitions give the empty string, and one repetition a
    /// copy that shares the buffer. Refused when the length overflows `usize`.
    pub fn try_repeat(&self, n: usize) -> (r: Result<LeanStr, ReserveError>)
        ensures
            r matches Ok(s) ==> s@ == spec_repeat(self@, n as nat),
            n == 0 ==> (r matches Ok(s) && !s.spec_is_heap() && !s.spec_is_static()),
            n == 1 ==> (r matches Ok(s) && s.spec_repr() == self.spec_repr()),
            self@.len() * n > usize::MAX ==> r is Err,
            r matches Ok(s) ==> (s.spec_is_heap() <==> (n != 1 && self@.len() * n
                > MAX_INLINE_SIZE) || (n == 1 && self.spec_is_heap())),
    {
        proof {
            use_type_invariant(self);
            self.0.lemma_valid();
            lemma_repeat_len(self@, n as nat);
            lemma_repeat_valid(self@, n as nat);
            reveal_with_fuel(spec_repeat, 2);
            assert(Seq::<u8>::empty() + self@ =~= self@);
        }
        if n == 0 {
            return Ok(LeanStr::new());
        }
        if n == 1 {
            return Ok(self.clone_shallow());
        }
        let bytes = repeat_bytes(self.as_bytes(), n)?;
        match Repr::new_with(bytes) {
            Ok(repr) => Ok(LeanStr(repr)),
            Err(e) => Err(e),
        }
    }

    /// The text in lowercase, by the full Unicode mapping. A text with nothing to change is shared;
    /// otherwise the characters before the first change are kept and the rest is mapped one
    /// character at a time, except that a lowercase mapping whose rest holds a capital sigma
    /// takes the whole text through `str::to_lowercase`.
    pub fn try_to_lowercase(&self) -> (r: Result<LeanStr, ReserveError>)
        ensures
            r matches Ok(s) ==> s@ == encode_utf8(spec_case_text(CaseMapping::ToLower, decode_utf8(self@))),
            !spec_has_change(CaseMapping::ToLower, decode_utf8(self@)) ==> (r matches Ok(s)
                && s.spec_repr() == self.spec_repr()),
            spec_has_change(CaseMapping::ToLower, decode_utf8(self@)) ==> (r is Ok <==> ({
                let len = encode_utf8(spec_case_text(CaseMapping::ToLower, decode_utf8(self@))).len();
                len <= MAX_INLINE_SIZE || spec_heap_ok::<ExactHeader>(len)
            })),
    {
        proof {
            use_type_invariant(self);
        }
        match self.0.to_case(CaseMapping::ToLower) {
            Ok(repr) => Ok(LeanStr(repr)),
            Err(e) => Err(e),
        }
    }

    /// The text in uppercase, by the full Unicode mapping. A text with nothing to change is shared;
    /// otherwise the characters before the first change are kept and the rest is mapped one
    /// character at a time, except that a lowercase mapping whose rest holds a capital sigma
    /// takes the whole text through `str::to_lowercase`.
    pub fn try_to_uppercase(&self) -> (r: Result<LeanStr, ReserveError>)
        ensures
            r matches Ok(s) ==> s@ == encode_utf8(spec_case_text(CaseMapping::ToUpper, decode_utf8(self@))),
            !spec_has_change(CaseMapping::ToUpper, decode_utf8(self@)) ==> (r matches Ok(s)
                && s.spec_repr() == self.spec_repr()),
            spec_has_change(CaseMapping::ToUpper, decode_utf8(self@)) ==> (r is Ok <==> ({
                let len = encode_utf8(spec_case_text(CaseMapping::ToUpper, decode_utf8(self@))).len();
                len <= MAX_INLINE_SIZE || spec_heap_ok::<ExactHeader>(len)
            })),
    {
        proof {
            use_type_invariant(self);
        }
        match self.0.to_case(CaseMapping::ToUpper) {
            Ok(repr) => Ok(LeanStr(repr)),
            Err(e) => Err(e),
        }
    }

    /// A copy with every ASCII letter in lowercase; other characters stay. A text with nothing to
    /// change is shared rather than copied.
    pub fn try_to_ascii_lowercase(&self) -> (r: Result<LeanStr, ReserveError>)
        ensures
            r matches Ok(s) ==> s@ == self@.map_values(ascii_map_fn(CaseMapping::ToLower)),
            self@.len() <= MAX_INLINE_SIZE ==> r is Ok,
            spec_keeps_ascii(CaseMapping::ToLower, self@) ==> (r matches Ok(s) && s.spec_repr() == self.spec_repr()),
    {
        proof {
            use_type_invariant(self);
        }
        match self.0.to_ascii_case(CaseMapping::ToLower) {
            Ok(repr) => Ok(LeanStr(repr)),
            Err(e) => Err(e),
        }
    }

    /// A copy with every ASCII letter in uppercase; other characters stay. A text with nothing to
    /// change is shared rather than copied.
    pub fn try_to_ascii_uppercase(&self) -> (r: Result<LeanStr, ReserveError>)
        ensures
            r matches Ok(s) ==> s@ == self@.map_values(ascii_map_fn(CaseMapping::ToUpper)),
            self@.len() <= MAX_INLINE_SIZE ==> r is Ok,
            spec_keeps_ascii(CaseMapping::ToUpper, self@) ==> (r matches Ok(s) && s.spec_repr() == self.spec_repr()),
    {
        proof {
            use_type_invariant(self);
        }
        match self.0.to_ascii_case(CaseMapping::ToUpper) {
            Ok(repr) => Ok(LeanStr(repr)),
            Err(e) => Err(e),
        }
    }

    /// Turns the string into a mutable string, reusing a heap buffer that no other string
    /// shares; its capacity is then its length. On failure the string is handed back.
    pub fn try_into_lean_string(self) -> (r: Result<LeanString, (LeanStr, ReserveError)>)
        ensures
            r matches Ok(s) ==> s@ == self@,
            r matches Ok(s) ==> (s.spec_is_static() <==> self.spec_is_static()) && (!self.spec_is_heap()
                ==> !s.spec_is_heap()) && (s.spec_is_heap() ==> s.spec_capacity() == self@.len()),
            r matches Err((s, _)) ==> s@ == self@ && s.spec_repr() == self.spec_repr(),
            !self.spec_is_heap() ==> r is Ok,
    {
        proof {
            use_type_invariant(&self);
        }
        match self.0.into_mutable() {
            Ok(repr) => Ok(LeanString::from_repr(repr)),
            Err((repr, e)) => Err((LeanStr(repr), e)),
        }
    }
}

impl Clone for LeanStr {
    /// A copy that shares the heap buffer, if there is one.
    fn clone(&self) -> (r: Self)
        ensures
            r@ == self@,
            r.spec_repr() == self.spec_repr(),
    {
        self.clone_shallow()
    }
}

impl Default for LeanStr {
    /// The empty string.
    fn default() -> (r: Self)
        ensures
            r@ == Seq::<u8>::empty(),
    {
        LeanStr::new()
    }
}

/// Turning a mutable string into an immutable one and back keeps its text: whatever
/// [`LeanString::try_into_lean_str`] and then [`LeanStr::try_into_lean_string`] return on
/// success has the text of the string they started from.
pub proof fn lemma_round_trip_keeps_text(start: LeanString, middle: LeanStr, end: LeanString)
    requires
        middle@ == start@,
        end@ == middle@,
    ensures
        end@ == start@,
{
}

} // verus!
