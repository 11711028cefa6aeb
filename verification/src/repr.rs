//! The representation of a string: kept inline, borrowed from a `&'static str`, or held in a
//! shared, reference-counted heap buffer.
//!
//! A representation with a growable heap header backs the mutable string; one with an exact
//! heap header backs the immutable string.
use vstd::prelude::*;
use vstd::string::*;
use vstd::utf8::*;

pub mod heap_buffer;
pub mod inline_buffer;
pub mod last_byte;
pub mod num_to_repr;
pub mod static_buffer;

use self::heap_buffer::internal::{spec_capacity_ok, Width};
use self::heap_buffer::{
    spec_amortized_growth, spec_layout_ok, ExactHeader, GrowableHeader, Header, HeapBuffer,
};
use self::inline_buffer::InlineBuffer;
use self::last_byte::{HEAP_MARKER, MASK_1100_0000, STATIC_MARKER};
use self::static_buffer::StaticBuffer;
use crate::case::{
    ascii_char_map_fn, ascii_map_fn, changes_ascii, spec_keeps_ascii, lemma_map_ascii_encoding, map_ascii,
    map_ascii_in_place, spec_case_text, spec_change_at, spec_first_change, spec_has_change,
    spec_map_ascii_char, spec_map_char, spec_map_chars, spec_sigma_path, spec_skip, split_at_change,
    capital_sigma, lemma_first_change_unique, CaseMapping,
};
use crate::chars::{push_char, lemma_encode_utf8_concat, lemma_encode_utf8_push, decode_char_at, encode_char, last_char_start, lemma_decode_at};
use crate::errors::ReserveError;
use crate::std_glue::{char_to_lowercase, char_to_uppercase, str_from_utf8, str_to_lowercase};
use crate::MAX_INLINE_SIZE;

verus! {

/// The representation of a string.
#[derive(Debug)]
pub enum Repr<H: Header> {
    /// Up to `MAX_INLINE_SIZE` bytes kept in place.
    Inline(InlineBuffer),
    /// A borrowed `&'static str`.
    Static(StaticBuffer),
    /// A shared heap buffer.
    Heap(HeapBuffer<H>),
}

/// The representation of a mutable string.
pub type MutableRepr = Repr<GrowableHeader>;

/// The representation of an immutable string.
pub type ImmutableRepr = Repr<ExactHeader>;

/// True when a heap buffer of `len` bytes of text may be allocated with header `H`.
pub open spec fn spec_heap_ok<H: Header>(len: nat) -> bool {
    spec_capacity_ok(len) && spec_layout_ok(H::spec_size(), len)
}

/// Whatever heap buffer can be had for `b` bytes of text can be had for fewer.
pub proof fn lemma_heap_ok_shorter<H: Header>(a: nat, b: nat)
    requires
        a <= b,
        spec_heap_ok::<H>(b),
    ensures
        spec_heap_ok::<H>(a),
{
}

/// A case mapping never fails when the mapped text is no longer than the text it maps: whatever
/// [`Repr::to_case`] may return for a well-formed representation is then `Ok`, on the path
/// through `str::to_lowercase` too.
pub proof fn lemma_case_mapping_succeeds_when_not_longer<H: Header>(
    s: Repr<H>,
    mapping: CaseMapping,
    r: Result<Repr<H>, ReserveError>,
)
    requires
        s.wf(),
        !spec_has_change(mapping, decode_utf8(s.view())) ==> r == Ok::<Repr<H>, ReserveError>(s),
        spec_has_change(mapping, decode_utf8(s.view())) ==> (r is Ok <==> ({
            let len = encode_utf8(spec_case_text(mapping, decode_utf8(s.view()))).len();
            len <= MAX_INLINE_SIZE || spec_heap_ok::<H>(len)
        })),
        encode_utf8(spec_case_text(mapping, decode_utf8(s.view()))).len() <= s.view().len(),
    ensures
        r is Ok,
{
    s.lemma_text_held();
    let len = encode_utf8(spec_case_text(mapping, decode_utf8(s.view()))).len();
    if spec_has_change(mapping, decode_utf8(s.view())) && len > MAX_INLINE_SIZE {
        lemma_heap_ok_shorter::<H>(len, s.view().len());
    }
}

impl<H: Header> Repr<H> {
    /// The text of a well-formed representation fits inline, or in a heap buffer with header `H`.
    pub proof fn lemma_text_held(self)
        requires
            self.wf(),
        ensures
            self.view().len() <= MAX_INLINE_SIZE || spec_heap_ok::<H>(self.view().len()),
    {
        self.lemma_valid();
        H::lemma_size_bounds();
        match self {
            Repr::Heap(b) => {
                b.lemma_wf();
                b.lemma_heap_ok();
                lemma_heap_ok_shorter::<H>(self.view().len(), b.spec_capacity());
            },
            Repr::Static(b) => {
                b.lemma_len();
                assert(Width::W64.spec_low_mask() == 0x00ff_ffff_ffff_ffffu64);
                assert(Width::W32.spec_low_mask() == 0x00ff_ffffu64);
            },
            Repr::Inline(b) => {
                b.lemma_last_byte();
            },
        }
    }

    /// The text, as bytes.
    pub open spec fn view(self) -> Seq<u8> {
        match self {
            Repr::Inline(b) => b.view(),
            Repr::Static(b) => b.view(),
            Repr::Heap(b) => b.view(),
        }
    }

    /// The buffer is well formed.
    pub open spec fn wf(self) -> bool {
        match self {
            Repr::Inline(b) => b.wf(),
            Repr::Static(b) => b.wf(),
            Repr::Heap(b) => b.wf(),
        }
    }

    /// The text of a well-formed representation is valid UTF-8.
    pub proof fn lemma_valid(self)
        requires
            self.wf(),
        ensures
            valid_utf8(self.view()),
            self.view().len() <= usize::MAX,
            self is Inline ==> self.view().len() <= MAX_INLINE_SIZE,
            self is Heap ==> self.view().len() <= self->Heap_0.spec_capacity(),
    {
        match self {
            Repr::Inline(b) => {
                b.lemma_last_byte();
            },
            Repr::Static(b) => {
                encode_utf8_valid_utf8(b.as_str_spec()@);
                b.lemma_len();
            },
            Repr::Heap(b) => {
                b.lemma_wf();
            },
        }
    }

    /// The empty text, kept inline.
    pub fn new() -> (r: Self)
        ensures
            r.wf(),
            r is Inline,
            r.view() == Seq::<u8>::empty(),
    {
        Repr::from_inline(InlineBuffer::empty())
    }

    /// A copy of `text`: inline when it fits, and in a new heap buffer otherwise.
    pub fn from_str(text: &str) -> (r: Result<Self, ReserveError>)
        ensures
            r matches Ok(s) ==> s.wf() && s.view() == text.spec_bytes(),
            text.spec_bytes().len() <= MAX_INLINE_SIZE ==> (r matches Ok(s) && s is Inline),
            text.spec_bytes().len() > MAX_INLINE_SIZE ==> (r matches Ok(s) ==> s is Heap),
            text.spec_bytes().len() > MAX_INLINE_SIZE && !spec_heap_ok::<H>(
                text.spec_bytes().len(),
            ) ==> r is Err,
    {
        proof {
            encode_utf8_valid_utf8(text@);
        }
        Self::from_utf8_bytes(text.as_bytes())
    }

    /// A copy of bytes of valid UTF-8: inline when they fit, and in a new heap buffer otherwise.
    pub fn from_utf8_bytes(bytes: &[u8]) -> (r: Result<Self, ReserveError>)
        requires
            valid_utf8(bytes@),
        ensures
            r matches Ok(s) ==> s.wf() && s.view() == bytes@,
            bytes@.len() <= MAX_INLINE_SIZE ==> (r matches Ok(s) && s is Inline),
            bytes@.len() > MAX_INLINE_SIZE ==> (r matches Ok(s) ==> s is Heap),
            r matches Ok(s) ==> (s is Heap ==> s->Heap_0.spec_capacity() == bytes@.len()),
            bytes@.len() > MAX_INLINE_SIZE && !spec_heap_ok::<H>(bytes@.len()) ==> r is Err,
    {
        if bytes.len() <= MAX_INLINE_SIZE {
            Ok(Repr::from_inline(InlineBuffer::from_utf8_bytes(bytes)))
        } else {
            match HeapBuffer::<H>::from_utf8_bytes(bytes) {
                Ok(b) => Ok(Repr::from_heap(b)),
                Err(e) => Err(e),
            }
        }
    }

    /// The text made of the single character `ch`, kept inline.
    pub fn from_char(ch: char) -> (r: Self)
        ensures
            r.wf(),
            r is Inline,
            r.view() == encode_scalar(ch as u32),
            decode_utf8(r.view()) == seq![ch],
    {
        let (buf, n) = encode_char(ch);
        proof {
            crate::chars::lemma_encode_utf8_single(ch);
        }
        let bytes = vstd::slice::slice_subrange(buf.as_slice(), 0, n);
        Repr::from_inline(InlineBuffer::from_utf8_bytes(bytes))
    }

    /// The text `"true"` or `"false"`, kept inline.
    pub fn from_bool(b: bool) -> (r: Self)
        ensures
            r.wf(),
            r is Inline,
            b ==> r.view() == "true".spec_bytes(),
            !b ==> r.view() == "false".spec_bytes(),
    {
        proof {
            reveal_strlit("true");
            reveal_strlit("false");
            is_ascii_chars_encode_utf8("true"@);
            is_ascii_chars_encode_utf8("false"@);
        }
        if b {
            Repr::from_inline(InlineBuffer::new("true"))
        } else {
            Repr::from_inline(InlineBuffer::new("false"))
        }
    }

    /// The text of `text`: copied inline when it fits, and borrowed otherwise. Refused when `text`
    /// is longer than a static buffer can hold.
    pub fn from_static_str(text: &'static str) -> (r: Result<Self, ReserveError>)
        ensures
            r matches Ok(s) ==> s.wf() && s.view() == text.spec_bytes(),
            text.spec_bytes().len() <= MAX_INLINE_SIZE ==> (r matches Ok(s) && s is Inline),
            text.spec_bytes().len() > MAX_INLINE_SIZE ==> (r matches Ok(s) ==> s is Static),
            text.spec_bytes().len() > MAX_INLINE_SIZE ==> (r is Ok <==> text.spec_bytes().len()
                <= StaticBuffer::spec_max_length()),
    {
        if text.as_bytes().len() <= MAX_INLINE_SIZE {
            Ok(Repr::from_inline(InlineBuffer::new(text)))
        } else {
            match StaticBuffer::new(text) {
                Ok(buffer) => Ok(Repr::from_static(buffer)),
                Err(e) => Err(e),
            }
        }
    }

    /// The text of `bytes`, which must be valid UTF-8: inline when it fits, and in a heap buffer
    /// that takes over `bytes` otherwise.
    pub fn new_with(bytes: Vec<u8>) -> (r: Result<Self, ReserveError>)
        requires
            valid_utf8(bytes@),
        ensures
            r matches Ok(s) ==> s.wf() && s.view() == bytes@,
            bytes@.len() <= MAX_INLINE_SIZE ==> (r matches Ok(s) && s is Inline),
            bytes@.len() > MAX_INLINE_SIZE ==> (r matches Ok(s) ==> s is Heap),
            bytes@.len() > MAX_INLINE_SIZE ==> (r is Ok <==> spec_heap_ok::<H>(bytes@.len())),
    {
        if bytes.len() <= MAX_INLINE_SIZE {
            Ok(Repr::from_inline(InlineBuffer::from_utf8_bytes(bytes.as_slice())))
        } else {
            match HeapBuffer::<H>::from_utf8_vec(bytes) {
                Ok(b) => Ok(Repr::from_heap(b)),
                Err((_, e)) => Err(e),
            }
        }
    }

    /// The length of the text in bytes.
    pub fn len(&self) -> (r: usize)
        requires
            self.wf(),
        ensures
            r == self.view().len(),
    {
        match self {
            Repr::Inline(b) => b.len(),
            Repr::Static(b) => b.len(),
            Repr::Heap(b) => {
                proof {
                    b.lemma_wf();
                }
                b.len()
            },
        }
    }

    /// True when the text is empty.
    pub fn is_empty(&self) -> (r: bool)
        requires
            self.wf(),
        ensures
            r == (self.view().len() == 0),
    {
        self.len() == 0
    }

    /// The text.
    pub fn as_str(&self) -> (r: &str)
        requires
            self.wf(),
        ensures
            r.spec_bytes() == self.view(),
    {
        match self {
            Repr::Static(b) => b.as_str(),
            Repr::Heap(b) => b.as_str(),
            Repr::Inline(b) => {
                proof {
                    self.lemma_valid();
                }
                match str_from_utf8(b.as_bytes()) {
                    Ok(s) => s,
                    Err(_) => {
                        assert(false);
                        ""
                    },
                }
            },
        }
    }

    /// The text, as bytes.
    pub fn as_bytes(&self) -> (r: &[u8])
        requires
            self.wf(),
        ensures
            r@ == self.view(),
    {
        match self {
            Repr::Inline(b) => b.as_bytes(),
            Repr::Static(b) => b.as_str().as_bytes(),
            Repr::Heap(b) => b.as_bytes(),
        }
    }

    /// True when no other string shares the buffer. Inline and static buffers are never shared;
    /// for a heap buffer the answer depends on the other strings alive at the time of the call.
    pub fn is_unique(&self) -> (r: bool)
        ensures
            !(self is Heap) ==> r,
    {
        match self {
            Repr::Heap(b) => b.is_unique(),
            _ => true,
        }
    }

    /// A copy that shares the heap buffer, if there is one.
    pub fn make_shallow_clone(&self) -> (r: Self)
        ensures
            r == *self,
    {
        match self {
            Repr::Inline(b) => Repr::Inline(*b),
            Repr::Static(b) => Repr::Static(*b),
            Repr::Heap(b) => Repr::Heap(b.clone_handle()),
        }
    }

    /// Replaces the representation with `other`, giving up the old heap buffer, if any.
    pub fn replace_inner(&mut self, other: Self)
        ensures
            *final(self) == other,
    {
        let mut other = other;
        std::mem::swap(self, &mut other);
        other.drop_in();
    }

    /// Gives up the heap buffer, if any, and leaves the empty text.
    pub fn drop_in(&mut self)
        ensures
            final(self).wf(),
            final(self).view() == Seq::<u8>::empty(),
            *final(self) is Inline,
    {
        let mut old = Repr::new();
        std::mem::swap(self, &mut old);
        if let Repr::Heap(b) = old {
            b.release();
        }
    }

    /// The byte that tells the buffer kinds apart: the last byte of an inline buffer, and the
    /// marker of the other two.
    pub fn last_byte(&self) -> (r: u8)
        requires
            self.wf(),
        ensures
            self is Heap ==> r == HEAP_MARKER,
            self is Static ==> r == STATIC_MARKER,
            self is Inline ==> r < MASK_1100_0000 + MAX_INLINE_SIZE,
            self is Inline && self.view().len() < MAX_INLINE_SIZE ==> r == MASK_1100_0000
                + self.view().len(),
            self is Inline && self.view().len() == MAX_INLINE_SIZE ==> r == self.view().last(),
    {
        match self {
            Repr::Inline(b) => {
                proof {
                    b.lemma_last_byte();
                }
                b.last_byte()
            },
            Repr::Static(b) => b.last_byte(),
            Repr::Heap(b) => b.last_byte(),
        }
    }

    /// True when the text is in a heap buffer.
    pub fn is_heap_buffer(&self) -> (r: bool)
        requires
            self.wf(),
        ensures
            r == self is Heap,
    {
        self.last_byte() == HEAP_MARKER
    }

    /// True when the text is borrowed from a `&'static str`.
    pub fn is_static_buffer(&self) -> (r: bool)
        requires
            self.wf(),
        ensures
            r == self is Static,
    {
        self.last_byte() == STATIC_MARKER
    }

    /// True when the text is kept inline.
    pub fn is_inline_buffer(&self) -> (r: bool)
        requires
            self.wf(),
        ensures
            r == self is Inline,
    {
        self.last_byte() < HEAP_MARKER
    }

    /// Wraps an inline buffer.
    pub fn from_inline(buffer: InlineBuffer) -> (r: Self)
        ensures
            r == Repr::<H>::Inline(buffer),
    {
        Repr::Inline(buffer)
    }

    /// Wraps a heap buffer.
    pub fn from_heap(buffer: HeapBuffer<H>) -> (r: Self)
        ensures
            r == Repr::<H>::Heap(buffer),
    {
        Repr::Heap(buffer)
    }

    /// Wraps a static buffer.
    pub fn from_static(buffer: StaticBuffer) -> (r: Self)
        ensures
            r == Repr::<H>::Static(buffer),
    {
        Repr::Static(buffer)
    }
}


/// The characters of `chars` for which `keep` holds, in order.
pub open spec fn spec_retained(chars: Seq<char>, keep: Seq<bool>) -> Seq<char>
    decreases chars.len(),
{
    if chars.len() == 0 {
        Seq::<char>::empty()
    } else if keep.len() >= chars.len() && keep[chars.len() - 1] {
        spec_retained(chars.drop_last(), keep).push(chars.last())
    } else {
        spec_retained(chars.drop_last(), keep)
    }
}

/// Valid UTF-8 split at a character boundary stays valid on both sides, and so does a
/// concatenation of valid UTF-8.
proof fn lemma_splice_valid(bytes: Seq<u8>, at: int, mid: Seq<u8>, to: int)
    requires
        valid_utf8(bytes),
        valid_utf8(mid),
        is_char_boundary(bytes, at),
        is_char_boundary(bytes, to),
        0 <= at <= to <= bytes.len(),
    ensures
        valid_utf8(bytes.subrange(0, at) + mid + bytes.subrange(to, bytes.len() as int)),
{
    valid_utf8_split(bytes, at);
    valid_utf8_split(bytes, to);
    valid_utf8_concat(bytes.subrange(0, at), mid);
    valid_utf8_concat(bytes.subrange(0, at) + mid, bytes.subrange(to, bytes.len() as int));
}

impl<H: Header> Repr<H> {
    /// The text mapped to the case. A text with nothing to change is shared; the characters
    /// before the first change are copied and the rest is mapped one character at a time, except
    /// that a lowercase mapping whose rest holds a capital sigma, whose form depends on its
    /// neighbours, is left to `str::to_lowercase` for the whole text.
    pub fn to_case(&self, mapping: CaseMapping) -> (r: Result<Self, ReserveError>)
        requires
            self.wf(),
        ensures
            r matches Ok(s) ==> s.wf() && s.view() == encode_utf8(
                spec_case_text(mapping, decode_utf8(self.view())),
            ),
            !spec_has_change(mapping, decode_utf8(self.view())) ==> r == Ok::<Self, ReserveError>(
                *self,
            ),
            spec_has_change(mapping, decode_utf8(self.view())) ==> (r is Ok <==> ({
                let len = encode_utf8(spec_case_text(mapping, decode_utf8(self.view()))).len();
                len <= MAX_INLINE_SIZE || spec_heap_ok::<H>(len)
            })),
    {
        proof {
            self.lemma_valid();
            decode_utf8_encode_utf8(self.view());
        }
        let text = self.as_str();
        let ghost chars = decode_utf8(self.view());
        proof {
            encode_utf8_decode_utf8(text@);
            assert(text@ == chars);
        }
        let (head, rest) = match split_at_change(text, mapping) {
            None => {
                proof {
                    if spec_has_change(mapping, chars) {
                        let k = choose|k: int|
                            spec_first_change(chars, spec_skip(mapping, chars), mapping, k);
                        assert(!mapping.spec_changes(chars[k]));
                    }
                }
                return Ok(self.make_shallow_clone());
            },
            Some(parts) => parts,
        };
        let ghost k = head@.len() as int;
        proof {
            let kk = choose|kk: int|
                spec_first_change(text@, spec_skip(mapping, chars), mapping, kk) && head@
                    == text@.subrange(0, kk) && rest@ == text@.subrange(kk, text@.len() as int);
            assert(kk == k);
            lemma_first_change_unique(chars, spec_skip(mapping, chars), mapping, k);
            assert(spec_has_change(mapping, chars));
            assert(spec_change_at(mapping, chars) == k);
        }
        let mut out: Vec<u8> = Vec::new();
        crate::repr::heap_buffer::extend_bytes(&mut out, head.as_bytes());
        let bytes = rest.as_bytes();
        let n = bytes.len();
        let ghost rchars = rest@;
        let mut i: usize = 0;
        let ghost mut j: int = 0;
        proof {
            encode_utf8_valid_utf8(rchars);
            encode_utf8_decode_utf8(rchars);
            is_char_boundary_start_end_of_seq(bytes@);
            assert(bytes@.subrange(0, 0) =~= Seq::<u8>::empty());
            assert(decode_utf8(Seq::<u8>::empty()) =~= Seq::<char>::empty());
            assert(bytes@.subrange(0, n as int) =~= bytes@);
            assert(rchars.subrange(0, 0) =~= Seq::<char>::empty());
            assert(rchars.subrange(0, rchars.len() as int) =~= rchars);
            assert(spec_map_chars(mapping, Seq::<char>::empty()) =~= Seq::<char>::empty());
            assert(Seq::<u8>::empty() + head.spec_bytes() =~= head.spec_bytes());
            assert(head@ + Seq::<char>::empty() =~= head@);
            if n == 0 {
                assert(rchars.len() == 0);
            }
        }
        let mut sigma = false;
        while i < n
            invariant_except_break
                !sigma,
            invariant
                n == bytes@.len(),
                bytes@ == encode_utf8(rchars),
                i <= n,
                0 <= j <= rchars.len(),
                valid_utf8(bytes@),
                is_char_boundary(bytes@, i as int),
                decode_utf8(bytes@.subrange(0, i as int)) == rchars.subrange(0, j),
                decode_utf8(bytes@.subrange(i as int, n as int)) == rchars.subrange(
                    j,
                    rchars.len() as int,
                ),
                out@ == encode_utf8(head@ + spec_map_chars(mapping, rchars.subrange(0, j))),
                i == n ==> j == rchars.len(),
                rchars.subrange(0, rchars.len() as int) == rchars,
                forall|t: int|
                    0 <= t < j ==> mapping == CaseMapping::ToLower ==> #[trigger] rchars[t]
                        != capital_sigma(),
            ensures
                sigma ==> mapping == CaseMapping::ToLower && rchars.contains(capital_sigma()),
                !sigma ==> out@ == encode_utf8(head@ + spec_map_chars(mapping, rchars))
                    && !(mapping == CaseMapping::ToLower && rchars.contains(capital_sigma())),
            decreases n - i,
        {
            let (ch, w) = decode_char_at(bytes, i);
            proof {
                crate::case::lemma_step_char(bytes@, i as int, ch, w as int, rchars, j);
            }
            let lower = match mapping {
                CaseMapping::ToLower => true,
                CaseMapping::ToUpper => false,
            };
            if lower && ch == '\u{03A3}' {
                sigma = true;
                proof {
                    assert(rchars[j] == capital_sigma());
                }
                break;
            }
            let ghost before = out@;
            let code = ch as u32;
            if code < 0x80 {
                let m = mapping.map_ascii(code as u8) as char;
                assert(m == spec_map_ascii_char(mapping, ch));
                push_char(&mut out, m);
                proof {
                    lemma_encode_utf8_push(head@ + spec_map_chars(mapping, rchars.subrange(0, j)), m);
                }
            } else {
                let mapped = match mapping {
                    CaseMapping::ToLower => char_to_lowercase(ch),
                    CaseMapping::ToUpper => char_to_uppercase(ch),
                };
                let mut t: usize = 0;
                while t < mapped.len()
                    invariant
                        t <= mapped@.len(),
                        out@ == before + encode_utf8(mapped@.subrange(0, t as int)),
                    decreases mapped@.len() - t,
                {
                    let c = mapped[t];
                    push_char(&mut out, c);
                    proof {
                        assert(mapped@.subrange(0, t + 1) =~= mapped@.subrange(0, t as int).push(c));
                        lemma_encode_utf8_push(mapped@.subrange(0, t as int), c);
                    }
                    t = t + 1;
                }
                proof {
                    assert(mapped@.subrange(0, mapped@.len() as int) =~= mapped@);
                    lemma_encode_utf8_concat(
                        head@ + spec_map_chars(mapping, rchars.subrange(0, j)),
                        mapped@,
                    );
                }
            }
            proof {
                let prev = rchars.subrange(0, j);
                let next = rchars.subrange(0, j + 1);
                assert(next.drop_last() =~= prev);
                assert(next.last() == ch);
                assert(spec_map_chars(mapping, next) == spec_map_chars(mapping, prev)
                    + spec_map_char(mapping, ch));
                assert(head@ + spec_map_chars(mapping, next) =~= (head@ + spec_map_chars(
                    mapping,
                    prev,
                )) + spec_map_char(mapping, ch));
                if code < 0x80 {
                    assert(spec_map_char(mapping, ch) =~= seq![spec_map_ascii_char(mapping, ch)]);
                    assert((head@ + spec_map_chars(mapping, prev)).push(
                        spec_map_ascii_char(mapping, ch),
                    ) =~= (head@ + spec_map_chars(mapping, prev)) + seq![
                        spec_map_ascii_char(mapping, ch),
                    ]);
                }
                j = j + 1;
                if i + w == n {
                    assert(bytes@.subrange(n as int, n as int) =~= Seq::<u8>::empty());
                    assert(decode_utf8(Seq::<u8>::empty()) =~= Seq::<char>::empty());
                    assert(rchars.subrange(j, rchars.len() as int).len() == 0);
                }
            }
            i = i + w;
        }
        proof {
            if !sigma {
                assert(bytes@.subrange(n as int, n as int) =~= Seq::<u8>::empty());
                assert(decode_utf8(Seq::<u8>::empty()) =~= Seq::<char>::empty());
                assert(rchars.subrange(0, rchars.len() as int) =~= rchars);
            }
        }
        if sigma {
            let lowered = str_to_lowercase(text);
            proof {
                assert(spec_sigma_path(mapping, chars));
                encode_utf8_valid_utf8(lowered@);
            }
            let lowered_text = lowered.as_str();
            let mut content: Vec<u8> = Vec::new();
            crate::repr::heap_buffer::extend_bytes(&mut content, lowered_text.as_bytes());
            proof {
                assert(Seq::<u8>::empty() + lowered_text.spec_bytes() =~= encode_utf8(lowered@));
            }
            return Self::new_with(content);
        }
        proof {
            assert(!spec_sigma_path(mapping, chars));
            assert(head@ == chars.subrange(0, k));
            assert(rchars == chars.subrange(k, chars.len() as int));
            encode_utf8_valid_utf8(head@ + spec_map_chars(mapping, rchars));
        }
        Self::new_with(out)
    }

    /// The text with the ASCII mapping applied to every byte. A text that the mapping leaves
    /// alone is shared rather than copied.
    pub fn to_ascii_case(&self, mapping: CaseMapping) -> (r: Result<Self, ReserveError>)
        requires
            self.wf(),
        ensures
            r matches Ok(s) ==> s.wf() && s.view() == self.view().map_values(ascii_map_fn(mapping)),
            spec_keeps_ascii(mapping, self.view()) ==> r == Ok::<Self, ReserveError>(*self),
            self.view().len() <= MAX_INLINE_SIZE ==> r is Ok,
    {
        proof {
            self.lemma_valid();
        }
        let bytes = self.as_bytes();
        if !changes_ascii(bytes, mapping) {
            proof {
                assert(self.view().map_values(ascii_map_fn(mapping)) =~= self.view());
            }
            return Ok(self.make_shallow_clone());
        }
        let n = bytes.len();
        let mut out: Vec<u8> = Vec::new();
        let mut i: usize = 0;
        while i < n
            invariant
                i <= n,
                out@.len() == i,
            decreases n - i,
        {
            out.push(0);
            i = i + 1;
        }
        map_ascii(bytes, &mut out, mapping);
        proof {
            let chars = decode_utf8(bytes@);
            decode_utf8_encode_utf8(bytes@);
            lemma_map_ascii_encoding(chars, mapping);
            assert(out@ =~= bytes@.map_values(ascii_map_fn(mapping)));
            encode_utf8_valid_utf8(chars.map_values(ascii_char_map_fn(mapping)));
        }
        Self::new_with(out)
    }
}

impl Repr<GrowableHeader> {

    /// Applies the ASCII mapping to every byte in place. A text that the mapping leaves alone is
    /// not touched, so a shared or borrowed buffer stays as it is.
    pub fn make_ascii_case(&mut self, mapping: CaseMapping) -> (r: Result<(), ReserveError>)
        requires
            old(self).wf(),
        ensures
            final(self).wf(),
            r is Ok ==> final(self).view() == old(self).view().map_values(ascii_map_fn(mapping)),
            r is Err ==> final(self).view() == old(self).view(),
            spec_keeps_ascii(mapping, old(self).view()) ==> (r is Ok && *final(self) == *old(self)),
            *old(self) is Inline ==> r is Ok,
    {
        proof {
            self.lemma_valid();
        }
        if !changes_ascii(self.as_bytes(), mapping) {
            proof {
                assert(self.view().map_values(ascii_map_fn(mapping)) =~= self.view());
            }
            return Ok(());
        }
        self.ensure_modifiable()?;
        proof {
            self.lemma_capacity();
        }
        let bytes = self.as_bytes();
        let mut content: Vec<u8> = Vec::new();
        crate::repr::heap_buffer::extend_bytes(&mut content, bytes);
        map_ascii_in_place(&mut content, mapping);
        proof {
            let chars = decode_utf8(bytes@);
            decode_utf8_encode_utf8(bytes@);
            lemma_map_ascii_encoding(chars, mapping);
            assert(Seq::<u8>::empty() + bytes@ =~= bytes@);
            encode_utf8_valid_utf8(chars.map_values(ascii_char_map_fn(mapping)));
        }
        self.write_content(content);
        Ok(())
    }

    /// The number of bytes the buffer has room for without reallocating.
    pub open spec fn spec_capacity(self) -> nat {
        match self {
            Repr::Inline(_) => MAX_INLINE_SIZE as nat,
            Repr::Static(b) => b.view().len(),
            Repr::Heap(b) => b.spec_capacity(),
        }
    }

    /// True when the length of a heap buffer is stored on the heap, which happens on a 32-bit
    /// target only.
    pub open spec fn spec_len_on_heap(self) -> bool {
        match self {
            Repr::Heap(b) => b.spec_len_on_heap(),
            _ => false,
        }
    }

    /// Only a text longer than a length word holds keeps its length on the heap.
    pub proof fn lemma_len_on_heap(self)
        requires
            self.wf(),
        ensures
            self.spec_len_on_heap() ==> self.view().len() > Width::spec_native().spec_max_len(),
    {
        if let Repr::Heap(b) = self {
            b.lemma_wf();
        }
    }

    /// The text of a well-formed representation fits in its capacity.
    pub proof fn lemma_capacity(self)
        requires
            self.wf(),
        ensures
            self.view().len() <= self.spec_capacity(),
            self.spec_capacity() <= usize::MAX,
            valid_utf8(self.view()),
    {
        self.lemma_valid();
        match self {
            Repr::Heap(b) => b.lemma_wf(),
            Repr::Static(b) => b.lemma_len(),
            Repr::Inline(b) => b.lemma_last_byte(),
        }
    }

    /// An empty string with room for `capacity` bytes: inline when that fits, and in a new heap
    /// buffer otherwise.
    pub fn with_capacity(capacity: usize) -> (r: Result<Self, ReserveError>)
        ensures
            r matches Ok(s) ==> s.wf() && s.view() == Seq::<u8>::empty(),
            capacity <= MAX_INLINE_SIZE ==> (r matches Ok(s) && s is Inline),
            capacity > MAX_INLINE_SIZE ==> (r matches Ok(s) ==> s is Heap && s.spec_capacity()
                == capacity),
            capacity > MAX_INLINE_SIZE && !spec_heap_ok::<GrowableHeader>(capacity as nat)
                ==> r is Err,
    {
        if capacity <= MAX_INLINE_SIZE {
            Ok(Repr::new())
        } else {
            match HeapBuffer::<GrowableHeader>::with_capacity(capacity) {
                Ok(b) => Ok(Repr::from_heap(b)),
                Err(e) => Err(e),
            }
        }
    }

    /// The number of bytes the buffer has room for without reallocating.
    pub fn capacity(&self) -> (r: usize)
        requires
            self.wf(),
        ensures
            r == self.spec_capacity(),
    {
        match self {
            Repr::Heap(b) => b.capacity(),
            Repr::Static(b) => b.len(),
            Repr::Inline(_) => MAX_INLINE_SIZE,
        }
    }

    /// Makes room for at least `additional` more bytes, and makes the buffer writable: a static
    /// buffer is copied, and so is a shared heap buffer. A heap buffer grows at the amortized
    /// rate.
    pub fn reserve(&mut self, additional: usize) -> (r: Result<(), ReserveError>)
        requires
            old(self).wf(),
        ensures
            final(self).wf(),
            final(self).view() == old(self).view(),
            old(self).view().len() + additional > usize::MAX ==> r is Err,
            r is Ok ==> !(*final(self) is Static) && final(self).spec_capacity() >= old(self).view().len() + additional,
            r is Ok ==> (*final(self) == *old(self) || final(self).spec_capacity()
                == spec_amortized_growth(old(self).view().len(), additional as nat) || (*final(self) is Inline && *old(self) is Static)),
            r is Err ==> (final(self).spec_capacity() == old(self).spec_capacity() && (*final(self) is Heap <==> *old(self) is Heap) && (*final(self) is Static <==> *old(self) is Static)),
            *old(self) is Inline && old(self).view().len() + additional <= MAX_INLINE_SIZE ==> (r
                is Ok && *final(self) == *old(self)),
            *old(self) is Static && old(self).view().len() + additional <= MAX_INLINE_SIZE ==> (r
                is Ok && *final(self) is Inline),
            !(*old(self) is Heap) && old(self).view().len() + additional > MAX_INLINE_SIZE
                && !spec_heap_ok::<GrowableHeader>(
                spec_amortized_growth(old(self).view().len(), additional as nat),
            ) ==> r is Err,
            r is Ok && *old(self) is Heap ==> *final(self) is Heap && (final(self).spec_capacity()
                == old(self).spec_capacity() || final(self).spec_capacity()
                == spec_amortized_growth(old(self).view().len(), additional as nat)),
            r is Ok && *old(self) is Heap && old(self).view().len() + additional > old(
                self,
            ).spec_capacity() ==> final(self).spec_capacity() == spec_amortized_growth(
                old(self).view().len(),
                additional as nat,
            ),
            r is Ok && !(*old(self) is Heap) && old(self).view().len() + additional
                > MAX_INLINE_SIZE ==> *final(self) is Heap && final(self).spec_capacity()
                == spec_amortized_growth(old(self).view().len(), additional as nat),
    {
        proof {
            self.lemma_capacity();
        }
        let len = self.len();
        let needed = match len.checked_add(additional) {
            Some(n) => n,
            None => return Err(ReserveError),
        };
        let mut this = Repr::new();
        std::mem::swap(self, &mut this);
        match this {
            Repr::Heap(heap) => {
                proof {
                    heap.lemma_wf();
                }
                if heap.is_unique() {
                    if heap.capacity() >= needed {
                        *self = Repr::from_heap(heap);
                        return Ok(());
                    }
                    let amortized = heap_buffer::amortized_growth(len, additional);
                    match heap.realloc(amortized) {
                        Ok(h) => {
                            *self = Repr::from_heap(h);
                            Ok(())
                        },
                        Err((h, e)) => {
                            *self = Repr::from_heap(h);
                            Err(e)
                        },
                    }
                } else {
                    match HeapBuffer::<GrowableHeader>::with_additional(heap.as_bytes(), additional) {
                        Ok(h) => {
                            heap.release();
                            *self = Repr::from_heap(h);
                            Ok(())
                        },
                        Err(e) => {
                            *self = Repr::from_heap(heap);
                            Err(e)
                        },
                    }
                }
            },
            Repr::Static(b) => {
                proof {
                    encode_utf8_valid_utf8(b.as_str_spec()@);
                }
                if needed <= MAX_INLINE_SIZE {
                    *self = Repr::from_inline(InlineBuffer::new(b.as_str()));
                    Ok(())
                } else {
                    match HeapBuffer::<GrowableHeader>::with_additional(b.as_str().as_bytes(), additional) {
                        Ok(h) => {
                            *self = Repr::from_heap(h);
                            Ok(())
                        },
                        Err(e) => {
                            *self = Repr::from_static(b);
                            Err(e)
                        },
                    }
                }
            },
            Repr::Inline(b) => {
                if needed > MAX_INLINE_SIZE {
                    proof {
                        b.lemma_last_byte();
                    }
                    match HeapBuffer::<GrowableHeader>::with_additional(b.as_bytes(), additional) {
                        Ok(h) => {
                            *self = Repr::from_heap(h);
                            Ok(())
                        },
                        Err(e) => {
                            *self = Repr::from_inline(b);
                            Err(e)
                        },
                    }
                } else {
                    *self = Repr::from_inline(b);
                    Ok(())
                }
            },
        }
    }

    /// Replaces the text of a writable buffer with `content`, keeping the kind and the capacity.
    fn write_content(&mut self, content: Vec<u8>)
        requires
            old(self).wf(),
            !(*old(self) is Static),
            valid_utf8(content@),
            content@.len() <= old(self).spec_capacity(),
        ensures
            final(self).wf(),
            final(self).view() == content@,
            final(self).spec_capacity() == old(self).spec_capacity(),
            *final(self) is Heap <==> *old(self) is Heap,
            !(*final(self) is Static),
    {
        let mut this = Repr::new();
        std::mem::swap(self, &mut this);
        match this {
            Repr::Heap(heap) => {
                *self = Repr::from_heap(heap.replace_content(content));
            },
            Repr::Inline(_) => {
                *self = Repr::from_inline(InlineBuffer::from_utf8_bytes(content.as_slice()));
            },
            Repr::Static(b) => {
                *self = Repr::from_static(b);
            },
        }
    }

    /// Appends `string`.
    pub fn push_str(&mut self, string: &str) -> (r: Result<(), ReserveError>)
        requires
            old(self).wf(),
        ensures
            final(self).wf(),
            r is Ok ==> final(self).view() == old(self).view() + string.spec_bytes(),
            r is Err ==> final(self).view() == old(self).view(),
            old(self).view().len() + string.spec_bytes().len() > usize::MAX ==> r is Err,
            string.spec_bytes().len() == 0 ==> (r is Ok && *final(self) == *old(self)),
            *old(self) is Inline && old(self).view().len() + string.spec_bytes().len()
                <= MAX_INLINE_SIZE ==> (r is Ok && *final(self) is Inline),
            r is Ok && *old(self) is Heap ==> *final(self) is Heap && (final(self).spec_capacity()
                == old(self).spec_capacity() || final(self).spec_capacity()
                == spec_amortized_growth(old(self).view().len(), string.spec_bytes().len())),
            r is Ok && *old(self) is Heap && old(self).view().len() + string.spec_bytes().len()
                > old(self).spec_capacity() ==> final(self).spec_capacity()
                == spec_amortized_growth(old(self).view().len(), string.spec_bytes().len()),
            r is Ok && !(*old(self) is Heap) && string.spec_bytes().len() > 0 && old(self).view().len()
                + string.spec_bytes().len() > MAX_INLINE_SIZE ==> *final(self) is Heap && final(self).spec_capacity()
                == spec_amortized_growth(old(self).view().len(), string.spec_bytes().len()),
            *old(self) is Static && old(self).view().len() + string.spec_bytes().len()
                <= MAX_INLINE_SIZE ==> (r is Ok && !(*final(self) is Heap)),
            r is Err ==> old(self).view().len() + string.spec_bytes().len() > usize::MAX
                || *old(self) is Heap || old(self).view().len() + string.spec_bytes().len()
                > MAX_INLINE_SIZE,
    {
        let src = string.as_bytes();
        proof {
            encode_utf8_valid_utf8(string@);
            self.lemma_capacity();
        }
        if src.len() == 0 {
            return Ok(());
        }
        let len = self.len();
        let str_len = src.len();
        self.reserve(str_len)?;
        proof {
            self.lemma_capacity();
            valid_utf8_concat(self.view(), src@);
        }
        let mut this = Repr::new();
        std::mem::swap(self, &mut this);
        match this {
            Repr::Inline(mut b) => {
                proof {
                    b.lemma_last_byte();
                }
                b.write_at(len, src);
                assert(b.spec_bytes().subrange(0, (len + str_len) as int) =~= old(self).view()
                    + src@);
                b.set_len(len + str_len);
                *self = Repr::from_inline(b);
                Ok(())
            },
            Repr::Heap(heap) => {
                proof {
                    heap.lemma_wf();
                }
                match heap.push_bytes(src) {
                    Ok(h) => {
                        *self = Repr::from_heap(h);
                        Ok(())
                    },
                    Err((h, e)) => {
                        *self = Repr::from_heap(h);
                        Err(e)
                    },
                }
            },
            Repr::Static(b) => {
                *self = Repr::from_static(b);
                Ok(())
            },
        }
    }

    /// Shortens the text to its first `new_len` bytes. `new_len` must be a character boundary no
    /// greater than the length.
    pub fn truncate_unchecked(&mut self, new_len: usize) -> (r: Result<(), ReserveError>)
        requires
            old(self).wf(),
            new_len <= old(self).view().len(),
            is_char_boundary(old(self).view(), new_len as int),
        ensures
            final(self).wf(),
            r is Ok ==> final(self).view() == old(self).view().subrange(0, new_len as int),
            r is Err ==> final(self).view() == old(self).view(),
            !old(self).spec_len_on_heap() ==> r is Ok,
            !old(self).spec_len_on_heap() && *old(self) is Heap ==> *final(self) is Heap
                && final(self).spec_capacity() == old(self).spec_capacity(),
            *old(self) is Inline ==> *final(self) is Inline,
            *old(self) is Static ==> *final(self) is Static,
    {
        proof {
            self.lemma_capacity();
            valid_utf8_split(self.view(), new_len as int);
        }
        let mut this = Repr::new();
        std::mem::swap(self, &mut this);
        match this {
            Repr::Heap(mut heap) => {
                proof {
                    heap.lemma_wf();
                }
                if !heap.is_len_on_heap() {
                    heap.set_len(new_len);
                    *self = Repr::from_heap(heap);
                    Ok(())
                } else {
                    match heap.set_len_unique(new_len) {
                        Ok(h) => {
                            *self = Repr::from_heap(h);
                            Ok(())
                        },
                        Err(h) => {
                            let bytes = vstd::slice::slice_subrange(h.as_bytes(), 0, new_len);
                            match Repr::from_utf8_bytes(bytes) {
                                Ok(n) => {
                                    h.release();
                                    *self = n;
                                    Ok(())
                                },
                                Err(e) => {
                                    *self = Repr::from_heap(h);
                                    Err(e)
                                },
                            }
                        },
                    }
                }
            },
            Repr::Static(mut b) => {
                b.set_len(new_len);
                *self = Repr::from_static(b);
                Ok(())
            },
            Repr::Inline(mut b) => {
                proof {
                    b.lemma_last_byte();
                    assert(b.spec_bytes().subrange(0, new_len as int) =~= b.view().subrange(
                        0,
                        new_len as int,
                    ));
                }
                b.set_len(new_len);
                *self = Repr::from_inline(b);
                Ok(())
            },
        }
    }

    /// Shortens the text to its first `new_len` bytes; does nothing when `new_len` is not less
    /// than the length. `new_len` must then be a character boundary.
    pub fn truncate(&mut self, new_len: usize) -> (r: Result<(), ReserveError>)
        requires
            old(self).wf(),
            new_len >= old(self).view().len() || is_char_boundary(old(self).view(), new_len as int),
        ensures
            final(self).wf(),
            new_len >= old(self).view().len() ==> (r is Ok && *final(self) == *old(self)),
            r is Ok ==> final(self).view() == if new_len >= old(self).view().len() {
                old(self).view()
            } else {
                old(self).view().subrange(0, new_len as int)
            },
            r is Err ==> final(self).view() == old(self).view(),
            !old(self).spec_len_on_heap() ==> r is Ok,
    {
        if new_len >= self.len() {
            return Ok(());
        }
        self.truncate_unchecked(new_len)
    }

    /// Removes the last character and returns it, or `None` when the text is empty.
    pub fn pop(&mut self) -> (r: Result<Option<char>, ReserveError>)
        requires
            old(self).wf(),
        ensures
            final(self).wf(),
            old(self).view().len() == 0 ==> (r == Ok::<Option<char>, ReserveError>(None) && *final(self) == *old(self)),
            r matches Ok(None) ==> old(self).view().len() == 0,
            r matches Ok(Some(c)) ==> old(self).view() == final(self).view() + encode_scalar(
                c as u32,
            ) && decode_utf8(old(self).view()) == decode_utf8(final(self).view()).push(c),
            r is Err ==> final(self).view() == old(self).view(),
            !old(self).spec_len_on_heap() ==> r is Ok,
    {
        proof {
            self.lemma_capacity();
        }
        let bytes = self.as_bytes();
        if bytes.len() == 0 {
            return Ok(None);
        }
        let start = last_char_start(bytes);
        let (ch, w) = decode_char_at(bytes, start);
        proof {
            lemma_decode_at(bytes@, start as int);
            assert(bytes@.subrange(start + w, bytes@.len() as int) =~= Seq::<u8>::empty());
            assert(decode_utf8(Seq::<u8>::empty()) =~= Seq::<char>::empty());
            assert(bytes@ =~= bytes@.subrange(0, start as int) + encode_scalar(ch as u32));
            assert(decode_utf8(bytes@) =~= decode_utf8(bytes@.subrange(0, start as int)).push(
                ch,
            ));
        }
        self.truncate_unchecked(start)?;
        Ok(Some(ch))
    }

    /// Makes the buffer writable: copies a static buffer, and a heap buffer that other strings
    /// share.
    pub fn ensure_modifiable(&mut self) -> (r: Result<(), ReserveError>)
        requires
            old(self).wf(),
        ensures
            final(self).wf(),
            final(self).view() == old(self).view(),
            r is Ok ==> !(*final(self) is Static),
            r is Ok && *old(self) is Heap ==> *final(self) is Heap && (final(self).spec_capacity()
                == old(self).spec_capacity() || final(self).spec_capacity() == old(self).view().len()),
            r is Err ==> *final(self) == *old(self),
            *old(self) is Inline ==> (r is Ok && *final(self) == *old(self)),
            *old(self) is Static && old(self).view().len() <= MAX_INLINE_SIZE ==> (r is Ok
                && *final(self) is Inline),
    {
        let mut this = Repr::new();
        std::mem::swap(self, &mut this);
        match this {
            Repr::Heap(heap) => {
                proof {
                    heap.lemma_wf();
                }
                if !heap.is_unique() {
                    match HeapBuffer::<GrowableHeader>::from_utf8_bytes(heap.as_bytes()) {
                        Ok(h) => {
                            heap.release();
                            *self = Repr::from_heap(h);
                            Ok(())
                        },
                        Err(e) => {
                            *self = Repr::from_heap(heap);
                            Err(e)
                        },
                    }
                } else {
                    *self = Repr::from_heap(heap);
                    Ok(())
                }
            },
            Repr::Static(b) => {
                match Repr::from_str(b.as_str()) {
                    Ok(n) => {
                        *self = n;
                        Ok(())
                    },
                    Err(e) => {
                        *self = Repr::from_static(b);
                        Err(e)
                    },
                }
            },
            Repr::Inline(b) => {
                *self = Repr::from_inline(b);
                Ok(())
            },
        }
    }

    /// Removes the character that starts at byte `idx` and returns it. `idx` must be a character
    /// boundary before the end of the text.
    pub fn remove(&mut self, idx: usize) -> (r: Result<char, ReserveError>)
        requires
            old(self).wf(),
            idx < old(self).view().len(),
            is_char_boundary(old(self).view(), idx as int),
        ensures
            final(self).wf(),
            r matches Ok(c) ==> old(self).view().subrange(
                idx as int,
                idx + encode_scalar(c as u32).len(),
            ) == encode_scalar(c as u32) && final(self).view() == old(self).view().subrange(
                0,
                idx as int,
            ) + old(self).view().subrange(
                idx + encode_scalar(c as u32).len(),
                old(self).view().len() as int,
            ),
            r matches Ok(c) ==> decode_utf8(old(self).view()) == decode_utf8(
                old(self).view().subrange(0, idx as int),
            ) + seq![c] + decode_utf8(
                old(self).view().subrange(
                    idx + encode_scalar(c as u32).len(),
                    old(self).view().len() as int,
                ),
            ),
            r is Err ==> final(self).view() == old(self).view(),
            *old(self) is Inline ==> r is Ok,
            *old(self) is Static && old(self).view().len() <= MAX_INLINE_SIZE ==> r is Ok,
            r is Err ==> *old(self) is Heap || (*old(self) is Static && old(self).view().len()
                > MAX_INLINE_SIZE),
    {
        proof {
            self.lemma_capacity();
        }
        let bytes = self.as_bytes();
        let n = bytes.len();
        let (ch, w) = decode_char_at(bytes, idx);
        let mut content: Vec<u8> = Vec::new();
        crate::repr::heap_buffer::extend_bytes(
            &mut content,
            vstd::slice::slice_subrange(bytes, 0, idx),
        );
        crate::repr::heap_buffer::extend_bytes(
            &mut content,
            vstd::slice::slice_subrange(bytes, idx + w, n),
        );
        proof {
            lemma_decode_at(bytes@, idx as int);
            lemma_splice_valid(bytes@, idx as int, Seq::<u8>::empty(), (idx + w) as int);
            assert(bytes@.subrange(0, idx as int) + Seq::<u8>::empty() =~= bytes@.subrange(
                0,
                idx as int,
            ));
        }
        self.ensure_modifiable()?;
        proof {
            self.lemma_capacity();
        }
        self.write_content(content);
        Ok(ch)
    }

    /// Inserts `string` at byte `idx`, which must be a character boundary.
    pub fn insert_str(&mut self, idx: usize, string: &str) -> (r: Result<(), ReserveError>)
        requires
            old(self).wf(),
            idx <= old(self).view().len(),
            is_char_boundary(old(self).view(), idx as int),
        ensures
            final(self).wf(),
            r is Ok ==> final(self).view() == old(self).view().subrange(0, idx as int)
                + string.spec_bytes() + old(self).view().subrange(
                idx as int,
                old(self).view().len() as int,
            ),
            r is Err ==> final(self).view() == old(self).view(),
            old(self).view().len() + string.spec_bytes().len() > usize::MAX ==> r is Err,
            *old(self) is Inline && old(self).view().len() + string.spec_bytes().len()
                <= MAX_INLINE_SIZE ==> r is Ok,
    {
        proof {
            self.lemma_capacity();
            encode_utf8_valid_utf8(string@);
        }
        let src = string.as_bytes();
        let len = self.len();
        match len.checked_add(src.len()) {
            Some(_) => {},
            None => return Err(ReserveError),
        }
        self.reserve(src.len())?;
        proof {
            self.lemma_capacity();
        }
        let bytes = self.as_bytes();
        let mut content: Vec<u8> = Vec::new();
        crate::repr::heap_buffer::extend_bytes(
            &mut content,
            vstd::slice::slice_subrange(bytes, 0, idx),
        );
        crate::repr::heap_buffer::extend_bytes(&mut content, src);
        crate::repr::heap_buffer::extend_bytes(
            &mut content,
            vstd::slice::slice_subrange(bytes, idx, len),
        );
        proof {
            lemma_splice_valid(bytes@, idx as int, src@, idx as int);
        }
        self.write_content(content);
        Ok(())
    }

    /// Keeps only the characters for which `predicate` returns `true`.
    pub fn retain<F: Fn(char) -> bool>(&mut self, predicate: F) -> (r: Result<(), ReserveError>)
        requires
            old(self).wf(),
            forall|c: char| predicate.requires((c,)),
        ensures
            final(self).wf(),
            r is Ok ==> exists|keep: Seq<bool>|
                {
                    &&& keep.len() == decode_utf8(old(self).view()).len()
                    &&& forall|i: int|
                        0 <= i < keep.len() ==> predicate.ensures(
                            (decode_utf8(old(self).view())[i],),
                            #[trigger] keep[i],
                        )
                    &&& final(self).view() == encode_utf8(
                        spec_retained(decode_utf8(old(self).view()), keep),
                    )
                },
            r is Err ==> final(self).view() == old(self).view(),
            *old(self) is Inline ==> r is Ok,
            *old(self) is Static && old(self).view().len() <= MAX_INLINE_SIZE ==> r is Ok,
            r is Err ==> *old(self) is Heap || (*old(self) is Static && old(self).view().len()
                > MAX_INLINE_SIZE),
    {
        self.ensure_modifiable()?;
        proof {
            self.lemma_capacity();
        }
        let bytes = self.as_bytes();
        let n = bytes.len();
        let mut content: Vec<u8> = Vec::new();
        let mut i: usize = 0;
        let ghost chars = decode_utf8(bytes@);
        let ghost mut done: Seq<char> = Seq::empty();
        let ghost mut keep: Seq<bool> = Seq::empty();
        proof {
            is_char_boundary_start_end_of_seq(bytes@);
            assert(bytes@.subrange(0, n as int) =~= bytes@);
        }
        while i < n
            invariant
                n == bytes@.len(),
                i <= n,
                valid_utf8(bytes@),
                is_char_boundary(bytes@, i as int),
                valid_utf8(bytes@.subrange(i as int, n as int)),
                chars == decode_utf8(bytes@),
                chars == done + decode_utf8(bytes@.subrange(i as int, n as int)),
                keep.len() == done.len(),
                forall|j: int| 0 <= j < keep.len() ==> predicate.ensures((done[j],), #[trigger] keep[j]),
                content@ == encode_utf8(spec_retained(done, keep)),
                content@.len() <= i,
                forall|c: char| predicate.requires((c,)),
            decreases n - i,
        {
            let (ch, w) = decode_char_at(bytes, i);
            let b = predicate(ch);
            proof {
                let s = bytes@.subrange(i as int, n as int);
                assert(pop_first_scalar(s) =~= bytes@.subrange(i + w, n as int));
                assert(decode_utf8(s) =~= seq![ch] + decode_utf8(pop_first_scalar(s)));
                valid_utf8_split(bytes@, (i + w) as int);
                let done2 = done.push(ch);
                let keep2 = keep.push(b);
                assert(done2 + decode_utf8(bytes@.subrange(i + w, n as int)) =~= done
                    + decode_utf8(s));
                assert(done2.drop_last() =~= done);
                assert forall|j: int| 0 <= j < keep2.len() implies predicate.ensures(
                    (done2[j],),
                    #[trigger] keep2[j],
                ) by {
                    if j < keep.len() {
                        assert(done2[j] == done[j]);
                        assert(keep2[j] == keep[j]);
                    }
                }
                lemma_retained_prefix(done, keep, b);
            }
            if b {
                let (buf, m) = encode_char(ch);
                crate::repr::heap_buffer::extend_bytes(
                    &mut content,
                    vstd::slice::slice_subrange(buf.as_slice(), 0, m),
                );
                proof {
                    crate::chars::lemma_encode_utf8_push(spec_retained(done, keep), ch);
                }
            }
            proof {
                done = done.push(ch);
                keep = keep.push(b);
            }
            i = i + w;
        }
        proof {
            assert(bytes@.subrange(n as int, n as int) =~= Seq::<u8>::empty());
            assert(decode_utf8(Seq::<u8>::empty()) =~= Seq::<char>::empty());
            assert(done =~= chars);
            encode_utf8_valid_utf8(spec_retained(done, keep));
            self.lemma_capacity();
        }
        self.write_content(content);
        proof {
            assert(keep.len() == decode_utf8(old(self).view()).len());
        }
        Ok(())
    }
}

impl Repr<GrowableHeader> {
    /// Shrinks the capacity of a heap buffer to the larger of `min_capacity` and the length,
    /// moving the text inline when that fits. Other buffers are left as they are.
    pub fn shrink_to(&mut self, min_capacity: usize) -> (r: Result<(), ReserveError>)
        requires
            old(self).wf(),
        ensures
            final(self).wf(),
            final(self).view() == old(self).view(),
            !(*old(self) is Heap) ==> (r is Ok && *final(self) == *old(self)),
            r is Ok && *old(self) is Heap ==> ({
                let target = if old(self).view().len() > min_capacity {
                    old(self).view().len()
                } else {
                    min_capacity as nat
                };
                &&& target <= MAX_INLINE_SIZE ==> *final(self) is Inline
                &&& target > MAX_INLINE_SIZE && target >= old(self).spec_capacity() ==> *final(self)
                    == *old(self)
                &&& target > MAX_INLINE_SIZE && target < old(self).spec_capacity() ==> (
                *final(self) is Heap && final(self).spec_capacity() == target)
            }),
            r is Err ==> *final(self) is Heap && final(self).spec_capacity() == old(
                self,
            ).spec_capacity(),
            *old(self) is Heap && ({
                let target = if old(self).view().len() > min_capacity {
                    old(self).view().len()
                } else {
                    min_capacity as nat
                };
                target <= MAX_INLINE_SIZE || target >= old(self).spec_capacity()
            }) ==> r is Ok,
    {
        if !self.is_heap_buffer() {
            return Ok(());
        }
        let mut this = Repr::new();
        std::mem::swap(self, &mut this);
        match this {
            Repr::Heap(heap) => {
                proof {
                    heap.lemma_wf();
                }
                let len = heap.len();
                let new_capacity = heap_buffer::max(len, min_capacity);
                let old_capacity = heap.capacity();
                if new_capacity <= MAX_INLINE_SIZE {
                    let inline = InlineBuffer::from_utf8_bytes(heap.as_bytes());
                    heap.release();
                    *self = Repr::from_inline(inline);
                    Ok(())
                } else if new_capacity >= old_capacity {
                    *self = Repr::from_heap(heap);
                    Ok(())
                } else if heap.is_unique() {
                    match heap.realloc(new_capacity) {
                        Ok(h) => {
                            *self = Repr::from_heap(h);
                            Ok(())
                        },
                        Err((h, e)) => {
                            *self = Repr::from_heap(h);
                            Err(e)
                        },
                    }
                } else {
                    match HeapBuffer::<GrowableHeader>::with_exact_capacity(
                        heap.as_bytes(),
                        new_capacity,
                    ) {
                        Ok(h) => {
                            heap.release();
                            *self = Repr::from_heap(h);
                            Ok(())
                        },
                        Err(e) => {
                            *self = Repr::from_heap(heap);
                            Err(e)
                        },
                    }
                }
            },
            other => {
                *self = other;
                Ok(())
            },
        }
    }

    /// Turns the representation into that of an immutable string. A heap buffer that no other
    /// string shares is reused, or moved inline when its text fits; a shared one is copied. On
    /// failure the representation is handed back unchanged.
    pub fn into_immutable(self) -> (r: Result<ImmutableRepr, (Self, ReserveError)>)
        requires
            self.wf(),
        ensures
            r matches Ok(n) ==> n.wf() && n.view() == self.view(),
            r matches Err((s, _)) ==> s == self,
            self is Inline ==> (r matches Ok(n) && n is Inline),
            self is Static ==> (r matches Ok(n) && n is Static),
            self is Heap ==> (r matches Ok(n) ==> ((n is Inline <==> self.view().len()
                <= MAX_INLINE_SIZE) && (n is Heap <==> self.view().len() > MAX_INLINE_SIZE))),
            self is Heap && self.view().len() <= MAX_INLINE_SIZE ==> (r matches Ok(n)
                && n is Inline),
    {
        match self {
            Repr::Inline(b) => Ok(Repr::Inline(b)),
            Repr::Static(b) => Ok(Repr::Static(b)),
            Repr::Heap(heap) => {
                proof {
                    heap.lemma_wf();
                }
                if heap.is_unique() {
                    if heap.len() <= MAX_INLINE_SIZE {
                        let inline = InlineBuffer::from_utf8_bytes(heap.as_bytes());
                        heap.release();
                        Ok(Repr::Inline(inline))
                    } else {
                        match heap.into_exact() {
                            Ok(exact) => Ok(Repr::Heap(exact)),
                            Err((h, e)) => Err((Repr::Heap(h), e)),
                        }
                    }
                } else {
                    match Repr::<ExactHeader>::from_utf8_bytes(heap.as_bytes()) {
                        Ok(n) => {
                            heap.release();
                            Ok(n)
                        },
                        Err(e) => Err((Repr::Heap(heap), e)),
                    }
                }
            },
        }
    }
}

impl Repr<ExactHeader> {
    /// Turns the representation into that of a mutable string. A heap buffer that no other string
    /// shares is reused, and then has a capacity equal to its length; a shared one is copied. On
    /// failure the representation is handed back unchanged.
    pub fn into_mutable(self) -> (r: Result<MutableRepr, (Self, ReserveError)>)
        requires
            self.wf(),
        ensures
            r matches Ok(n) ==> n.wf() && n.view() == self.view(),
            r matches Err((s, _)) ==> s == self,
            self is Inline ==> (r matches Ok(n) && n is Inline),
            self is Static ==> (r matches Ok(n) && n is Static),
            self is Heap ==> (r matches Ok(n) ==> (n is Heap ==> n.spec_capacity()
                == self.view().len()) && (n is Inline ==> self.view().len() <= MAX_INLINE_SIZE)
                && !(n is Static)),
            self is Heap && !spec_layout_ok(GrowableHeader::spec_size(), self.view().len())
                ==> r is Err,
    {
        match self {
            Repr::Inline(b) => Ok(Repr::Inline(b)),
            Repr::Static(b) => Ok(Repr::Static(b)),
            Repr::Heap(heap) => {
                proof {
                    heap.lemma_wf();
                }
                proof {
                    if self.view().len() <= 64 {
                        crate::repr::num_to_repr::lemma_short_heap_ok::<GrowableHeader>(
                            self.view().len(),
                        );
                    }
                }
                if heap.is_unique() {
                    match heap.into_growable() {
                        Ok(growable) => Ok(Repr::Heap(growable)),
                        Err((h, e)) => Err((Repr::Heap(h), e)),
                    }
                } else {
                    match Repr::<GrowableHeader>::from_utf8_bytes(heap.as_bytes()) {
                        Ok(n) => {
                            proof {
                                n.lemma_capacity();
                            }
                            heap.release();
                            Ok(n)
                        },
                        Err(e) => Err((Repr::Heap(heap), e)),
                    }
                }
            },
        }
    }
}

/// Extending the characters and the choices by one.
proof fn lemma_retained_prefix(done: Seq<char>, keep: Seq<bool>, b: bool)
    requires
        keep.len() == done.len(),
    ensures
        forall|c: char|
            spec_retained(done.push(c), keep.push(b)) == if b {
                spec_retained(done, keep).push(c)
            } else {
                spec_retained(done, keep)
            },
{
    assert forall|c: char|
        spec_retained(done.push(c), keep.push(b)) == if b {
            spec_retained(done, keep).push(c)
        } else {
            spec_retained(done, keep)
        } by {
        let d2 = done.push(c);
        let k2 = keep.push(b);
        assert(d2.drop_last() =~= done);
        lemma_retained_extra_keep(done, keep, b);
    }
}

/// Choices past the end of the characters do not matter.
proof fn lemma_retained_extra_keep(chars: Seq<char>, keep: Seq<bool>, b: bool)
    requires
        keep.len() >= chars.len(),
    ensures
        spec_retained(chars, keep.push(b)) == spec_retained(chars, keep),
    decreases chars.len(),
{
    if chars.len() > 0 {
        lemma_retained_extra_keep(chars.drop_last(), keep, b);
        assert(keep.push(b)[chars.len() - 1] == keep[chars.len() - 1]);
    }
}

} // verus!
