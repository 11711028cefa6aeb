//! Case mapping of text: the ASCII fast paths, which work on bytes a chunk at a time, and the
//! search for the first character that a full Unicode case mapping changes.
use vstd::prelude::*;
use vstd::string::*;
use vstd::utf8::*;

use crate::chars::decode_char_at;
use crate::std_glue::{
    char_to_lowercase, char_to_uppercase, lowercase_chars, lowercase_text, uppercase_chars,
};

verus! {

/// The number of bytes examined together: the width of a 128-bit vector register, which most
/// targets have.
pub const CHUNK_SIZE: usize = 16;

/// An ASCII uppercase letter, `A` to `Z`.
pub open spec fn spec_is_ascii_uppercase(byte: u8) -> bool {
    0x41 <= byte <= 0x5a
}

/// An ASCII lowercase letter, `a` to `z`.
pub open spec fn spec_is_ascii_lowercase(byte: u8) -> bool {
    0x61 <= byte <= 0x7a
}

/// The length of the longest prefix of `bytes` whose bytes all satisfy `p`.
pub open spec fn spec_prefix_len(bytes: Seq<u8>, p: spec_fn(u8) -> bool) -> nat
    decreases bytes.len(),
{
    if bytes.len() == 0 || !p(bytes[0]) {
        0
    } else {
        1 + spec_prefix_len(bytes.drop_first(), p)
    }
}

/// `r` is the length of the longest prefix of `bytes` whose bytes all satisfy `p`.
pub open spec fn is_prefix_len(bytes: Seq<u8>, p: spec_fn(u8) -> bool, r: int) -> bool {
    &&& 0 <= r <= bytes.len()
    &&& forall|i: int| 0 <= i < r ==> #[trigger] p(bytes[i])
    &&& r < bytes.len() ==> !p(bytes[r])
}

/// The ASCII mapping changes no byte of `bytes`.
pub open spec fn spec_keeps_ascii(mapping: CaseMapping, bytes: Seq<u8>) -> bool {
    forall|i: int| 0 <= i < bytes.len() ==> !mapping.spec_changes_ascii(#[trigger] bytes[i])
}

/// The ASCII mapping, as a function on bytes.
pub open spec fn ascii_map_fn(mapping: CaseMapping) -> spec_fn(u8) -> u8 {
    |b: u8| mapping.spec_map_ascii(b)
}

/// The ASCII mapping of a character: an ASCII letter of the other case is mapped, any other
/// character stays.
pub open spec fn spec_map_ascii_char(mapping: CaseMapping, c: char) -> char {
    if (c as u32) < 0x80 {
        mapping.spec_map_ascii((c as u32) as u8) as char
    } else {
        c
    }
}

/// The ASCII mapping, as a function on characters.
pub open spec fn ascii_char_map_fn(mapping: CaseMapping) -> spec_fn(char) -> char {
    |c: char| spec_map_ascii_char(mapping, c)
}

/// A byte below `0x80`.
pub open spec fn spec_is_ascii(byte: u8) -> bool {
    byte < 0x80
}

/// The predicate of an ASCII byte.
pub open spec fn ascii_pred() -> spec_fn(u8) -> bool {
    |b: u8| spec_is_ascii(b)
}

/// Which case a text is mapped to.
#[derive(Clone, Copy, Debug, PartialEq, Eq)]
pub enum CaseMapping {
    /// To lowercase.
    ToLower,
    /// To uppercase.
    ToUpper,
}

impl CaseMapping {
    /// The ASCII mapping changes `byte`: it is a letter of the other case.
    pub open spec fn spec_changes_ascii(self, byte: u8) -> bool {
        match self {
            CaseMapping::ToLower => spec_is_ascii_uppercase(byte),
            CaseMapping::ToUpper => spec_is_ascii_lowercase(byte),
        }
    }

    /// The ASCII mapping of `byte`: a letter of the other case moves by `0x20`, any other byte
    /// stays.
    pub open spec fn spec_map_ascii(self, byte: u8) -> u8 {
        if self.spec_changes_ascii(byte) {
            match self {
                CaseMapping::ToLower => (byte + 0x20) as u8,
                CaseMapping::ToUpper => (byte - 0x20) as u8,
            }
        } else {
            byte
        }
    }

    /// The characters that the full Unicode mapping gives for `ch`.
    pub open spec fn spec_mapped_chars(self, ch: char) -> Seq<char> {
        match self {
            CaseMapping::ToLower => lowercase_chars(ch),
            CaseMapping::ToUpper => uppercase_chars(ch),
        }
    }

    /// The full Unicode mapping changes `ch`: it does not map `ch` to exactly `ch`.
    pub open spec fn spec_changes(self, ch: char) -> bool {
        self.spec_mapped_chars(ch) != seq![ch]
    }

    /// Whether the ASCII mapping changes `byte`.
    pub fn changes_ascii(self, byte: u8) -> (r: bool)
        ensures
            r == self.spec_changes_ascii(byte),
    {
        match self {
            CaseMapping::ToLower => 0x41 <= byte && byte <= 0x5a,
            CaseMapping::ToUpper => 0x61 <= byte && byte <= 0x7a,
        }
    }

    /// The ASCII mapping of `byte`.
    pub fn map_ascii(self, byte: u8) -> (r: u8)
        ensures
            r == self.spec_map_ascii(byte),
    {
        if self.changes_ascii(byte) {
            match self {
                CaseMapping::ToLower => byte + 0x20,
                CaseMapping::ToUpper => byte - 0x20,
            }
        } else {
            byte
        }
    }

    /// Whether the full Unicode mapping changes `ch`. A `char` unchanged by the mapping maps to
    /// exactly that `char`.
    pub fn changes(self, ch: char) -> (r: bool)
        ensures
            r == self.spec_changes(ch),
    {
        let mapped = match self {
            CaseMapping::ToLower => char_to_lowercase(ch),
            CaseMapping::ToUpper => char_to_uppercase(ch),
        };
        let same = mapped.len() == 1 && mapped[0] == ch;
        proof {
            if same {
                assert(mapped@ =~= seq![ch]);
            }
        }
        !same
    }
}

/// Whether every byte of a chunk satisfies `pred`. Unlike a search that stops at the first
/// failure, every byte is examined and the results are counted, so that the bytes of a chunk can
/// be processed together.
fn all_bytes<F: Fn(u8) -> bool>(chunk: &[u8], pred: &F, Ghost(p): Ghost<spec_fn(u8) -> bool>) -> (r:
    bool)
    requires
        chunk@.len() == CHUNK_SIZE,
        forall|b: u8| #[trigger] pred.requires((b,)),
        forall|b: u8, x: bool| pred.ensures((b,), x) ==> x == p(b),
    ensures
        r == forall|i: int| 0 <= i < CHUNK_SIZE ==> #[trigger] p(chunk@[i]),
{
    let mut sum: u8 = 0;
    let mut i: usize = 0;
    while i < CHUNK_SIZE
        invariant
            chunk@.len() == CHUNK_SIZE,
            i <= CHUNK_SIZE,
            sum <= i,
            forall|b: u8| #[trigger] pred.requires((b,)),
            forall|b: u8, x: bool| pred.ensures((b,), x) ==> x == p(b),
            (sum == i) == forall|j: int| 0 <= j < i ==> #[trigger] p(chunk@[j]),
        decreases CHUNK_SIZE - i,
    {
        let ok = pred(chunk[i]);
        if ok {
            sum = sum + 1;
        }
        proof {
            if !ok {
                assert(!p(chunk@[i as int]));
            }
        }
        i = i + 1;
    }
    sum as usize == CHUNK_SIZE
}

/// The length of the longest prefix of `bytes[start..end]` whose bytes satisfy `pred`, found
/// byte by byte.
fn count_while<F: Fn(u8) -> bool>(
    bytes: &[u8],
    start: usize,
    end: usize,
    pred: &F,
    Ghost(p): Ghost<spec_fn(u8) -> bool>,
) -> (r: usize)
    requires
        start <= end <= bytes@.len(),
        forall|b: u8| #[trigger] pred.requires((b,)),
        forall|b: u8, x: bool| pred.ensures((b,), x) ==> x == p(b),
    ensures
        is_prefix_len(bytes@.subrange(start as int, end as int), p, r as int),
{
    let mut k: usize = start;
    while k < end
        invariant
            start <= k <= end <= bytes@.len(),
            forall|b: u8| #[trigger] pred.requires((b,)),
            forall|b: u8, x: bool| pred.ensures((b,), x) ==> x == p(b),
            forall|i: int| start <= i < k ==> #[trigger] p(bytes@[i]),
        ensures
            start <= k <= end,
            forall|i: int| start <= i < k ==> #[trigger] p(bytes@[i]),
            k < end ==> !p(bytes@[k as int]),
        decreases end - k,
    {
        if !pred(bytes[k]) {
            break;
        }
        k = k + 1;
    }
    proof {
        let s = bytes@.subrange(start as int, end as int);
        assert forall|i: int| 0 <= i < k - start implies #[trigger] p(s[i]) by {
            assert(s[i] == bytes@[start + i]);
        }
        if k < end {
            assert(s[k - start] == bytes@[k as int]);
        }
    }
    k - start
}

/// The length of the longest prefix of `bytes` whose bytes satisfy `pred`, examined a chunk at a
/// time.
fn prefix_len_while<F: Fn(u8) -> bool>(
    bytes: &[u8],
    pred: F,
    Ghost(p): Ghost<spec_fn(u8) -> bool>,
) -> (r: usize)
    requires
        forall|b: u8| #[trigger] pred.requires((b,)),
        forall|b: u8, x: bool| pred.ensures((b,), x) ==> x == p(b),
    ensures
        is_prefix_len(bytes@, p, r as int),
{
    let n = bytes.len();
    let mut len: usize = 0;
    while CHUNK_SIZE <= n - len
        invariant
            n == bytes@.len(),
            len <= n,
            forall|b: u8| #[trigger] pred.requires((b,)),
            forall|b: u8, x: bool| pred.ensures((b,), x) ==> x == p(b),
            forall|i: int| 0 <= i < len ==> #[trigger] p(bytes@[i]),
        decreases n - len,
    {
        let chunk = vstd::slice::slice_subrange(bytes, len, len + CHUNK_SIZE);
        if !all_bytes(chunk, &pred, Ghost(p)) {
            let k = count_while(bytes, len, len + CHUNK_SIZE, &pred, Ghost(p));
            proof {
                let s = bytes@.subrange(len as int, len + CHUNK_SIZE);
                assert(k < CHUNK_SIZE) by {
                    if k == CHUNK_SIZE {
                        assert forall|i: int| 0 <= i < CHUNK_SIZE implies #[trigger] p(
                            chunk@[i],
                        ) by {
                            assert(chunk@[i] == s[i]);
                        }
                    }
                }
                assert forall|i: int| 0 <= i < len + k implies #[trigger] p(bytes@[i]) by {
                    if i >= len {
                        assert(s[i - len] == bytes@[i]);
                    }
                }
                assert(s[k as int] == bytes@[len + k]);
            }
            return len + k;
        }
        proof {
            assert forall|i: int| 0 <= i < len + CHUNK_SIZE implies #[trigger] p(bytes@[i]) by {
                if i >= len {
                    assert(chunk@[i - len] == bytes@[i]);
                }
            }
        }
        len = len + CHUNK_SIZE;
    }
    let k = count_while(bytes, len, n, &pred, Ghost(p));
    proof {
        let s = bytes@.subrange(len as int, n as int);
        assert forall|i: int| 0 <= i < len + k implies #[trigger] p(bytes@[i]) by {
            if i >= len {
                assert(s[i - len] == bytes@[i]);
            }
        }
        if len + k < n {
            assert(s[k as int] == bytes@[len + k]);
        }
    }
    len + k
}

/// Whether the ASCII mapping changes any byte of `bytes`.
pub fn changes_ascii(bytes: &[u8], mapping: CaseMapping) -> (r: bool)
    ensures
        r == exists|i: int| 0 <= i < bytes@.len() && mapping.spec_changes_ascii(#[trigger] bytes@[i]),
{
    let pred = |b: u8| -> (x: bool)
        ensures
            x == !mapping.spec_changes_ascii(b),
        { !mapping.changes_ascii(b) };
    let ghost p = |b: u8| !mapping.spec_changes_ascii(b);
    let k = prefix_len_while(bytes, pred, Ghost(p));
    proof {
        if k < bytes@.len() {
            assert(mapping.spec_changes_ascii(bytes@[k as int]));
        } else {
            assert forall|i: int| 0 <= i < bytes@.len() implies !mapping.spec_changes_ascii(
                #[trigger] bytes@[i],
            ) by {
                assert(p(bytes@[i]));
            }
        }
    }
    k < bytes.len()
}

/// Writes the ASCII mapping of `src` into `dst`, as far as both reach.
pub fn map_ascii(src: &[u8], dst: &mut Vec<u8>, mapping: CaseMapping)
    ensures
        final(dst)@.len() == old(dst)@.len(),
        forall|i: int|
            0 <= i < final(dst)@.len() ==> #[trigger] final(dst)@[i] == if i < src@.len() {
                mapping.spec_map_ascii(src@[i])
            } else {
                old(dst)@[i]
            },
{
    let n = if src.len() < dst.len() {
        src.len()
    } else {
        dst.len()
    };
    let mut i: usize = 0;
    while i < n
        invariant
            n <= src@.len(),
            n <= old(dst)@.len(),
            n == src@.len() || n == old(dst)@.len(),
            i <= n,
            dst@.len() == old(dst)@.len(),
            forall|j: int|
                0 <= j < dst@.len() ==> #[trigger] dst@[j] == if j < i {
                    mapping.spec_map_ascii(src@[j])
                } else {
                    old(dst)@[j]
                },
        decreases n - i,
    {
        dst.set(i, mapping.map_ascii(src[i]));
        i = i + 1;
    }
}

/// Applies the ASCII mapping to every byte of `bytes`.
pub fn map_ascii_in_place(bytes: &mut Vec<u8>, mapping: CaseMapping)
    ensures
        final(bytes)@ == old(bytes)@.map_values(ascii_map_fn(mapping)),
{
    let n = bytes.len();
    let mut i: usize = 0;
    while i < n
        invariant
            n == old(bytes)@.len(),
            i <= n,
            bytes@.len() == n,
            forall|j: int|
                0 <= j < n ==> #[trigger] bytes@[j] == if j < i {
                    mapping.spec_map_ascii(old(bytes)@[j])
                } else {
                    old(bytes)@[j]
                },
        decreases n - i,
    {
        let b = bytes[i];
        bytes.set(i, mapping.map_ascii(b));
        i = i + 1;
    }
    proof {
        assert(bytes@ =~= old(bytes)@.map_values(ascii_map_fn(mapping)));
    }
}

/// Mapping every byte of the encoding of a text by the ASCII mapping gives the encoding of the
/// text with each character mapped: the bytes of a character that is not ASCII are all `0x80`
/// or above, and stay.
pub proof fn lemma_map_ascii_encoding(chars: Seq<char>, mapping: CaseMapping)
    ensures
        encode_utf8(chars).map_values(ascii_map_fn(mapping)) == encode_utf8(
            chars.map_values(ascii_char_map_fn(mapping)),
        ),
    decreases chars.len(),
{
    let f = ascii_map_fn(mapping);
    let g = ascii_char_map_fn(mapping);
    if chars.len() == 0 {
        assert(encode_utf8(chars).map_values(f) =~= Seq::<u8>::empty());
        assert(chars.map_values(g) =~= Seq::<char>::empty());
    } else {
        let c = chars[0];
        let rest = chars.drop_first();
        lemma_map_ascii_encoding(rest, mapping);
        let e = encode_scalar(c as u32);
        char_is_scalar(c);
        assert(encode_utf8(chars) == e + encode_utf8(rest));
        assert(encode_utf8(chars).map_values(f) =~= e.map_values(f) + encode_utf8(rest).map_values(
            f,
        ));
        let m = g(c);
        assert(chars.map_values(g) =~= seq![m] + rest.map_values(g));
        assert(chars.map_values(g)[0] == m);
        assert(chars.map_values(g).drop_first() =~= rest.map_values(g));
        assert(encode_utf8(chars.map_values(g)) == encode_scalar(m as u32) + encode_utf8(
            rest.map_values(g),
        ));
        let v = c as u32;
        if v < 0x80 {
            let b = v as u8;
            assert((v & 0x7F) as u8 == b) by (bit_vector)
                requires
                    v < 0x80,
                    b == v as u8,
            ;
            let mb = mapping.spec_map_ascii(b);
            assert(mb < 0x80);
            let mv = (mb as char) as u32;
            assert(mv == mb as u32);
            assert((mv & 0x7F) as u8 == mb) by (bit_vector)
                requires
                    mv < 0x80,
                    mv == mb as u32,
            ;
            assert(m == mb as char);
            assert(has_width_1_encoding(v));
            assert(e =~= seq![b]);
            assert(has_width_1_encoding(m as u32));
            assert(encode_scalar(m as u32) =~= seq![mb]);
            assert(e.map_values(f) =~= encode_scalar(m as u32));
        } else {
            assert forall|i: int| 0 <= i < e.len() implies #[trigger] e[i] >= 0x80 by {
                crate::chars::lemma_leading_byte_high(v);
                lemma_continuation_bytes_high(v);
            }
            assert(e.map_values(f) =~= e);
        }
    }
}

/// The continuation bytes of an encoding are `0x80` or above.
proof fn lemma_continuation_bytes_high(v: u32)
    requires
        is_scalar(v),
        v >= 0x80,
    ensures
        forall|i: int| 1 <= i < encode_scalar(v).len() ==> #[trigger] encode_scalar(v)[i] >= 0x80,
{
    let a = (v & 0x3F) as u8;
    let b = ((v >> 6) & 0x3F) as u8;
    let c = ((v >> 12) & 0x3F) as u8;
    assert(0x80u8 | a >= 0x80u8) by (bit_vector);
    assert(0x80u8 | b >= 0x80u8) by (bit_vector);
    assert(0x80u8 | c >= 0x80u8) by (bit_vector);
}


/// The position of the first character of `text` that the full mapping changes, the search
/// starting after the longest prefix of ASCII bytes that the ASCII mapping leaves alone.
pub open spec fn spec_first_change(text: Seq<char>, start: int, mapping: CaseMapping, k: int) -> bool {
    &&& start <= k < text.len()
    &&& mapping.spec_changes(text[k])
    &&& forall|j: int| start <= j < k ==> !mapping.spec_changes(#[trigger] text[j])
}

/// The characters that the mapping gives for `c` one character at a time: an ASCII character
/// by the ASCII mapping, any other by the full Unicode mapping.
pub open spec fn spec_map_char(mapping: CaseMapping, c: char) -> Seq<char> {
    if (c as u32) < 0x80 {
        seq![spec_map_ascii_char(mapping, c)]
    } else {
        mapping.spec_mapped_chars(c)
    }
}

/// The characters that the mapping gives for `chars`, one character at a time.
pub open spec fn spec_map_chars(mapping: CaseMapping, chars: Seq<char>) -> Seq<char>
    decreases chars.len(),
{
    if chars.len() == 0 {
        Seq::empty()
    } else {
        spec_map_chars(mapping, chars.drop_last()) + spec_map_char(mapping, chars.last())
    }
}

/// The number of ASCII bytes at the front of the text that the ASCII mapping leaves alone.
pub open spec fn spec_skip(mapping: CaseMapping, chars: Seq<char>) -> int {
    spec_prefix_len(encode_utf8(chars), unchanged_ascii_pred(mapping)) as int
}

/// Some character after the skipped ASCII bytes is changed by the full mapping.
pub open spec fn spec_has_change(mapping: CaseMapping, chars: Seq<char>) -> bool {
    exists|k: int| spec_first_change(chars, spec_skip(mapping, chars), mapping, k)
}

/// The position of the first character after the skipped ASCII bytes that the full mapping
/// changes.
pub open spec fn spec_change_at(mapping: CaseMapping, chars: Seq<char>) -> int {
    choose|k: int| spec_first_change(chars, spec_skip(mapping, chars), mapping, k)
}

/// The capital sigma, whose lowercase form depends on the characters round it.
pub open spec fn capital_sigma() -> char {
    '\u{03A3}'
}

/// The text mapped to the case: unchanged when no character changes; otherwise the characters
/// before the first change stay and the rest is mapped one character at a time, except that a
/// lowercase mapping of a rest that holds a capital sigma is that of `str::to_lowercase` for the
/// whole text.
pub open spec fn spec_case_text(mapping: CaseMapping, chars: Seq<char>) -> Seq<char> {
    if !spec_has_change(mapping, chars) {
        chars
    } else {
        let k = spec_change_at(mapping, chars);
        let rest = chars.subrange(k, chars.len() as int);
        if spec_sigma_path(mapping, chars) {
            lowercase_text(chars)
        } else {
            chars.subrange(0, k) + spec_map_chars(mapping, rest)
        }
    }
}

/// The lowercase mapping of the text goes through `str::to_lowercase`: the characters from the
/// first change on hold a capital sigma.
pub open spec fn spec_sigma_path(mapping: CaseMapping, chars: Seq<char>) -> bool {
    &&& spec_has_change(mapping, chars)
    &&& mapping == CaseMapping::ToLower
    &&& chars.subrange(spec_change_at(mapping, chars), chars.len() as int).contains(capital_sigma())
}

/// The first change is unique.
pub proof fn lemma_first_change_unique(chars: Seq<char>, start: int, mapping: CaseMapping, k: int)
    requires
        spec_first_change(chars, start, mapping, k),
    ensures
        spec_has_change_from(chars, start, mapping),
        (choose|j: int| spec_first_change(chars, start, mapping, j)) == k,
{
    let j = choose|j: int| spec_first_change(chars, start, mapping, j);
    assert(spec_first_change(chars, start, mapping, j));
    if j < k {
        assert(!mapping.spec_changes(chars[j]));
    } else if k < j {
        assert(!mapping.spec_changes(chars[k]));
    }
}

/// Some character from `start` on is changed by the full mapping.
pub open spec fn spec_has_change_from(chars: Seq<char>, start: int, mapping: CaseMapping) -> bool {
    exists|k: int| spec_first_change(chars, start, mapping, k)
}


/// A byte that the ASCII path leaves alone: an ASCII byte that the ASCII mapping does not change.
pub open spec fn spec_unchanged_ascii(mapping: CaseMapping, byte: u8) -> bool {
    spec_is_ascii(byte) && !mapping.spec_changes_ascii(byte)
}

/// The predicate of a byte that the ASCII path leaves alone.
pub open spec fn unchanged_ascii_pred(mapping: CaseMapping) -> spec_fn(u8) -> bool {
    |b: u8| spec_unchanged_ascii(mapping, b)
}

/// Splits `text` before its first character that the full mapping changes, if there is one. The
/// ASCII bytes at the front that the ASCII mapping leaves alone are passed over first.
pub fn split_at_change(text: &str, mapping: CaseMapping) -> (r: Option<(&str, &str)>)
    ensures
        ({
            let start = spec_prefix_len(text.spec_bytes(), unchanged_ascii_pred(mapping));
            &&& r is None <==> forall|j: int|
                start <= j < text@.len() ==> !mapping.spec_changes(#[trigger] text@[j])
            &&& r matches Some((a, b)) ==> exists|k: int|
                spec_first_change(text@, start as int, mapping, k) && a@ == text@.subrange(0, k)
                    && b@ == text@.subrange(k, text@.len() as int)
        }),
{
    let bytes = text.as_bytes();
    let ghost p = unchanged_ascii_pred(mapping);
    let pred = |b: u8| -> (x: bool)
        ensures
            x == spec_unchanged_ascii(mapping, b),
        { b < 0x80 && !mapping.changes_ascii(b) };
    let start = prefix_len_while(bytes, pred, Ghost(p));
    let n = bytes.len();
    proof {
        lemma_prefix_len_unique(bytes@, p, start as int);
        assert forall|i: int| 0 <= i < start implies #[trigger] bytes@[i] < 0x80 by {
            assert(p(bytes@[i]));
        }
        lemma_ascii_prefix_chars(text@, start as int, p);
        encode_utf8_decode_utf8(text@.subrange(0, start as int));
        encode_utf8_decode_utf8(text@.subrange(start as int, text@.len() as int));
        crate::chars::lemma_boundary_at(text@, start as int);
    }
    let ghost chars = text@;
    let mut i: usize = start;
    let ghost mut ci: int = start as int;
    proof {
        encode_utf8_valid_utf8(text@);
        encode_utf8_decode_utf8(text@);
        is_char_boundary_start_end_of_seq(bytes@);
    }
    while i < n
        invariant
            n == bytes@.len(),
            bytes@ == encode_utf8(chars),
            bytes@ == text.spec_bytes(),
            spec_prefix_len(text.spec_bytes(), unchanged_ascii_pred(mapping)) == start,
            chars == text@,
            start <= i <= n,
            start <= ci <= chars.len(),
            valid_utf8(bytes@),
            is_char_boundary(bytes@, i as int),
            decode_utf8(bytes@.subrange(0, i as int)) == chars.subrange(0, ci),
            decode_utf8(bytes@.subrange(i as int, n as int)) == chars.subrange(ci, chars.len() as int),
            forall|j: int| start <= j < ci ==> !mapping.spec_changes(#[trigger] chars[j]),
        decreases n - i,
    {
        let (ch, w) = decode_char_at(bytes, i);
        proof {
            lemma_step_char(bytes@, i as int, ch, w as int, chars, ci);
        }
        if mapping.changes(ch) {
            let (a, b) = text.split_at(i);
            proof {
                encode_utf8_decode_utf8(a@);
                encode_utf8_decode_utf8(b@);
                assert(a@ == chars.subrange(0, ci));
                assert(b@ == chars.subrange(ci, chars.len() as int));
                assert(spec_first_change(chars, start as int, mapping, ci));
                assert(mapping.spec_changes(text@[ci]));
                assert(exists|k: int|
                    spec_first_change(text@, start as int, mapping, k) && a@ == text@.subrange(0, k)
                        && b@ == text@.subrange(k, text@.len() as int));
            }
            return Some((a, b));
        }
        i = i + w;
        proof {
            ci = ci + 1;
        }
    }
    proof {
        assert(bytes@.subrange(n as int, n as int) =~= Seq::<u8>::empty());
        assert(decode_utf8(Seq::<u8>::empty()) =~= Seq::<char>::empty());
    }
    None
}

/// Stepping over the character `c` of `w` bytes at byte `i`, the `ci`-th character of the text.
pub proof fn lemma_step_char(bytes: Seq<u8>, i: int, c: char, w: int, chars: Seq<char>, ci: int)
    requires
        valid_utf8(bytes),
        is_char_boundary(bytes, i),
        0 <= i,
        i + w <= bytes.len(),
        w == length_of_first_scalar(bytes.subrange(i, bytes.len() as int)),
        c == decode_first_scalar(bytes.subrange(i, bytes.len() as int)) as char,
        encode_scalar(c as u32) == bytes.subrange(i, i + w),
        0 <= ci <= chars.len(),
        decode_utf8(bytes.subrange(0, i)) == chars.subrange(0, ci),
        decode_utf8(bytes.subrange(i, bytes.len() as int)) == chars.subrange(ci, chars.len() as int),
    ensures
        ci < chars.len(),
        chars[ci] == c,
        decode_utf8(bytes.subrange(0, i + w)) == chars.subrange(0, ci + 1),
        decode_utf8(bytes.subrange(i + w, bytes.len() as int)) == chars.subrange(
            ci + 1,
            chars.len() as int,
        ),
{
    let s = bytes.subrange(i, bytes.len() as int);
    crate::chars::lemma_scalar_at(bytes, i);
    valid_utf8_split(bytes, i);
    assert(pop_first_scalar(s) =~= bytes.subrange(i + w, bytes.len() as int));
    assert(decode_utf8(s) =~= seq![c] + decode_utf8(pop_first_scalar(s)));
    assert(chars.subrange(ci, chars.len() as int)[0] == c);
    assert(chars.subrange(ci + 1, chars.len() as int) =~= chars.subrange(
        ci,
        chars.len() as int,
    ).drop_first());
    let head = chars.subrange(0, ci);
    decode_utf8_encode_utf8(bytes.subrange(0, i));
    crate::chars::lemma_encode_utf8_push(head, c);
    assert(bytes.subrange(0, i + w) =~= bytes.subrange(0, i) + bytes.subrange(i, i + w));
    assert(chars.subrange(0, ci + 1) =~= head.push(c));
    encode_utf8_decode_utf8(head.push(c));
}

/// The longest prefix is unique: any `r` with the property is the recursive count.
proof fn lemma_prefix_len_unique(bytes: Seq<u8>, p: spec_fn(u8) -> bool, r: int)
    requires
        is_prefix_len(bytes, p, r),
    ensures
        spec_prefix_len(bytes, p) == r,
    decreases bytes.len(),
{
    if bytes.len() > 0 && p(bytes[0]) {
        let rest = bytes.drop_first();
        assert(is_prefix_len(rest, p, r - 1)) by {
            assert forall|i: int| 0 <= i < r - 1 implies #[trigger] p(rest[i]) by {
                assert(rest[i] == bytes[i + 1]);
            }
            if r - 1 < rest.len() {
                assert(rest[r - 1] == bytes[r]);
            }
        }
        lemma_prefix_len_unique(rest, p, r - 1);
    }
}

/// A prefix of ASCII bytes of an encoded text is the encoding of as many characters, and splits
/// the text there.
proof fn lemma_ascii_prefix_chars(chars: Seq<char>, k: int, p: spec_fn(u8) -> bool)
    requires
        0 <= k <= encode_utf8(chars).len(),
        forall|i: int| 0 <= i < k ==> #[trigger] encode_utf8(chars)[i] < 0x80,
    ensures
        k <= chars.len(),
        encode_utf8(chars).subrange(0, k) == encode_utf8(chars.subrange(0, k)),
        encode_utf8(chars).subrange(k, encode_utf8(chars).len() as int) == encode_utf8(
            chars.subrange(k, chars.len() as int),
        ),
    decreases k,
{
    if k > 0 {
        let first = chars[0];
        let rest = chars.drop_first();
        assert(chars =~= seq![first] + rest);
        crate::chars::lemma_encode_utf8_concat(seq![first], rest);
        crate::chars::lemma_encode_utf8_single(first);
        crate::chars::lemma_encode_scalar_len(first);
        let bytes = encode_utf8(chars);
        assert(chars.len() > 0) by {
            if chars.len() == 0 {
                assert(chars =~= Seq::<char>::empty());
            }
        }
        assert(encode_scalar(first as u32)[0] == bytes[0]);
        assert((first as u32) < 0x80) by {
            if (first as u32) >= 0x80 {
                crate::chars::lemma_leading_byte_high(first as u32);
            }
        }
        let rb = encode_utf8(rest);
        assert(bytes =~= seq![bytes[0]] + rb);
        assert forall|i: int| 0 <= i < k - 1 implies #[trigger] rb[i] < 0x80 by {
            assert(rb[i] == bytes[i + 1]);
        }
        lemma_ascii_prefix_chars(rest, k - 1, p);
        assert(bytes.subrange(0, k) =~= seq![bytes[0]] + rb.subrange(0, k - 1));
        assert(chars.subrange(0, k) =~= seq![first] + rest.subrange(0, k - 1));
        crate::chars::lemma_encode_utf8_concat(seq![first], rest.subrange(0, k - 1));
        assert(bytes.subrange(k, bytes.len() as int) =~= rb.subrange(k - 1, rb.len() as int));
        assert(chars.subrange(k, chars.len() as int) =~= rest.subrange(k - 1, rest.len() as int));
    } else {
        assert(encode_utf8(chars).subrange(0, 0) =~= Seq::<u8>::empty());
        assert(chars.subrange(0, 0) =~= Seq::<char>::empty());
        assert(encode_utf8(chars).subrange(0, encode_utf8(chars).len() as int) =~= encode_utf8(chars));
        assert(chars.subrange(0, chars.len() as int) =~= chars);
    }
}

/// Writes the ASCII mapping of `src[start..end]` into `dst` at the same positions, stopping at
/// the first byte that is not ASCII; returns how many bytes were written.
fn map_run_while_ascii(
    src: &[u8],
    dst: &mut Vec<u8>,
    start: usize,
    end: usize,
    mapping: CaseMapping,
) -> (r: usize)
    requires
        start <= end <= src@.len(),
        end <= old(dst)@.len(),
    ensures
        is_prefix_len(src@.subrange(start as int, end as int), ascii_pred(), r as int),
        final(dst)@.len() == old(dst)@.len(),
        forall|i: int|
            0 <= i < final(dst)@.len() ==> #[trigger] final(dst)@[i] == if start <= i < start + r {
                mapping.spec_map_ascii(src@[i])
            } else {
                old(dst)@[i]
            },
{
    let mut k: usize = start;
    while k < end
        invariant
            start <= k <= end <= src@.len(),
            end <= dst@.len(),
            dst@.len() == old(dst)@.len(),
            forall|i: int| start <= i < k ==> #[trigger] spec_is_ascii(src@[i]),
            forall|i: int|
                0 <= i < dst@.len() ==> #[trigger] dst@[i] == if start <= i < k {
                    mapping.spec_map_ascii(src@[i])
                } else {
                    old(dst)@[i]
                },
        ensures
            start <= k <= end,
            dst@.len() == old(dst)@.len(),
            forall|i: int| start <= i < k ==> #[trigger] spec_is_ascii(src@[i]),
            k < end ==> !spec_is_ascii(src@[k as int]),
            forall|i: int|
                0 <= i < dst@.len() ==> #[trigger] dst@[i] == if start <= i < k {
                    mapping.spec_map_ascii(src@[i])
                } else {
                    old(dst)@[i]
                },
        decreases end - k,
    {
        let b = src[k];
        if b >= 0x80 {
            break;
        }
        dst.set(k, mapping.map_ascii(b));
        k = k + 1;
    }
    proof {
        let s = src@.subrange(start as int, end as int);
        let p = ascii_pred();
        assert forall|i: int| 0 <= i < k - start implies #[trigger] p(s[i]) by {
            assert(s[i] == src@[start + i]);
        }
        if k < end {
            assert(s[k - start] == src@[k as int]);
        }
    }
    k - start
}

/// Writes the ASCII mapping of `src` into `dst`, as far as both reach, stopping at the first byte
/// that is not ASCII; returns how many bytes were written. Chunks of ASCII bytes are mapped
/// together.
pub fn map_while_ascii(src: &[u8], dst: &mut Vec<u8>, mapping: CaseMapping) -> (r: usize)
    ensures
        ({
            let n = if src@.len() < old(dst)@.len() {
                src@.len()
            } else {
                old(dst)@.len()
            };
            is_prefix_len(src@.subrange(0, n as int), ascii_pred(), r as int)
        }),
        final(dst)@.len() == old(dst)@.len(),
        forall|i: int|
            0 <= i < final(dst)@.len() ==> #[trigger] final(dst)@[i] == if i < r {
                mapping.spec_map_ascii(src@[i])
            } else {
                old(dst)@[i]
            },
{
    let n = if src.len() < dst.len() {
        src.len()
    } else {
        dst.len()
    };
    let is_ascii = |b: u8| -> (x: bool)
        ensures
            x == spec_is_ascii(b),
        { b < 0x80 };
    let mut len: usize = 0;
    while CHUNK_SIZE <= n - len
        invariant
            n <= src@.len(),
            n <= old(dst)@.len(),
            n == src@.len() || n == old(dst)@.len(),
            len <= n,
            dst@.len() == old(dst)@.len(),
            forall|b: u8| #[trigger] is_ascii.requires((b,)),
            forall|b: u8, x: bool| is_ascii.ensures((b,), x) ==> x == ascii_pred()(b),
            forall|i: int| 0 <= i < len ==> #[trigger] spec_is_ascii(src@[i]),
            forall|i: int|
                0 <= i < dst@.len() ==> #[trigger] dst@[i] == if i < len {
                    mapping.spec_map_ascii(src@[i])
                } else {
                    old(dst)@[i]
                },
        decreases n - len,
    {
        let chunk = vstd::slice::slice_subrange(src, len, len + CHUNK_SIZE);
        if !all_bytes(chunk, &is_ascii, Ghost(ascii_pred())) {
            let k = map_run_while_ascii(src, dst, len, len + CHUNK_SIZE, mapping);
            proof {
                let s = src@.subrange(len as int, len + CHUNK_SIZE);
                assert(k < CHUNK_SIZE) by {
                    if k == CHUNK_SIZE {
                        assert forall|i: int| 0 <= i < CHUNK_SIZE implies #[trigger] ascii_pred()(
                            chunk@[i],
                        ) by {
                            assert(chunk@[i] == s[i]);
                            assert(ascii_pred()(s[i]));
                        }
                    }
                }
                lemma_prefix_extend(src@, n as int, len as int, k as int);
            }
            return len + k;
        }
        let mut j: usize = len;
        while j < len + CHUNK_SIZE
            invariant
                len + CHUNK_SIZE <= n,
                n <= src@.len(),
                n <= old(dst)@.len(),
                len <= j <= len + CHUNK_SIZE,
                dst@.len() == old(dst)@.len(),
                forall|i: int| 0 <= i < CHUNK_SIZE ==> #[trigger] ascii_pred()(chunk@[i]),
                chunk@ == src@.subrange(len as int, len + CHUNK_SIZE),
                forall|i: int| 0 <= i < len ==> #[trigger] spec_is_ascii(src@[i]),
                forall|i: int|
                    0 <= i < dst@.len() ==> #[trigger] dst@[i] == if i < j {
                        mapping.spec_map_ascii(src@[i])
                    } else {
                        old(dst)@[i]
                    },
            decreases len + CHUNK_SIZE - j,
        {
            dst.set(j, mapping.map_ascii(src[j]));
            j = j + 1;
        }
        proof {
            assert forall|i: int| 0 <= i < len + CHUNK_SIZE implies #[trigger] spec_is_ascii(
                src@[i],
            ) by {
                if i >= len {
                    assert(chunk@[i - len] == src@[i]);
                    assert(ascii_pred()(chunk@[i - len]));
                }
            }
        }
        len = len + CHUNK_SIZE;
    }
    let k = map_run_while_ascii(src, dst, len, n, mapping);
    proof {
        lemma_prefix_extend(src@, n as int, len as int, k as int);
    }
    len + k
}

/// A run of ASCII bytes from `len`, after `len` ASCII bytes, gives the ASCII prefix of the first
/// `n` bytes.
proof fn lemma_prefix_extend(src: Seq<u8>, n: int, len: int, k: int)
    requires
        0 <= len <= n <= src.len(),
        forall|i: int| 0 <= i < len ==> #[trigger] spec_is_ascii(src[i]),
        ({
            let end = if len + CHUNK_SIZE <= n { len + CHUNK_SIZE } else { n };
            &&& is_prefix_len(src.subrange(len, end), ascii_pred(), k)
            &&& (len + CHUNK_SIZE <= n ==> k < CHUNK_SIZE)
        }),
    ensures
        is_prefix_len(src.subrange(0, n), ascii_pred(), len + k),
{
    let end = if len + CHUNK_SIZE <= n { len + CHUNK_SIZE } else { n };
    let s = src.subrange(len, end);
    let t = src.subrange(0, n);
    let p = ascii_pred();
    assert forall|i: int| 0 <= i < len + k implies #[trigger] p(t[i]) by {
        if i >= len {
            assert(s[i - len] == src[i]);
            assert(p(s[i - len]));
        }
    }
    if len + k < n {
        assert(k < s.len());
        assert(s[k] == t[len + k]);
    }
}

} // verus!
