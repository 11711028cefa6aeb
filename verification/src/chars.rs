//! Encoding and decoding single characters in UTF-8 text.
use vstd::prelude::*;
use vstd::utf8::*;

use crate::std_glue::char_from_u32;

verus! {

/// The UTF-8 encoding of `chars.push(c)` is that of `chars` followed by that of `c`.
pub proof fn lemma_encode_utf8_push(chars: Seq<char>, c: char)
    ensures
        encode_utf8(chars.push(c)) == encode_utf8(chars) + encode_scalar(c as u32),
    decreases chars.len(),
{
    if chars.len() == 0 {
        assert(chars.push(c).drop_first() =~= Seq::<char>::empty());
        assert(encode_utf8(chars.push(c)) =~= encode_scalar(c as u32) + encode_utf8(
            Seq::<char>::empty(),
        ));
        assert(encode_utf8(chars) =~= Seq::<u8>::empty());
        assert(encode_utf8(chars.push(c)) =~= encode_utf8(chars) + encode_scalar(c as u32));
    } else {
        lemma_encode_utf8_push(chars.drop_first(), c);
        assert(chars.push(c).drop_first() =~= chars.drop_first().push(c));
        assert(encode_utf8(chars.push(c)) =~= encode_utf8(chars) + encode_scalar(c as u32));
    }
}

/// The UTF-8 encoding of a concatenation is the concatenation of the encodings.
pub proof fn lemma_encode_utf8_concat(a: Seq<char>, b: Seq<char>)
    ensures
        encode_utf8(a + b) == encode_utf8(a) + encode_utf8(b),
    decreases b.len(),
{
    if b.len() == 0 {
        assert(a + b =~= a);
        assert(encode_utf8(b) =~= Seq::<u8>::empty());
        assert(encode_utf8(a) + encode_utf8(b) =~= encode_utf8(a));
    } else {
        let c = b.last();
        lemma_encode_utf8_concat(a, b.drop_last());
        assert(a + b =~= (a + b.drop_last()).push(c));
        assert(b =~= b.drop_last().push(c));
        lemma_encode_utf8_push(a + b.drop_last(), c);
        lemma_encode_utf8_push(b.drop_last(), c);
        assert(encode_utf8(a + b) =~= encode_utf8(a) + encode_utf8(b));
    }
}

/// The encoding of a single character.
pub proof fn lemma_encode_utf8_single(c: char)
    ensures
        encode_utf8(seq![c]) == encode_scalar(c as u32),
        valid_utf8(encode_scalar(c as u32)),
        decode_utf8(encode_scalar(c as u32)) == seq![c],
{
    lemma_encode_utf8_push(Seq::<char>::empty(), c);
    assert(Seq::<char>::empty().push(c) =~= seq![c]);
    assert(encode_utf8(Seq::<char>::empty()) =~= Seq::<u8>::empty());
    assert(encode_utf8(seq![c]) =~= encode_scalar(c as u32));
    encode_utf8_valid_utf8(seq![c]);
    encode_utf8_decode_utf8(seq![c]);
}

/// Every character is encoded in one to four bytes.
pub proof fn lemma_encode_scalar_len(c: char)
    ensures
        1 <= encode_scalar(c as u32).len() <= 4,
        encode_scalar(c as u32).len() == 1 <==> (c as u32) < 0x80,
{
}

/// The UTF-8 encoding of `c`, in the first bytes of the array, and the number of bytes.
pub fn encode_char(ch: char) -> (r: ([u8; 4], usize))
    ensures
        r.1 == encode_scalar(ch as u32).len(),
        r.0@.subrange(0, r.1 as int) == encode_scalar(ch as u32),
        1 <= r.1 <= 4,
{
    let c = ch as u32;
    proof {
        char_is_scalar(ch);
    }
    let mut buf = [0u8; 4];
    let n: usize;
    if c <= 0x7F {
        buf[0] = (c & 0x7F) as u8;
        n = 1;
    } else if c <= 0x7FF {
        buf[0] = 0xC0 | ((c >> 6) & 0x1F) as u8;
        buf[1] = 0x80 | (c & 0x3F) as u8;
        n = 2;
    } else if c <= 0xFFFF {
        buf[0] = 0xE0 | ((c >> 12) & 0x0F) as u8;
        buf[1] = 0x80 | ((c >> 6) & 0x3F) as u8;
        buf[2] = 0x80 | (c & 0x3F) as u8;
        n = 3;
    } else {
        buf[0] = 0xF0 | ((c >> 18) & 0x7) as u8;
        buf[1] = 0x80 | ((c >> 12) & 0x3F) as u8;
        buf[2] = 0x80 | ((c >> 6) & 0x3F) as u8;
        buf[3] = 0x80 | (c & 0x3F) as u8;
        n = 4;
    }
    assert(buf@.subrange(0, n as int) =~= encode_scalar(c));
    (buf, n)
}

/// The number of bytes in the UTF-8 encoding of `ch`.
pub fn len_utf8(ch: char) -> (r: usize)
    ensures
        r == encode_scalar(ch as u32).len(),
        1 <= r <= 4,
{
    let c = ch as u32;
    proof {
        char_is_scalar(ch);
    }
    if c <= 0x7F {
        1
    } else if c <= 0x7FF {
        2
    } else if c <= 0xFFFF {
        3
    } else {
        4
    }
}

/// A well-formed first scalar decodes to a Unicode scalar value.
proof fn lemma_first_scalar_is_scalar(s: Seq<u8>)
    requires
        valid_first_scalar(s),
    ensures
        is_scalar(decode_first_scalar(s)),
{
    let b0 = s[0];
    if is_leading_byte_width_1(b0) {
        assert(((b0 & 0x7F) as u32) <= 0x7F) by (bit_vector);
    } else if is_leading_byte_width_2(b0) {
        let b1 = s[1];
        assert((((b0 & 0x1F) as u32) << 6u32) | ((b1 & 0x3f) as u32) <= 0x7FF) by (bit_vector);
    } else if is_leading_byte_width_3(b0) {
        let b1 = s[1];
        let b2 = s[2];
        assert((((b0 & 0x0F) as u32) << 12u32) | (((b1 & 0x3f) as u32) << 6u32) | ((b2 & 0x3f) as u32)
            <= 0xFFFF) by (bit_vector);
    } else {
    }
}

/// Inside valid UTF-8, the bytes after a character boundary form valid UTF-8 that starts with a
/// well-formed scalar, and the end of that scalar is a character boundary.
pub proof fn lemma_scalar_at(bytes: Seq<u8>, i: int)
    requires
        valid_utf8(bytes),
        is_char_boundary(bytes, i),
        0 <= i < bytes.len(),
    ensures
        valid_utf8(bytes.subrange(i, bytes.len() as int)),
        valid_first_scalar(bytes.subrange(i, bytes.len() as int)),
        i + length_of_first_scalar(bytes.subrange(i, bytes.len() as int)) <= bytes.len(),
        is_char_boundary(bytes, i + length_of_first_scalar(bytes.subrange(i, bytes.len() as int))),
        encode_scalar(
            (decode_first_scalar(bytes.subrange(i, bytes.len() as int)) as char) as u32,
        ) == bytes.subrange(i, i + length_of_first_scalar(bytes.subrange(i, bytes.len() as int))),
{
    let s = bytes.subrange(i, bytes.len() as int);
    valid_utf8_split(bytes, i);
    let w = length_of_first_scalar(s);
    decode_utf8_first_scalar(s);
    assert(take_first_scalar(s) =~= bytes.subrange(i, i + w));
    let j = i + w;
    if j == bytes.len() {
        is_char_boundary_start_end_of_seq(bytes);
    } else {
        let rest = pop_first_scalar(s);
        assert(rest.len() > 0);
        assert(valid_utf8(rest));
        assert(valid_first_scalar(rest));
        assert(rest[0] == bytes[j]);
        is_char_boundary_iff_not_is_continuation_byte(bytes, j);
    }
}

/// The character that starts at byte `i` of valid UTF-8 text, and the number of bytes it takes.
pub fn decode_char_at(bytes: &[u8], i: usize) -> (r: (char, usize))
    requires
        valid_utf8(bytes@),
        is_char_boundary(bytes@, i as int),
        i < bytes@.len(),
    ensures
        r.1 == length_of_first_scalar(bytes@.subrange(i as int, bytes@.len() as int)),
        r.1 == encode_scalar(r.0 as u32).len(),
        i + r.1 <= bytes@.len(),
        encode_scalar(r.0 as u32) == bytes@.subrange(i as int, i + r.1),
        is_char_boundary(bytes@, i + r.1),
        r.0 == decode_first_scalar(bytes@.subrange(i as int, bytes@.len() as int)) as char,
{
    proof {
        lemma_scalar_at(bytes@, i as int);
        lemma_first_scalar_is_scalar(bytes@.subrange(i as int, bytes@.len() as int));
    }
    let b0 = bytes[i];
    let cp: u32;
    let w: usize;
    if b0 <= 0x7F {
        cp = (b0 & 0x7F) as u32;
        w = 1;
    } else if b0 <= 0xDF {
        let b1 = bytes[i + 1];
        cp = (((b0 & 0x1F) as u32) << 6u32) | ((b1 & 0x3f) as u32);
        w = 2;
    } else if b0 <= 0xEF {
        let b1 = bytes[i + 1];
        let b2 = bytes[i + 2];
        cp = (((b0 & 0x0F) as u32) << 12u32) | (((b1 & 0x3f) as u32) << 6u32) | ((b2 & 0x3f) as u32);
        w = 3;
    } else {
        let b1 = bytes[i + 1];
        let b2 = bytes[i + 2];
        let b3 = bytes[i + 3];
        cp = (((b0 & 0x07) as u32) << 18u32) | (((b1 & 0x3f) as u32) << 12u32) | (((b2 & 0x3f) as u32)
            << 6u32) | ((b3 & 0x3f) as u32);
        w = 4;
    }
    match char_from_u32(cp) {
        Some(c) => {
            proof {
                char_u32_cast(c, cp);
            }
            (c, w)
        },
        None => {
            assert(false);
            (' ', w)
        },
    }
}

/// The byte at which the last character of non-empty valid UTF-8 text starts.
pub fn last_char_start(bytes: &[u8]) -> (r: usize)
    requires
        valid_utf8(bytes@),
        bytes@.len() > 0,
    ensures
        r < bytes@.len(),
        is_char_boundary(bytes@, r as int),
        r + length_of_first_scalar(bytes@.subrange(r as int, bytes@.len() as int)) == bytes@.len(),
{
    let n = bytes.len();
    let mut r = n - 1;
    proof {
        is_char_boundary_start_end_of_seq(bytes@);
        if bytes@.len() > 0 {
            is_char_boundary_iff_not_is_continuation_byte(bytes@, 0);
        }
    }
    while 0x80 <= bytes[r] && bytes[r] <= 0xBF
        invariant
            n == bytes@.len(),
            r < n,
            valid_utf8(bytes@),
            !is_continuation_byte(bytes@[0]),
            forall|j: int| r < j < n ==> is_continuation_byte(#[trigger] bytes@[j]),
        decreases r,
    {
        r = r - 1;
    }
    proof {
        is_char_boundary_iff_not_is_continuation_byte(bytes@, r as int);
        lemma_scalar_at(bytes@, r as int);
        let j = r + length_of_first_scalar(bytes@.subrange(r as int, n as int));
        if j < n {
            is_char_boundary_iff_not_is_continuation_byte(bytes@, j);
            assert(is_continuation_byte(bytes@[j]));
        }
    }
    r
}

/// Decoding valid UTF-8 that is split at a character boundary `i`, where a character `c` starts:
/// the characters are those before `i`, then `c`, then those after `c`.
pub proof fn lemma_decode_at(bytes: Seq<u8>, i: int)
    requires
        valid_utf8(bytes),
        is_char_boundary(bytes, i),
        0 <= i < bytes.len(),
    ensures
        ({
            let w = length_of_first_scalar(bytes.subrange(i, bytes.len() as int));
            let c = decode_first_scalar(bytes.subrange(i, bytes.len() as int)) as char;
            &&& decode_utf8(bytes) == decode_utf8(bytes.subrange(0, i)) + seq![c] + decode_utf8(
                bytes.subrange(i + w, bytes.len() as int),
            )
            &&& valid_utf8(bytes.subrange(0, i))
            &&& valid_utf8(bytes.subrange(i + w, bytes.len() as int))
        }),
{
    let s = bytes.subrange(i, bytes.len() as int);
    let w = length_of_first_scalar(s);
    let c = decode_first_scalar(s) as char;
    lemma_scalar_at(bytes, i);
    decode_utf8_split(bytes, i);
    valid_utf8_split(bytes, i);
    assert(pop_first_scalar(s) =~= bytes.subrange(i + w, bytes.len() as int));
    assert(decode_utf8(s) =~= seq![c] + decode_utf8(pop_first_scalar(s)));
    assert(decode_utf8(bytes) =~= decode_utf8(bytes.subrange(0, i)) + seq![c] + decode_utf8(
        bytes.subrange(i + w, bytes.len() as int),
    ));
}

/// Bytes that are all below `0x80` are valid UTF-8.
pub proof fn lemma_ascii_valid(bytes: Seq<u8>)
    requires
        forall|i: int| 0 <= i < bytes.len() ==> bytes[i] < 0x80,
    ensures
        valid_utf8(bytes),
{
    assert(bytes.subrange(0, 0) =~= Seq::<u8>::empty());
    partial_valid_utf8_extend_ascii_block(bytes, 0, bytes.len() as int);
    assert(bytes.subrange(0, bytes.len() as int) =~= bytes);
}

/// The first byte of the encoding of a scalar value that is not ASCII is not ASCII either.
pub proof fn lemma_leading_byte_high(v: u32)
    requires
        is_scalar(v),
        v >= 0x80,
    ensures
        encode_scalar(v)[0] >= 0xC0,
{
    if has_width_2_encoding(v) {
        let b = ((v >> 6) & 0x1F) as u8;
        assert(0xC0u8 | b >= 0xC0u8) by (bit_vector);
    } else if has_width_3_encoding(v) {
        let b = ((v >> 12) & 0x0F) as u8;
        assert(0xE0u8 | b >= 0xC0u8) by (bit_vector);
    } else {
        let b = ((v >> 18) & 0x7) as u8;
        assert(0xF0u8 | b >= 0xC0u8) by (bit_vector);
    }
}

/// Where the encoding of a text after some characters starts, a character starts.
pub proof fn lemma_boundary_at(chars: Seq<char>, k: int)
    requires
        0 <= k <= chars.len(),
    ensures
        is_char_boundary(encode_utf8(chars), encode_utf8(chars.subrange(0, k)).len() as int),
{
    let bytes = encode_utf8(chars);
    let pre = chars.subrange(0, k);
    let rest = chars.subrange(k, chars.len() as int);
    assert(chars =~= pre + rest);
    lemma_encode_utf8_concat(pre, rest);
    encode_utf8_valid_utf8(chars);
    let i = encode_utf8(pre).len() as int;
    if k == chars.len() {
        assert(rest =~= Seq::<char>::empty());
        is_char_boundary_start_end_of_seq(bytes);
    } else {
        let c = rest[0];
        assert(encode_utf8(rest) == encode_scalar(c as u32) + encode_utf8(rest.drop_first()));
        lemma_encode_scalar_len(c);
        assert(bytes[i] == encode_scalar(c as u32)[0]);
        char_is_scalar(c);
        if (c as u32) >= 0x80 {
            lemma_leading_byte_high(c as u32);
        } else {
            let v = c as u32;
            assert(((v & 0x7F) as u8) < 0x80) by (bit_vector);
        }
        is_char_boundary_iff_not_is_continuation_byte(bytes, i);
    }
}

/// Appends the encoding of `ch`.
pub fn push_char(out: &mut Vec<u8>, ch: char)
    ensures
        final(out)@ == old(out)@ + encode_scalar(ch as u32),
{
    let (buf, n) = encode_char(ch);
    let mut k: usize = 0;
    while k < n
        invariant
            n <= 4,
            buf@.subrange(0, n as int) == encode_scalar(ch as u32),
            k <= n,
            out@ == old(out)@ + buf@.subrange(0, k as int),
        decreases n - k,
    {
        out.push(buf[k]);
        k = k + 1;
        assert(buf@.subrange(0, k as int) =~= buf@.subrange(0, k - 1).push(buf@[k - 1]));
    }
}

} // verus!
