//! Shared fixtures for benchmarks: printable ASCII texts of given lengths.
use vstd::prelude::*;
use vstd::string::*;
use vstd::utf8::*;

use crate::chars::lemma_ascii_valid;
use crate::std_glue::str_from_utf8;

verus! {

/// The inline limit of `EcoString`.
pub const ECOSTRING_INLINE_MAX: usize = 15;

/// The inline limit of this crate's strings.
pub const LEAN_STRING_INLINE_MAX: usize = 16;

/// The inline limit of `CompactString`.
pub const COMPACT_STRING_INLINE_MAX: usize = 24;

/// A static text of 16 bytes.
pub const STATIC_STR_16: &'static str = "0123456789abcdef";

/// A static text of 40 bytes.
pub const STATIC_STR_40: &'static str = "0123456789abcdef0123456789abcdef01234567";

/// The lengths of the sample texts: around each crate's inline limit, and a long one.
pub open spec fn spec_lens() -> Seq<usize> {
    seq![
        0,
        1,
        ECOSTRING_INLINE_MAX,
        LEAN_STRING_INLINE_MAX,
        (LEAN_STRING_INLINE_MAX + 1) as usize,
        COMPACT_STRING_INLINE_MAX,
        (COMPACT_STRING_INLINE_MAX + 1) as usize,
        256,
    ]
}

/// The seed of the generator for a text of `n` bytes.
pub open spec fn spec_seed(n: usize) -> u64 {
    let s = 0x2545_F491_4F6C_DD1Du64 ^ (n as u64).wrapping_mul(0x9E37_79B9_7F4A_7C15u64);
    if s == 0 {
        1
    } else {
        s
    }
}

/// One step of the xorshift generator.
pub open spec fn spec_step(s: u64) -> u64 {
    let a = (s ^ ((s << 13u64) as u64)) as u64;
    let b = (a ^ (a >> 7u64)) as u64;
    (b ^ ((b << 17u64) as u64)) as u64
}

/// The state after `i` steps from the seed of a text of `n` bytes.
pub open spec fn spec_state(n: usize, i: nat) -> u64
    decreases i,
{
    if i == 0 {
        spec_seed(n)
    } else {
        spec_step(spec_state(n, (i - 1) as nat))
    }
}

/// The printable ASCII byte that a random byte maps to: from `!` to `~`.
pub open spec fn spec_printable(byte: u8) -> u8 {
    (0x21 + byte % 94) as u8
}

/// Byte `k` of the text of `n` bytes: each state, in little-endian order, gives eight bytes.
pub open spec fn spec_ascii_byte(n: usize, k: nat) -> u8 {
    let state = spec_state(n, k / 8 + 1);
    spec_printable(((state >> ((8 * (k % 8)) as u64)) & 0xff) as u8)
}

/// The text of `n` bytes.
pub open spec fn spec_ascii(n: usize) -> Seq<u8> {
    Seq::new(n as nat, |k: int| spec_ascii_byte(n, k as nat))
}

/// Turns bytes of valid UTF-8 into a `String`.
fn string_from_utf8_bytes(bytes: &[u8]) -> (r: String)
    requires
        valid_utf8(bytes@),
    ensures
        encode_utf8(r@) == bytes@,
{
    match str_from_utf8(bytes) {
        Ok(s) => String::from_str(s),
        Err(_) => {
            assert(false);
            String::new()
        },
    }
}

/// A text of `n` printable ASCII bytes, from a xorshift generator seeded by `n`.
pub fn ascii(n: usize) -> (r: String)
    ensures
        encode_utf8(r@) == spec_ascii(n),
        r@.len() == n,
{
    let mut state: u64 = 0x2545_F491_4F6C_DD1Du64 ^ (n as u64).wrapping_mul(0x9E37_79B9_7F4A_7C15u64);
    if state == 0 {
        state = 1;
    }
    let mut out: Vec<u8> = Vec::new();
    let ghost mut steps: nat = 0;
    while out.len() < n
        invariant
            out@.len() <= n,
            out@.len() == 8 * steps || out@.len() == n,
            state == spec_state(n, steps),
            forall|k: int| 0 <= k < out@.len() ==> out@[k] == spec_ascii_byte(n, k as nat),
        decreases n - out@.len(),
    {
        let ghost start = out@.len();
        state ^= state << 13u64;
        state ^= state >> 7u64;
        state ^= state << 17u64;
        proof {
            steps = steps + 1;
        }
        let mut j: u64 = 0;
        while j < 8
            invariant
                j <= 8,
                out@.len() <= n,
                out@.len() == 8 * (steps - 1) + j || out@.len() == n,
                out@.len() < n ==> out@.len() == 8 * (steps - 1) + j,
                steps >= 1,
                state == spec_state(n, steps),
                forall|k: int| 0 <= k < out@.len() ==> out@[k] == spec_ascii_byte(n, k as nat),
            ensures
                out@.len() <= n,
                out@.len() == 8 * steps || out@.len() == n,
                state == spec_state(n, steps),
                forall|k: int| 0 <= k < out@.len() ==> out@[k] == spec_ascii_byte(n, k as nat),
            decreases 8 - j,
        {
            if out.len() == n {
                break;
            }
            let byte = #[verifier::truncate] (((state >> (8 * j)) & 0xff) as u8);
            proof {
                let k = out@.len() as nat;
                assert(k / 8 + 1 == steps && k % 8 == j) by (nonlinear_arith)
                    requires
                        k == 8 * (steps - 1) + j,
                        j < 8,
                        steps >= 1,
                ;
            }
            out.push(0x21 + byte % 94);
            j = j + 1;
        }
        assert(out@.len() > start);
    }
    proof {
        assert(out@ =~= spec_ascii(n));
        assert forall|i: int| 0 <= i < out@.len() implies out@[i] < 0x80 by {
            assert(out@[i] == spec_ascii_byte(n, i as nat));
        }
        lemma_ascii_valid(out@);
        decode_utf8_encode_utf8(out@);
    }
    let r = string_from_utf8_bytes(out.as_slice());
    proof {
        assert(r@.len() == n) by {
            lemma_ascii_decode_len(out@);
            encode_utf8_decode_utf8(r@);
        }
    }
    r
}

/// Decoding ASCII bytes gives one character per byte.
proof fn lemma_ascii_decode_len(bytes: Seq<u8>)
    requires
        forall|i: int| 0 <= i < bytes.len() ==> bytes[i] < 0x80,
    ensures
        valid_utf8(bytes),
        decode_utf8(bytes).len() == bytes.len(),
    decreases bytes.len(),
{
    lemma_ascii_valid(bytes);
    if bytes.len() > 0 {
        let rest = pop_first_scalar(bytes);
        assert(rest =~= bytes.subrange(1, bytes.len() as int));
        lemma_ascii_decode_len(rest);
    }
}

/// The character that follows `c` in the last position: `~` wraps round to `!`, any other
/// character is followed by the next code point.
pub open spec fn spec_next_char(c: char) -> char {
    if c == '~' {
        '!'
    } else {
        ((c as u32) + 1) as char
    }
}

/// The ASCII text `s` with its last character replaced by the one that follows it, so that the
/// result differs from `s` at the last position only. The empty text is returned as it is.
pub fn differ_at_last(s: &str) -> (r: String)
    requires
        s.is_ascii(),
    ensures
        s@.len() == 0 ==> r@ == s@,
        s@.len() > 0 ==> r@ == s@.drop_last().push(spec_next_char(s@.last())),
{
    let src = s.as_bytes();
    let n = src.len();
    proof {
        is_ascii_chars_encode_utf8(s@);
    }
    if n == 0 {
        return String::from_str(s);
    }
    let ghost prefix = s@.drop_last();
    let ghost last_char = s@.last();
    proof {
        assert(s@ =~= prefix.push(last_char));
        crate::chars::lemma_encode_utf8_push(prefix, last_char);
        crate::chars::lemma_encode_scalar_len(last_char);
        assert(src@[n - 1] == last_char as u8);
        assert(encode_utf8(prefix) =~= src@.subrange(0, n - 1));
    }
    let mut out: Vec<u8> = Vec::new();
    let mut i: usize = 0;
    while i + 1 < n
        invariant
            n == src@.len(),
            n > 0,
            i < n,
            out@ == src@.subrange(0, i as int),
        decreases n - i,
    {
        out.push(src[i]);
        i = i + 1;
    }
    let last = src[n - 1];
    let next: char = if last == 0x7e {
        '!'
    } else {
        (last + 1) as char
    };
    assert(next == spec_next_char(last_char));
    let (buf, w) = crate::chars::encode_char(next);
    let mut k: usize = 0;
    while k < w
        invariant
            w == encode_scalar(next as u32).len(),
            w <= 4,
            buf@.subrange(0, w as int) == encode_scalar(next as u32),
            k <= w,
            out@ == encode_utf8(prefix) + buf@.subrange(0, k as int),
        decreases w - k,
    {
        out.push(buf[k]);
        k = k + 1;
    }
    let ghost target = prefix.push(next);
    proof {
        crate::chars::lemma_encode_utf8_push(prefix, next);
        assert(out@ =~= encode_utf8(target));
        encode_utf8_valid_utf8(target);
    }
    let r = string_from_utf8_bytes(out.as_slice());
    proof {
        encode_utf8_decode_utf8(r@);
        encode_utf8_decode_utf8(target);
    }
    r
}

/// The sample texts: one of each length of [`spec_lens`].
pub fn samples() -> (r: Vec<String>)
    ensures
        r@.len() == spec_lens().len(),
        forall|i: int| 0 <= i < r@.len() ==> encode_utf8(#[trigger] r@[i]@) == spec_ascii(
            spec_lens()[i],
        ),
{
    let lens: [usize; 8] = [
        0,
        1,
        ECOSTRING_INLINE_MAX,
        LEAN_STRING_INLINE_MAX,
        LEAN_STRING_INLINE_MAX + 1,
        COMPACT_STRING_INLINE_MAX,
        COMPACT_STRING_INLINE_MAX + 1,
        256,
    ];
    assert(lens@ =~= spec_lens());
    let mut out: Vec<String> = Vec::new();
    let mut i: usize = 0;
    while i < 8
        invariant
            i <= 8,
            lens@ == spec_lens(),
            out@.len() == i,
            forall|j: int| 0 <= j < i ==> encode_utf8(#[trigger] out@[j]@) == spec_ascii(spec_lens()[j]),
        decreases 8 - i,
    {
        out.push(ascii(lens[i]));
        i = i + 1;
    }
    out
}

} // verus!
