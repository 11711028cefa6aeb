//! Decoding of UTF-16 into UTF-8 text: from code units, and from bytes in either byte order.
use vstd::prelude::*;
use vstd::utf8::*;

use crate::chars::{encode_char, lemma_encode_utf8_push, push_char};
use crate::errors::{FromUtf16Error, FromUtf16ErrorKind};
use crate::std_glue::char_from_u32;

verus! {

/// A surrogate code unit, which only stands for a character in a pair.
pub open spec fn is_surrogate(u: u16) -> bool {
    0xD800 <= u <= 0xDFFF
}

/// A high surrogate, the first unit of a pair.
pub open spec fn is_high_surrogate(u: u16) -> bool {
    0xD800 <= u <= 0xDBFF
}

/// A low surrogate, the second unit of a pair.
pub open spec fn is_low_surrogate(u: u16) -> bool {
    0xDC00 <= u <= 0xDFFF
}

/// The scalar value of the pair of a high surrogate `hi` and a low surrogate `lo`.
pub open spec fn pair_scalar(hi: u16, lo: u16) -> u32 {
    (0x10000 + (hi - 0xD800) * 0x400 + (lo - 0xDC00)) as u32
}

/// `rest` with the characters `done` in front, when there is a `rest`.
pub open spec fn spec_after(done: Seq<char>, rest: Option<Seq<char>>) -> Option<Seq<char>> {
    match rest {
        Some(r) => Some(done + r),
        None => None,
    }
}

/// The characters that the code units encode, or `None` when they hold a surrogate that is not
/// part of a pair: a high surrogate followed by a low one.
pub open spec fn spec_decode_utf16(units: Seq<u16>) -> Option<Seq<char>>
    decreases units.len(),
{
    if units.len() == 0 {
        Some(Seq::empty())
    } else if !is_surrogate(units[0]) {
        spec_after(seq![units[0] as u32 as char], spec_decode_utf16(units.drop_first()))
    } else if is_high_surrogate(units[0]) && units.len() >= 2 && is_low_surrogate(units[1]) {
        spec_after(
            seq![pair_scalar(units[0], units[1]) as char],
            spec_decode_utf16(units.subrange(2, units.len() as int)),
        )
    } else {
        None
    }
}

/// The replacement character, which stands for a surrogate that is not part of a pair.
pub open spec fn replacement_char() -> char {
    '\u{FFFD}'
}

/// The characters that the code units encode, each surrogate that is not part of a pair replaced
/// by the replacement character.
pub open spec fn spec_decode_utf16_lossy(units: Seq<u16>) -> Seq<char>
    decreases units.len(),
{
    if units.len() == 0 {
        Seq::empty()
    } else if !is_surrogate(units[0]) {
        seq![units[0] as u32 as char] + spec_decode_utf16_lossy(units.drop_first())
    } else if is_high_surrogate(units[0]) && units.len() >= 2 && is_low_surrogate(units[1]) {
        seq![pair_scalar(units[0], units[1]) as char] + spec_decode_utf16_lossy(
            units.subrange(2, units.len() as int),
        )
    } else {
        seq![replacement_char()] + spec_decode_utf16_lossy(units.drop_first())
    }
}

/// The code units of `bytes`, two bytes each, in little-endian order when `little` holds and in
/// big-endian order otherwise.
pub open spec fn spec_units(bytes: Seq<u8>, little: bool) -> Seq<u16> {
    Seq::new(
        bytes.len() / 2,
        |k: int|
            if little {
                (bytes[2 * k] + 0x100 * bytes[2 * k + 1]) as u16
            } else {
                (0x100 * bytes[2 * k] + bytes[2 * k + 1]) as u16
            },
    )
}

/// The characters of UTF-16 bytes in the given byte order, each surrogate that is not part of a
/// pair, and a last odd byte, replaced by the replacement character.
pub open spec fn spec_decode_utf16_bytes_lossy(bytes: Seq<u8>, little: bool) -> Seq<char> {
    if bytes.len() % 2 == 0 {
        spec_decode_utf16_lossy(spec_units(bytes, little))
    } else {
        spec_decode_utf16_lossy(spec_units(bytes, little)).push(replacement_char())
    }
}

/// The character of a code unit that is not a surrogate.
fn unit_char(u: u16) -> (r: char)
    requires
        !is_surrogate(u),
    ensures
        r == u as u32 as char,
{
    match char_from_u32(u as u32) {
        Some(c) => {
            proof {
                char_u32_cast(c, u as u32);
            }
            c
        },
        None => {
            assert(is_scalar(u as u32));
            assert(false);
            ' '
        },
    }
}

/// The character of a surrogate pair.
fn pair_char(hi: u16, lo: u16) -> (r: char)
    requires
        is_high_surrogate(hi),
        is_low_surrogate(lo),
    ensures
        r == pair_scalar(hi, lo) as char,
{
    let v: u32 = 0x10000 + ((hi - 0xD800) as u32) * 0x400 + ((lo - 0xDC00) as u32);
    assert(v == pair_scalar(hi, lo));
    match char_from_u32(v) {
        Some(c) => {
            proof {
                char_u32_cast(c, v);
            }
            c
        },
        None => {
            assert(is_scalar(v));
            assert(false);
            ' '
        },
    }
}

/// Appends the characters of the code units to `out`, each surrogate that is not part of a pair
/// replaced by the replacement character when `lossy` holds; without `lossy`, stops at the first
/// such surrogate and returns `false`.
fn decode_into(units: &[u16], lossy: bool, out: &mut Vec<u8>) -> (ok: bool)
    ensures
        lossy ==> ok && final(out)@ == old(out)@ + encode_utf8(spec_decode_utf16_lossy(units@)),
        !lossy ==> match spec_decode_utf16(units@) {
            Some(chars) => ok && final(out)@ == old(out)@ + encode_utf8(chars),
            None => !ok,
        },
{
    let n = units.len();
    let mut i: usize = 0;
    let ghost mut done: Seq<char> = Seq::empty();
    proof {
        assert(units@.subrange(0, n as int) =~= units@);
        assert(old(out)@ + encode_utf8(done) =~= old(out)@);
    }
    while i < n
        invariant
            n == units@.len(),
            i <= n,
            out@ == old(out)@ + encode_utf8(done),
            lossy ==> spec_decode_utf16_lossy(units@) == done + spec_decode_utf16_lossy(
                units@.subrange(i as int, n as int),
            ),
            !lossy ==> spec_decode_utf16(units@) == spec_after(
                done,
                spec_decode_utf16(units@.subrange(i as int, n as int)),
            ),
        decreases n - i,
    {
        let ghost rest = units@.subrange(i as int, n as int);
        let u = units[i];
        let ch: char;
        let step: usize;
        if u < 0xD800 || u > 0xDFFF {
            ch = unit_char(u);
            step = 1;
            proof {
                assert(rest.drop_first() =~= units@.subrange(i + 1, n as int));
            }
        } else if u <= 0xDBFF && i + 1 < n && units[i + 1] >= 0xDC00 && units[i + 1] <= 0xDFFF {
            ch = pair_char(u, units[i + 1]);
            step = 2;
            proof {
                assert(rest.subrange(2, rest.len() as int) =~= units@.subrange(i + 2, n as int));
            }
        } else {
            if !lossy {
                return false;
            }
            ch = '\u{FFFD}';
            step = 1;
            proof {
                assert(rest.drop_first() =~= units@.subrange(i + 1, n as int));
            }
        }
        push_char(out, ch);
        proof {
            lemma_encode_utf8_push(done, ch);
            assert(old(out)@ + encode_utf8(done) + encode_scalar(ch as u32) =~= old(out)@
                + encode_utf8(done.push(ch)));
            let next = units@.subrange(i + step, n as int);
            if lossy {
                assert(spec_decode_utf16_lossy(rest) == seq![ch] + spec_decode_utf16_lossy(next));
                assert(done + (seq![ch] + spec_decode_utf16_lossy(next)) =~= done.push(ch)
                    + spec_decode_utf16_lossy(next));
            } else {
                assert(spec_decode_utf16(rest) == spec_after(seq![ch], spec_decode_utf16(next)));
                match spec_decode_utf16(next) {
                    Some(r) => {
                        assert(done + (seq![ch] + r) =~= done.push(ch) + r);
                    },
                    None => {},
                }
            }
            done = done.push(ch);
        }
        i = i + step;
    }
    proof {
        assert(units@.subrange(n as int, n as int) =~= Seq::<u16>::empty());
        assert(done + Seq::<char>::empty() =~= done);
    }
    true
}

/// The UTF-8 text of UTF-16 code units, refused at a surrogate that is not part of a pair.
pub fn decode_utf16(units: &[u16]) -> (r: Result<Vec<u8>, FromUtf16Error>)
    ensures
        match spec_decode_utf16(units@) {
            Some(chars) => r matches Ok(v) && v@ == encode_utf8(chars),
            None => r == Err::<Vec<u8>, FromUtf16Error>(
                FromUtf16Error { kind: FromUtf16ErrorKind::LoneSurrogate },
            ),
        },
{
    let mut out: Vec<u8> = Vec::new();
    if decode_into(units, false, &mut out) {
        proof {
            assert(Seq::<u8>::empty() + out@ =~= out@);
        }
        Ok(out)
    } else {
        Err(FromUtf16Error { kind: FromUtf16ErrorKind::LoneSurrogate })
    }
}

/// The UTF-8 text of UTF-16 code units, each surrogate that is not part of a pair replaced by
/// the replacement character.
pub fn decode_utf16_lossy(units: &[u16]) -> (r: Vec<u8>)
    ensures
        r@ == encode_utf8(spec_decode_utf16_lossy(units@)),
{
    let mut out: Vec<u8> = Vec::new();
    decode_into(units, true, &mut out);
    proof {
        assert(Seq::<u8>::empty() + encode_utf8(spec_decode_utf16_lossy(units@)) =~= encode_utf8(
            spec_decode_utf16_lossy(units@),
        ));
    }
    out
}

/// The code units of `bytes`, two bytes each, in the given byte order; a last odd byte is left
/// out.
pub fn units_of_bytes(bytes: &[u8], little: bool) -> (r: Vec<u16>)
    ensures
        r@ == spec_units(bytes@, little),
{
    let len = bytes.len();
    let n = len / 2;
    let mut out: Vec<u16> = Vec::new();
    let mut k: usize = 0;
    while k < n
        invariant
            len == bytes@.len(),
            n == bytes@.len() / 2,
            k <= n,
            out@ == spec_units(bytes@, little).subrange(0, k as int),
        decreases n - k,
    {
        assert(2 * k + 1 < bytes@.len());
        let a = bytes[2 * k] as u16;
        let b = bytes[2 * k + 1] as u16;
        let u = if little {
            a + 0x100 * b
        } else {
            0x100 * a + b
        };
        out.push(u);
        k = k + 1;
        assert(out@ =~= spec_units(bytes@, little).subrange(0, k as int));
    }
    assert(out@ =~= spec_units(bytes@, little));
    out
}

/// The UTF-8 text of UTF-16 bytes in the given byte order: refused when there is an odd number
/// of bytes, or at a surrogate that is not part of a pair.
pub fn decode_utf16_bytes(bytes: &[u8], little: bool) -> (r: Result<Vec<u8>, FromUtf16Error>)
    ensures
        bytes@.len() % 2 == 1 ==> r == Err::<Vec<u8>, FromUtf16Error>(
            FromUtf16Error { kind: FromUtf16ErrorKind::OddBytes },
        ),
        bytes@.len() % 2 == 0 ==> match spec_decode_utf16(spec_units(bytes@, little)) {
            Some(chars) => r matches Ok(v) && v@ == encode_utf8(chars),
            None => r == Err::<Vec<u8>, FromUtf16Error>(
                FromUtf16Error { kind: FromUtf16ErrorKind::LoneSurrogate },
            ),
        },
{
    if bytes.len() % 2 == 1 {
        return Err(FromUtf16Error { kind: FromUtf16ErrorKind::OddBytes });
    }
    let units = units_of_bytes(bytes, little);
    decode_utf16(units.as_slice())
}

/// The UTF-8 text of UTF-16 bytes in the given byte order, each surrogate that is not part of a
/// pair, and a last odd byte, replaced by the replacement character.
pub fn decode_utf16_bytes_lossy(bytes: &[u8], little: bool) -> (r: Vec<u8>)
    ensures
        bytes@.len() % 2 == 0 ==> r@ == encode_utf8(
            spec_decode_utf16_lossy(spec_units(bytes@, little)),
        ),
        bytes@.len() % 2 == 1 ==> r@ == encode_utf8(
            spec_decode_utf16_lossy(spec_units(bytes@, little)).push(replacement_char()),
        ),
{
    let units = units_of_bytes(bytes, little);
    let mut out = decode_utf16_lossy(units.as_slice());
    if bytes.len() % 2 == 1 {
        push_char(&mut out, '\u{FFFD}');
        proof {
            lemma_encode_utf8_push(spec_decode_utf16_lossy(units@), '\u{FFFD}');
        }
    }
    out
}

} // verus!
