//! The decimal text of integers, written straight into a representation.
use vstd::prelude::*;
use vstd::utf8::*;

use super::heap_buffer::Header;
use super::heap_buffer::internal::Width;
use super::{spec_heap_ok, Repr};
use crate::chars::lemma_ascii_valid;
use crate::errors::ReserveError;

verus! {

/// The decimal digits of `n`, most significant first, with no leading zero (`"0"` for zero).
pub open spec fn spec_digits(n: nat) -> Seq<u8>
    decreases n,
{
    if n < 10 {
        seq![(0x30 + n) as u8]
    } else {
        spec_digits(n / 10).push((0x30 + n % 10) as u8)
    }
}

/// The decimal text of `v`, as `Display` writes it: a minus sign in front of the digits of a
/// negative value.
pub open spec fn spec_decimal(v: int) -> Seq<u8> {
    if v < 0 {
        seq![0x2du8] + spec_digits((-v) as nat)
    } else {
        spec_digits(v as nat)
    }
}

/// `10` to the power `k`.
pub open spec fn pow10(k: nat) -> nat
    decreases k,
{
    if k == 0 {
        1
    } else {
        10 * pow10((k - 1) as nat)
    }
}

/// The digits are ASCII digits, and there are at most `k` of them for a value below `10^k`.
pub proof fn lemma_digits(n: nat, k: nat)
    requires
        n < pow10(k),
    ensures
        1 <= spec_digits(n).len() <= if k == 0 { 1 } else { k },
        forall|i: int| 0 <= i < spec_digits(n).len() ==> 0x30 <= #[trigger] spec_digits(n)[i] <= 0x39,
    decreases n,
{
    if n >= 10 {
        assert(k >= 2) by {
            reveal_with_fuel(pow10, 2);
        }
        assert(n / 10 < pow10((k - 1) as nat)) by {
            assert(pow10(k) == 10 * pow10((k - 1) as nat));
        }
        lemma_digits(n / 10, (k - 1) as nat);
    }
}

/// Every value of a `u128` has at most 39 digits, and its text at most 40 bytes with a sign.
pub proof fn lemma_u128_digits(n: u128)
    ensures
        1 <= spec_digits(n as nat).len() <= 39,
        forall|i: int|
            0 <= i < spec_digits(n as nat).len() ==> 0x30 <= #[trigger] spec_digits(n as nat)[i]
                <= 0x39,
{
    assert(pow10(39) > u128::MAX) by {
        reveal_with_fuel(pow10, 40);
    }
    lemma_digits(n as nat, 39);
}

/// Appends the digits of `n` to `out`.
fn push_digits(out: &mut Vec<u8>, n: u128)
    ensures
        final(out)@ == old(out)@ + spec_digits(n as nat),
    decreases n,
{
    if n >= 10 {
        push_digits(out, n / 10);
    }
    let digit = (n % 10) as u8;
    out.push(0x30 + digit);
    proof {
        if n >= 10 {
            assert(spec_digits(n as nat) == spec_digits((n / 10) as nat).push(
                (0x30 + n % 10) as u8,
            ));
        }
    }
}

/// The text of a value given by its sign and magnitude.
fn decimal_bytes(negative: bool, magnitude: u128) -> (r: Vec<u8>)
    ensures
        r@ == (if negative {
            seq![0x2du8]
        } else {
            Seq::<u8>::empty()
        }) + spec_digits(magnitude as nat),
{
    let mut out: Vec<u8> = Vec::new();
    if negative {
        out.push(0x2d);
    }
    push_digits(&mut out, magnitude);
    out
}

/// A short text always fits in a heap buffer.
pub proof fn lemma_short_heap_ok<H: Header>(len: nat)
    requires
        len <= 64,
    ensures
        spec_heap_ok::<H>(len),
{
    H::lemma_size_bounds();
    assert(Width::W64.spec_max_len() >= 64);
}

impl<H: Header> Repr<H> {
    /// The decimal text of a value given by its sign and magnitude: short enough never to fail.
    fn from_sign_and_magnitude(negative: bool, magnitude: u128) -> (r: Self)
        ensures
            r.wf(),
            r.view() == (if negative {
                seq![0x2du8]
            } else {
                Seq::<u8>::empty()
            }) + spec_digits(magnitude as nat),
    {
        let bytes = decimal_bytes(negative, magnitude);
        proof {
            lemma_u128_digits(magnitude);
            assert forall|i: int| 0 <= i < bytes@.len() implies bytes@[i] < 0x80 by {
                if negative && i > 0 {
                    assert(bytes@[i] == spec_digits(magnitude as nat)[i - 1]);
                } else if !negative {
                    assert(bytes@[i] == spec_digits(magnitude as nat)[i]);
                }
            }
            lemma_ascii_valid(bytes@);
            lemma_short_heap_ok::<H>(bytes@.len());
        }
        match Self::new_with(bytes) {
            Ok(repr) => repr,
            Err(_) => {
                assert(false);
                Repr::new()
            },
        }
    }

    /// The decimal text of an unsigned integer.
    pub fn from_unsigned(value: u128) -> (r: Result<Self, ReserveError>)
        ensures
            r matches Ok(s) && s.wf() && s.view() == spec_decimal(value as int),
    {
        let repr = Self::from_sign_and_magnitude(false, value);
        assert(Seq::<u8>::empty() + spec_digits(value as nat) =~= spec_digits(value as nat));
        Ok(repr)
    }

    /// The decimal text of a signed integer.
    pub fn from_signed(value: i128) -> (r: Result<Self, ReserveError>)
        ensures
            r matches Ok(s) && s.wf() && s.view() == spec_decimal(value as int),
    {
        if value < 0 {
            let magnitude: u128 = ((-(value + 1)) as u128) + 1;
            Ok(Self::from_sign_and_magnitude(true, magnitude))
        } else {
            let repr = Self::from_sign_and_magnitude(false, value as u128);
            assert(Seq::<u8>::empty() + spec_digits(value as nat) =~= spec_digits(value as nat));
            Ok(repr)
        }
    }
}

} // verus!
