//! The calls into `std` that `vstd` gives no specification, each behind a contract that states
//! what the call's documentation promises.
use std::sync::Arc;
use vstd::prelude::*;
use vstd::string::*;
use vstd::utf8::*;

verus! {

/// `core::str::Utf8Error`, the error of [`str_from_utf8`].
#[verifier::external_type_specification]
#[verifier::external_body]
pub struct ExUtf8Error(core::str::Utf8Error);

/// Calls `core::str::from_utf8`. Its documentation states that it returns the text that `bytes`
/// encode when they are valid UTF-8, and an error otherwise.
#[verifier::external_body]
pub fn str_from_utf8(bytes: &[u8]) -> (r: Result<&str, core::str::Utf8Error>)
    ensures
        r is Ok <==> valid_utf8(bytes@),
        r matches Ok(s) ==> s.spec_bytes() == bytes@,
{
    core::str::from_utf8(bytes)
}

/// Calls `char::from_u32`. Its documentation states that it returns the `char` whose value is `v`
/// when `v` is a Unicode scalar value, and `None` otherwise.
#[verifier::external_body]
pub fn char_from_u32(v: u32) -> (r: Option<char>)
    ensures
        r is Some <==> is_scalar(v),
        r matches Some(c) ==> c as u32 == v,
{
    char::from_u32(v)
}

/// Calls `Arc::strong_count`: the number of handles that share the allocation. The number depends
/// on the other handles alive at the time of the call, which no argument shows, so nothing is
/// stated of it.
#[verifier::external_body]
pub fn arc_strong_count<T>(this: &Arc<T>) -> usize {
    Arc::strong_count(this)
}

/// Calls `Arc::try_unwrap`. Its documentation states that it hands back the inner value when
/// `this` is the only strong handle, and hands `this` back otherwise. Which of the two happens
/// depends on the other handles alive at the time of the call, so only what holds either way is
/// stated.
#[verifier::external_body]
pub fn arc_try_unwrap<T>(this: Arc<T>) -> (r: Result<T, Arc<T>>)
    ensures
        match r {
            Ok(t) => t == *this,
            Err(a) => a == this,
        },
{
    Arc::try_unwrap(this)
}

/// Calls `Arc::clone`, which makes a new handle to the same allocation, and so to the same value.
#[verifier::external_body]
pub fn arc_clone<T>(this: &Arc<T>) -> (r: Arc<T>)
    ensures
        r == *this,
{
    Arc::clone(this)
}

/// The characters that `char::to_lowercase` gives for `c`: its lowercase mapping in the Unicode
/// tables that `std` carries.
pub uninterp spec fn lowercase_chars(c: char) -> Seq<char>;

/// The characters that `char::to_uppercase` gives for `c`: its uppercase mapping in the Unicode
/// tables that `std` carries.
pub uninterp spec fn uppercase_chars(c: char) -> Seq<char>;

/// Calls `char::to_lowercase` and collects the characters it yields. They are a function of `c`
/// alone, named by [`lowercase_chars`]; the Unicode mapping itself is left unstated.
#[verifier::external_body]
pub fn char_to_lowercase(c: char) -> (r: Vec<char>)
    ensures
        r@ == lowercase_chars(c),
{
    c.to_lowercase().collect()
}

/// Calls `char::to_uppercase` and collects the characters it yields. They are a function of `c`
/// alone, named by [`uppercase_chars`]; the Unicode mapping itself is left unstated.
#[verifier::external_body]
pub fn char_to_uppercase(c: char) -> (r: Vec<char>)
    ensures
        r@ == uppercase_chars(c),
{
    c.to_uppercase().collect()
}

/// The characters that `str::to_lowercase` gives for a text: the lowercase mapping of each
/// character, with `Σ` taking its final form where it ends a word.
pub uninterp spec fn lowercase_text(s: Seq<char>) -> Seq<char>;

/// Calls `str::to_lowercase`. Its result is a function of the text alone, named by
/// [`lowercase_text`]; the mapping, and the rule for a final `Σ`, are left unstated.
#[verifier::external_body]
pub fn str_to_lowercase(s: &str) -> (r: String)
    ensures
        r@ == lowercase_text(s@),
{
    s.to_lowercase()
}

} // verus!
