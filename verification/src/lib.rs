//! A compact, clone-on-write string with small-string optimization.
#![allow(unused_imports)]

use vstd::prelude::*;

pub mod case;
mod chars;
pub mod bench;
pub mod errors;
mod std_glue;
pub mod lean_str;
pub mod lean_string;
pub mod repr;
pub mod traits;
pub mod utf16;

pub use lean_str::LeanStr;
pub use lean_string::LeanString;
pub use traits::{ToLeanStr, ToLeanString};
pub use errors::{FromUtf16Error, FromUtf16ErrorKind, ReserveError, ToLeanStrError, ToLeanStringError};

verus! {

/// The largest number of bytes that a string keeps in place, without a separate buffer: two
/// machine words, 16 bytes on a 64-bit target and 8 on a 32-bit one.
pub const MAX_INLINE_SIZE: usize = usize::BITS as usize / 4;

} // verus!
