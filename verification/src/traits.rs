//! Conversions of values to the string types.
use vstd::prelude::*;
use vstd::string::*;
use vstd::utf8::*;

use crate::errors::{ToLeanStrError, ToLeanStringError};
use crate::lean_str::LeanStr;
use crate::lean_string::LeanString;
use crate::repr::heap_buffer::{ExactHeader, GrowableHeader};
use crate::repr::num_to_repr::spec_decimal;
use crate::repr::{spec_heap_ok, Repr};
use crate::MAX_INLINE_SIZE;

verus! {

/// A trait for converting a value to a [`LeanString`].
pub trait ToLeanString {
    /// The text the value converts to, as UTF-8 bytes.
    spec fn lean_text(&self) -> Seq<u8>;

    /// Attempts to convert the value to a [`LeanString`].
    ///
    /// # Errors
    ///
    /// Returns a [`ToLeanStringError`] if the conversion fails.
    fn try_to_lean_string(&self) -> (r: Result<LeanString, ToLeanStringError>)
        ensures
            r matches Ok(s) ==> s@ == self.lean_text(),
    ;
}

/// A trait for converting a value to a [`LeanStr`].
pub trait ToLeanStr {
    /// The text the value converts to, as UTF-8 bytes.
    spec fn lean_text(&self) -> Seq<u8>;

    /// Attempts to convert the value to a [`LeanStr`].
    ///
    /// # Errors
    ///
    /// Returns a [`ToLeanStrError`] if the conversion fails.
    fn try_to_lean_str(&self) -> (r: Result<LeanStr, ToLeanStrError>)
        ensures
            r matches Ok(s) ==> s@ == self.lean_text(),
    ;
}

impl ToLeanString for str {
    open spec fn lean_text(&self) -> Seq<u8> {
        self.spec_bytes()
    }

    /// A copy of the text: inline when it fits, in a new heap buffer otherwise.
    fn try_to_lean_string(&self) -> (r: Result<LeanString, ToLeanStringError>)
        ensures
            self.spec_bytes().len() <= MAX_INLINE_SIZE ==> r is Ok,
            self.spec_bytes().len() > MAX_INLINE_SIZE && !spec_heap_ok::<GrowableHeader>(
                self.spec_bytes().len(),
            ) ==> r is Err,
            r matches Err(e) ==> e is Reserve,
    {
        match LeanString::try_from_str(self) {
            Ok(s) => Ok(s),
            Err(e) => Err(ToLeanStringError::Reserve(e)),
        }
    }
}

impl ToLeanString for String {
    open spec fn lean_text(&self) -> Seq<u8> {
        encode_utf8(self@)
    }

    /// A copy of the text: inline when it fits, in a new heap buffer otherwise.
    fn try_to_lean_string(&self) -> (r: Result<LeanString, ToLeanStringError>)
        ensures
            encode_utf8(self@).len() <= MAX_INLINE_SIZE ==> r is Ok,
            encode_utf8(self@).len() > MAX_INLINE_SIZE && !spec_heap_ok::<GrowableHeader>(
                encode_utf8(self@).len(),
            ) ==> r is Err,
            r matches Err(e) ==> e is Reserve,
    {
        match LeanString::try_from_str(self.as_str()) {
            Ok(s) => Ok(s),
            Err(e) => Err(ToLeanStringError::Reserve(e)),
        }
    }
}

impl ToLeanString for bool {
    open spec fn lean_text(&self) -> Seq<u8> {
        if *self {
            "true".spec_bytes()
        } else {
            "false".spec_bytes()
        }
    }

    /// `"true"` or `"false"`, kept inline.
    fn try_to_lean_string(&self) -> (r: Result<LeanString, ToLeanStringError>)
        ensures
            r is Ok,
    {
        Ok(LeanString::from_bool(*self))
    }
}

impl ToLeanString for char {
    open spec fn lean_text(&self) -> Seq<u8> {
        encode_scalar(*self as u32)
    }

    /// The character alone, kept inline.
    fn try_to_lean_string(&self) -> (r: Result<LeanString, ToLeanStringError>)
        ensures
            r is Ok,
    {
        Ok(LeanString::from_char(*self))
    }
}

impl ToLeanString for u8 {
    open spec fn lean_text(&self) -> Seq<u8> {
        spec_decimal(*self as int)
    }

    /// The decimal text, which never fails to fit.
    fn try_to_lean_string(&self) -> (r: Result<LeanString, ToLeanStringError>)
        ensures
            r is Ok,
    {
        match Repr::<GrowableHeader>::from_unsigned(*self as u128) {
            Ok(repr) => Ok(LeanString::from_repr(repr)),
            Err(e) => Err(ToLeanStringError::Reserve(e)),
        }
    }
}

impl ToLeanString for u16 {
    open spec fn lean_text(&self) -> Seq<u8> {
        spec_decimal(*self as int)
    }

    /// The decimal text, which never fails to fit.
    fn try_to_lean_string(&self) -> (r: Result<LeanString, ToLeanStringError>)
        ensures
            r is Ok,
    {
        match Repr::<GrowableHeader>::from_unsigned(*self as u128) {
            Ok(repr) => Ok(LeanString::from_repr(repr)),
            Err(e) => Err(ToLeanStringError::Reserve(e)),
        }
    }
}

impl ToLeanString for u32 {
    open spec fn lean_text(&self) -> Seq<u8> {
        spec_decimal(*self as int)
    }

    /// The decimal text, which never fails to fit.
    fn try_to_lean_string(&self) -> (r: Result<LeanString, ToLeanStringError>)
        ensures
            r is Ok,
    {
        match Repr::<GrowableHeader>::from_unsigned(*self as u128) {
            Ok(repr) => Ok(LeanString::from_repr(repr)),
            Err(e) => Err(ToLeanStringError::Reserve(e)),
        }
    }
}

impl ToLeanString for u64 {
    open spec fn lean_text(&self) -> Seq<u8> {
        spec_decimal(*self as int)
    }

    /// The decimal text, which never fails to fit.
    fn try_to_lean_string(&self) -> (r: Result<LeanString, ToLeanStringError>)
        ensures
            r is Ok,
    {
        match Repr::<GrowableHeader>::from_unsigned(*self as u128) {
            Ok(repr) => Ok(LeanString::from_repr(repr)),
            Err(e) => Err(ToLeanStringError::Reserve(e)),
        }
    }
}

impl ToLeanString for u128 {
    open spec fn lean_text(&self) -> Seq<u8> {
        spec_decimal(*self as int)
    }

    /// The decimal text, which never fails to fit.
    fn try_to_lean_string(&self) -> (r: Result<LeanString, ToLeanStringError>)
        ensures
            r is Ok,
    {
        match Repr::<GrowableHeader>::from_unsigned(*self as u128) {
            Ok(repr) => Ok(LeanString::from_repr(repr)),
            Err(e) => Err(ToLeanStringError::Reserve(e)),
        }
    }
}

impl ToLeanString for usize {
    open spec fn lean_text(&self) -> Seq<u8> {
        spec_decimal(*self as int)
    }

    /// The decimal text, which never fails to fit.
    fn try_to_lean_string(&self) -> (r: Result<LeanString, ToLeanStringError>)
        ensures
            r is Ok,
    {
        match Repr::<GrowableHeader>::from_unsigned(*self as u128) {
            Ok(repr) => Ok(LeanString::from_repr(repr)),
            Err(e) => Err(ToLeanStringError::Reserve(e)),
        }
    }
}

impl ToLeanString for i8 {
    open spec fn lean_text(&self) -> Seq<u8> {
        spec_decimal(*self as int)
    }

    /// The decimal text, which never fails to fit.
    fn try_to_lean_string(&self) -> (r: Result<LeanString, ToLeanStringError>)
        ensures
            r is Ok,
    {
        match Repr::<GrowableHeader>::from_signed(*self as i128) {
            Ok(repr) => Ok(LeanString::from_repr(repr)),
            Err(e) => Err(ToLeanStringError::Reserve(e)),
        }
    }
}

impl ToLeanString for i16 {
    open spec fn lean_text(&self) -> Seq<u8> {
        spec_decimal(*self as int)
    }

    /// The decimal text, which never fails to fit.
    fn try_to_lean_string(&self) -> (r: Result<LeanString, ToLeanStringError>)
        ensures
            r is Ok,
    {
        match Repr::<GrowableHeader>::from_signed(*self as i128) {
            Ok(repr) => Ok(LeanString::from_repr(repr)),
            Err(e) => Err(ToLeanStringError::Reserve(e)),
        }
    }
}

impl ToLeanString for i32 {
    open spec fn lean_text(&self) -> Seq<u8> {
        spec_decimal(*self as int)
    }

    /// The decimal text, which never fails to fit.
    fn try_to_lean_string(&self) -> (r: Result<LeanString, ToLeanStringError>)
        ensures
            r is Ok,
    {
        match Repr::<GrowableHeader>::from_signed(*self as i128) {
            Ok(repr) => Ok(LeanString::from_repr(repr)),
            Err(e) => Err(ToLeanStringError::Reserve(e)),
        }
    }
}

impl ToLeanString for i64 {
    open spec fn lean_text(&self) -> Seq<u8> {
        spec_decimal(*self as int)
    }

    /// The decimal text, which never fails to fit.
    fn try_to_lean_string(&self) -> (r: Result<LeanString, ToLeanStringError>)
        ensures
            r is Ok,
    {
        match Repr::<GrowableHeader>::from_signed(*self as i128) {
            Ok(repr) => Ok(LeanString::from_repr(repr)),
            Err(e) => Err(ToLeanStringError::Reserve(e)),
        }
    }
}

impl ToLeanString for i128 {
    open spec fn lean_text(&self) -> Seq<u8> {
        spec_decimal(*self as int)
    }

    /// The decimal text, which never fails to fit.
    fn try_to_lean_string(&self) -> (r: Result<LeanString, ToLeanStringError>)
        ensures
            r is Ok,
    {
        match Repr::<GrowableHeader>::from_signed(*self as i128) {
            Ok(repr) => Ok(LeanString::from_repr(repr)),
            Err(e) => Err(ToLeanStringError::Reserve(e)),
        }
    }
}

impl ToLeanString for isize {
    open spec fn lean_text(&self) -> Seq<u8> {
        spec_decimal(*self as int)
    }

    /// The decimal text, which never fails to fit.
    fn try_to_lean_string(&self) -> (r: Result<LeanString, ToLeanStringError>)
        ensures
            r is Ok,
    {
        match Repr::<GrowableHeader>::from_signed(*self as i128) {
            Ok(repr) => Ok(LeanString::from_repr(repr)),
            Err(e) => Err(ToLeanStringError::Reserve(e)),
        }
    }
}

impl ToLeanStr for str {
    open spec fn lean_text(&self) -> Seq<u8> {
        self.spec_bytes()
    }

    /// A copy of the text: inline when it fits, in a new heap buffer otherwise.
    fn try_to_lean_str(&self) -> (r: Result<LeanStr, ToLeanStrError>)
        ensures
            self.spec_bytes().len() <= MAX_INLINE_SIZE ==> r is Ok,
            self.spec_bytes().len() > MAX_INLINE_SIZE && !spec_heap_ok::<ExactHeader>(
                self.spec_bytes().len(),
            ) ==> r is Err,
            r matches Err(e) ==> e is Reserve,
    {
        match LeanStr::try_from_str(self) {
            Ok(s) => Ok(s),
            Err(e) => Err(ToLeanStrError::Reserve(e)),
        }
    }
}

impl ToLeanStr for String {
    open spec fn lean_text(&self) -> Seq<u8> {
        encode_utf8(self@)
    }

    /// A copy of the text: inline when it fits, in a new heap buffer otherwise.
    fn try_to_lean_str(&self) -> (r: Result<LeanStr, ToLeanStrError>)
        ensures
            encode_utf8(self@).len() <= MAX_INLINE_SIZE ==> r is Ok,
            encode_utf8(self@).len() > MAX_INLINE_SIZE && !spec_heap_ok::<ExactHeader>(
                encode_utf8(self@).len(),
            ) ==> r is Err,
            r matches Err(e) ==> e is Reserve,
    {
        match LeanStr::try_from_str(self.as_str()) {
            Ok(s) => Ok(s),
            Err(e) => Err(ToLeanStrError::Reserve(e)),
        }
    }
}

impl ToLeanStr for bool {
    open spec fn lean_text(&self) -> Seq<u8> {
        if *self {
            "true".spec_bytes()
        } else {
            "false".spec_bytes()
        }
    }

    /// `"true"` or `"false"`, kept inline.
    fn try_to_lean_str(&self) -> (r: Result<LeanStr, ToLeanStrError>)
        ensures
            r is Ok,
    {
        Ok(LeanStr::from_bool(*self))
    }
}

impl ToLeanStr for char {
    open spec fn lean_text(&self) -> Seq<u8> {
        encode_scalar(*self as u32)
    }

    /// The character alone, kept inline.
    fn try_to_lean_str(&self) -> (r: Result<LeanStr, ToLeanStrError>)
        ensures
            r is Ok,
    {
        Ok(LeanStr::from_char(*self))
    }
}

impl ToLeanStr for u8 {
    open spec fn lean_text(&self) -> Seq<u8> {
        spec_decimal(*self as int)
    }

    /// The decimal text, which never fails to fit.
    fn try_to_lean_str(&self) -> (r: Result<LeanStr, ToLeanStrError>)
        ensures
            r is Ok,
    {
        match Repr::<ExactHeader>::from_unsigned(*self as u128) {
            Ok(repr) => Ok(LeanStr::from_repr(repr)),
            Err(e) => Err(ToLeanStrError::Reserve(e)),
        }
    }
}

impl ToLeanStr for u16 {
    open spec fn lean_text(&self) -> Seq<u8> {
        spec_decimal(*self as int)
    }

    /// The decimal text, which never fails to fit.
    fn try_to_lean_str(&self) -> (r: Result<LeanStr, ToLeanStrError>)
        ensures
            r is Ok,
    {
        match Repr::<ExactHeader>::from_unsigned(*self as u128) {
            Ok(repr) => Ok(LeanStr::from_repr(repr)),
            Err(e) => Err(ToLeanStrError::Reserve(e)),
        }
    }
}

impl ToLeanStr for u32 {
    open spec fn lean_text(&self) -> Seq<u8> {
        spec_decimal(*self as int)
    }

    /// The decimal text, which never fails to fit.
    fn try_to_lean_str(&self) -> (r: Result<LeanStr, ToLeanStrError>)
        ensures
            r is Ok,
    {
        match Repr::<ExactHeader>::from_unsigned(*self as u128) {
            Ok(repr) => Ok(LeanStr::from_repr(repr)),
            Err(e) => Err(ToLeanStrError::Reserve(e)),
        }
    }
}

impl ToLeanStr for u64 {
    open spec fn lean_text(&self) -> Seq<u8> {
        spec_decimal(*self as int)
    }

    /// The decimal text, which never fails to fit.
    fn try_to_lean_str(&self) -> (r: Result<LeanStr, ToLeanStrError>)
        ensures
            r is Ok,
    {
        match Repr::<ExactHeader>::from_unsigned(*self as u128) {
            Ok(repr) => Ok(LeanStr::from_repr(repr)),
            Err(e) => Err(ToLeanStrError::Reserve(e)),
        }
    }
}

impl ToLeanStr for u128 {
    open spec fn lean_text(&self) -> Seq<u8> {
        spec_decimal(*self as int)
    }

    /// The decimal text, which never fails to fit.
    fn try_to_lean_str(&self) -> (r: Result<LeanStr, ToLeanStrError>)
        ensures
            r is Ok,
    {
        match Repr::<ExactHeader>::from_unsigned(*self as u128) {
            Ok(repr) => Ok(LeanStr::from_repr(repr)),
            Err(e) => Err(ToLeanStrError::Reserve(e)),
        }
    }
}

impl ToLeanStr for usize {
    open spec fn lean_text(&self) -> Seq<u8> {
        spec_decimal(*self as int)
    }

    /// The decimal text, which never fails to fit.
    fn try_to_lean_str(&self) -> (r: Result<LeanStr, ToLeanStrError>)
        ensures
            r is Ok,
    {
        match Repr::<ExactHeader>::from_unsigned(*self as u128) {
            Ok(repr) => Ok(LeanStr::from_repr(repr)),
            Err(e) => Err(ToLeanStrError::Reserve(e)),
        }
    }
}

impl ToLeanStr for i8 {
    open spec fn lean_text(&self) -> Seq<u8> {
        spec_decimal(*self as int)
    }

    /// The decimal text, which never fails to fit.
    fn try_to_lean_str(&self) -> (r: Result<LeanStr, ToLeanStrError>)
        ensures
            r is Ok,
    {
        match Repr::<ExactHeader>::from_signed(*self as i128) {
            Ok(repr) => Ok(LeanStr::from_repr(repr)),
            Err(e) => Err(ToLeanStrError::Reserve(e)),
        }
    }
}

impl ToLeanStr for i16 {
    open spec fn lean_text(&self) -> Seq<u8> {
        spec_decimal(*self as int)
    }

    /// The decimal text, which never fails to fit.
    fn try_to_lean_str(&self) -> (r: Result<LeanStr, ToLeanStrError>)
        ensures
            r is Ok,
    {
        match Repr::<ExactHeader>::from_signed(*self as i128) {
            Ok(repr) => Ok(LeanStr::from_repr(repr)),
            Err(e) => Err(ToLeanStrError::Reserve(e)),
        }
    }
}

impl ToLeanStr for i32 {
    open spec fn lean_text(&self) -> Seq<u8> {
        spec_decimal(*self as int)
    }

    /// The decimal text, which never fails to fit.
    fn try_to_lean_str(&self) -> (r: Result<LeanStr, ToLeanStrError>)
        ensures
            r is Ok,
    {
        match Repr::<ExactHeader>::from_signed(*self as i128) {
            Ok(repr) => Ok(LeanStr::from_repr(repr)),
            Err(e) => Err(ToLeanStrError::Reserve(e)),
        }
    }
}

impl ToLeanStr for i64 {
    open spec fn lean_text(&self) -> Seq<u8> {
        spec_decimal(*self as int)
    }

    /// The decimal text, which never fails to fit.
    fn try_to_lean_str(&self) -> (r: Result<LeanStr, ToLeanStrError>)
        ensures
            r is Ok,
    {
        match Repr::<ExactHeader>::from_signed(*self as i128) {
            Ok(repr) => Ok(LeanStr::from_repr(repr)),
            Err(e) => Err(ToLeanStrError::Reserve(e)),
        }
    }
}

impl ToLeanStr for i128 {
    open spec fn lean_text(&self) -> Seq<u8> {
        spec_decimal(*self as int)
    }

    /// The decimal text, which never fails to fit.
    fn try_to_lean_str(&self) -> (r: Result<LeanStr, ToLeanStrError>)
        ensures
            r is Ok,
    {
        match Repr::<ExactHeader>::from_signed(*self as i128) {
            Ok(repr) => Ok(LeanStr::from_repr(repr)),
            Err(e) => Err(ToLeanStrError::Reserve(e)),
        }
    }
}

impl ToLeanStr for isize {
    open spec fn lean_text(&self) -> Seq<u8> {
        spec_decimal(*self as int)
    }

    /// The decimal text, which never fails to fit.
    fn try_to_lean_str(&self) -> (r: Result<LeanStr, ToLeanStrError>)
        ensures
            r is Ok,
    {
        match Repr::<ExactHeader>::from_signed(*self as i128) {
            Ok(repr) => Ok(LeanStr::from_repr(repr)),
            Err(e) => Err(ToLeanStrError::Reserve(e)),
        }
    }
}

impl ToLeanString for LeanString {
    open spec fn lean_text(&self) -> Seq<u8> {
        self@
    }

    /// A clone that shares the heap buffer, if there is one.
    fn try_to_lean_string(&self) -> (r: Result<LeanString, ToLeanStringError>)
        ensures
            r matches Ok(s) && s.spec_repr() == self.spec_repr(),
    {
        Ok(self.clone_shallow())
    }
}

impl ToLeanString for LeanStr {
    open spec fn lean_text(&self) -> Seq<u8> {
        self@
    }

    /// A clone turned into a mutable string.
    fn try_to_lean_string(&self) -> (r: Result<LeanString, ToLeanStringError>)
        ensures
            !self.spec_is_heap() ==> r is Ok,
            r matches Err(e) ==> e is Reserve,
    {
        match self.clone_shallow().try_into_lean_string() {
            Ok(s) => Ok(s),
            Err((_, e)) => Err(ToLeanStringError::Reserve(e)),
        }
    }
}

impl ToLeanStr for LeanStr {
    open spec fn lean_text(&self) -> Seq<u8> {
        self@
    }

    /// A clone that shares the heap buffer, if there is one.
    fn try_to_lean_str(&self) -> (r: Result<LeanStr, ToLeanStrError>)
        ensures
            r matches Ok(s) && s.spec_repr() == self.spec_repr(),
    {
        Ok(self.clone_shallow())
    }
}

impl ToLeanStr for LeanString {
    open spec fn lean_text(&self) -> Seq<u8> {
        self@
    }

    /// A clone turned into an immutable string.
    fn try_to_lean_str(&self) -> (r: Result<LeanStr, ToLeanStrError>)
        ensures
            !self.spec_is_heap() ==> r is Ok,
            r matches Err(e) ==> e is Reserve,
    {
        match self.clone_shallow().try_into_lean_str() {
            Ok(s) => Ok(s),
            Err((_, e)) => Err(ToLeanStrError::Reserve(e)),
        }
    }
}

} // verus!
