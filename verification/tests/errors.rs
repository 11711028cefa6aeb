use lean_string::{
    FromUtf16Error, FromUtf16ErrorKind, LeanString, ReserveError, ToLeanStrError,
    ToLeanStringError,
};

#[test]
fn from_utf16_error_messages() {
    let lone = FromUtf16Error { kind: FromUtf16ErrorKind::LoneSurrogate };
    let odd = FromUtf16Error { kind: FromUtf16ErrorKind::OddBytes };
    assert_eq!(lone.message(), "invalid utf-16: lone surrogate found");
    assert_eq!(odd.message(), "invalid utf-16: odd number of bytes");
}

#[test]
fn conversion_errors_wrap_their_causes() {
    assert_eq!(ToLeanStrError::from(ReserveError), ToLeanStrError::Reserve(ReserveError));
    assert_eq!(ToLeanStringError::from(ReserveError), ToLeanStringError::Reserve(ReserveError));
    assert_eq!(ToLeanStrError::from(core::fmt::Error), ToLeanStrError::Fmt(core::fmt::Error));
    assert_eq!(
        ToLeanStringError::from(core::fmt::Error),
        ToLeanStringError::Fmt(core::fmt::Error)
    );
}

#[test]
fn reserve_error_on_impossible_capacity() {
    assert_eq!(LeanString::try_with_capacity(usize::MAX).err(), Some(ReserveError));
    let mut s = LeanString::try_from_str("x").unwrap();
    assert_eq!(s.try_push_str("y"), Ok(()));
    assert_eq!(s.as_str(), "xy");
}
