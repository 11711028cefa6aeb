use lean_string::{LeanStr, LeanString, ToLeanStr, ToLeanString};

#[test]
fn bool_to_lean_string() {
    let t = true;
    let f = false;
    assert_eq!(t.try_to_lean_string().unwrap().as_str(), t.to_string());
    assert_eq!(f.try_to_lean_string().unwrap().as_str(), f.to_string());
}

#[test]
fn bool_to_lean_str() {
    let t = true;
    let f = false;
    assert_eq!(t.try_to_lean_str().unwrap().as_str(), t.to_string());
    assert_eq!(f.try_to_lean_str().unwrap().as_str(), f.to_string());
}

#[test]
fn u8_to_lean_string() {
    for num in u8::MIN..=u8::MAX {
        assert_eq!(num.try_to_lean_string().unwrap().as_str(), num.to_string());
    }
}

#[test]
fn u8_to_lean_str() {
    for num in u8::MIN..=u8::MAX {
        assert_eq!(num.try_to_lean_str().unwrap().as_str(), num.to_string());
    }
}

#[test]
fn i8_to_lean_string() {
    for num in i8::MIN..=i8::MAX {
        assert_eq!(num.try_to_lean_string().unwrap().as_str(), num.to_string());
    }
}

#[test]
fn i8_to_lean_str() {
    for num in i8::MIN..=i8::MAX {
        assert_eq!(num.try_to_lean_str().unwrap().as_str(), num.to_string());
    }
}

#[test]
fn integer_extremes_to_lean_string() {
    assert_eq!(u16::MAX.try_to_lean_string().unwrap().as_str(), "65535");
    assert_eq!(i16::MIN.try_to_lean_string().unwrap().as_str(), "-32768");
    assert_eq!(u32::MAX.try_to_lean_string().unwrap().as_str(), "4294967295");
    assert_eq!(i32::MIN.try_to_lean_string().unwrap().as_str(), "-2147483648");
    assert_eq!(u64::MAX.try_to_lean_string().unwrap().as_str(), "18446744073709551615");
    assert_eq!(i64::MIN.try_to_lean_string().unwrap().as_str(), "-9223372036854775808");
    assert_eq!(usize::MAX.try_to_lean_string().unwrap().as_str(), usize::MAX.to_string());
    assert_eq!(isize::MIN.try_to_lean_string().unwrap().as_str(), isize::MIN.to_string());
    assert_eq!(0u32.try_to_lean_string().unwrap().as_str(), "0");
    assert_eq!((-7i64).try_to_lean_string().unwrap().as_str(), "-7");
}

#[test]
fn wide_integers_to_lean_str() {
    let max = u128::MAX.try_to_lean_str().unwrap();
    assert_eq!(max.as_str(), "340282366920938463463374607431768211455");
    assert!(max.is_heap_allocated());

    let min = i128::MIN.try_to_lean_str().unwrap();
    assert_eq!(min.as_str(), "-170141183460469231731687303715884105728");
    assert_eq!(i128::MAX.try_to_lean_str().unwrap().as_str(), i128::MAX.to_string());
    assert_eq!(1234567890123456u64.try_to_lean_str().unwrap().as_str(), "1234567890123456");
    assert!(!1234567890123456u64.try_to_lean_str().unwrap().is_heap_allocated());
}

#[test]
fn sampled_integers_match_display() {
    let mut x: u64 = 1;
    for _ in 0..200 {
        x = x.wrapping_mul(6364136223846793005).wrapping_add(1442695040888963407);
        assert_eq!(x.try_to_lean_string().unwrap().as_str(), x.to_string());
        let y = x as i64;
        assert_eq!(y.try_to_lean_str().unwrap().as_str(), y.to_string());
        let z = (x >> 40) as u32;
        assert_eq!(z.try_to_lean_string().unwrap().as_str(), z.to_string());
        let w = ((x as u128) << 64) | (x.rotate_left(17) as u128);
        assert_eq!(w.try_to_lean_str().unwrap().as_str(), w.to_string());
        let v = w as i128;
        assert_eq!(v.try_to_lean_string().unwrap().as_str(), v.to_string());
    }
}

#[test]
fn char_to_lean_string_and_str() {
    for c in ['a', 'é', 'あ', '🦀', '\u{10FFFF}', '\0'] {
        assert_eq!(c.try_to_lean_string().unwrap().as_str(), c.to_string());
        assert_eq!(c.try_to_lean_str().unwrap().as_str(), c.to_string());
    }
}

#[test]
fn strings_to_lean_string_and_str() {
    let short = String::from("short");
    let long = String::from("a text that is longer than the inline buffer limit");
    assert_eq!(short.try_to_lean_string().unwrap().as_str(), short);
    assert!(!short.try_to_lean_string().unwrap().is_heap_allocated());
    assert_eq!(long.try_to_lean_str().unwrap().as_str(), long);
    assert!(long.try_to_lean_str().unwrap().is_heap_allocated());
    assert_eq!("é日".try_to_lean_string().unwrap().as_str(), "é日");
    assert_eq!("é日".try_to_lean_str().unwrap().as_str(), "é日");
}

#[test]
fn lean_strings_to_each_other() {
    let text = "a shared heap text, longer than the inline limit";
    let s = LeanString::try_from_str(text).unwrap();
    let same = s.try_to_lean_string().unwrap();
    assert_eq!(same.as_str().as_ptr(), s.as_str().as_ptr());
    let immutable = s.try_to_lean_str().unwrap();
    assert_eq!(immutable.as_str(), text);
    assert_eq!(s.as_str(), text);

    let t = LeanStr::try_from_str(text).unwrap();
    let same = t.try_to_lean_str().unwrap();
    assert_eq!(same.as_str().as_ptr(), t.as_str().as_ptr());
    let mutable = t.try_to_lean_string().unwrap();
    assert_eq!(mutable.as_str(), text);
    assert_eq!(t.as_str(), text);
}
