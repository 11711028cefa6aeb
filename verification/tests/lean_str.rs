use lean_string::LeanStr;

const INLINE_LIMIT: usize = 2 * size_of::<usize>();

fn lean_str(text: &str) -> LeanStr {
    LeanStr::try_from_str(text).unwrap()
}

#[test]
fn new_empty() {
    assert_eq!(LeanStr::new().as_str(), "");

    let s = LeanStr::new();
    assert_eq!(s.as_str(), "");
    assert!(s.is_empty());
    assert_eq!(s.len(), 0);
    assert!(!s.is_heap_allocated());

    assert_eq!(LeanStr::default().as_str(), "");
}

#[test]
fn from_char() {
    assert_eq!(LeanStr::from_char('a').as_str(), "a");
    assert_eq!(LeanStr::from_char('👍').as_str(), "👍");
    assert_eq!(LeanStr::from_char('\u{f09b}').as_str(), "\u{f09b}");
}

#[test]
fn from_char_utf8_length_boundaries() {
    let chars = [
        '\0',
        'a',
        '\u{7F}',
        '\u{80}',
        'é',
        '\u{7FF}',
        '\u{800}',
        'あ',
        '\u{FFFF}',
        '\u{10000}',
        '🦀',
        '\u{10FFFF}',
    ];
    for ch in chars {
        let s = LeanStr::from_char(ch);
        assert_eq!(s.as_str(), String::from(ch));
        assert_eq!(s.len(), ch.len_utf8());
        assert!(!s.is_heap_allocated());
    }
}

#[test]
fn from_around_inline_limit() {
    let s = &String::from("0123456789abcdefg");

    let inline = lean_str(&s[..INLINE_LIMIT - 1]);
    assert_eq!(inline.as_str(), &s[..INLINE_LIMIT - 1]);
    assert_eq!(inline.len(), INLINE_LIMIT - 1);
    assert!(!inline.is_heap_allocated());

    let inline = lean_str(&s[..INLINE_LIMIT]);
    assert_eq!(inline.as_str(), &s[..INLINE_LIMIT]);
    assert_eq!(inline.len(), INLINE_LIMIT);
    assert!(!inline.is_heap_allocated());

    let heap = lean_str(&s[..INLINE_LIMIT + 1]);
    assert_eq!(heap.as_str(), &s[..INLINE_LIMIT + 1]);
    assert_eq!(heap.len(), INLINE_LIMIT + 1);
    assert!(heap.is_heap_allocated());
}

#[test]
fn from_static_str_around_inline_limit() {
    let s: &'static str = "0123456789abcdefg";

    let inline = LeanStr::try_from_static_str(&s[..INLINE_LIMIT - 1]).unwrap();
    assert_eq!(inline.as_str(), &s[..INLINE_LIMIT - 1]);
    assert!(!inline.is_heap_allocated());

    let inline = LeanStr::try_from_static_str(&s[..INLINE_LIMIT]).unwrap();
    assert_eq!(inline.as_str(), &s[..INLINE_LIMIT]);
    assert!(!inline.is_heap_allocated());

    let static_ = LeanStr::try_from_static_str(&s[..INLINE_LIMIT + 1]).unwrap();
    assert_eq!(static_.as_str(), &s[..INLINE_LIMIT + 1]);
    assert!(!static_.is_heap_allocated());
}

#[test]
fn clone_shares_heap_buffer() {
    let s = lean_str("abcdefghijklmnopqrstuvwxyz");
    let cloned = s.clone();
    assert_eq!(s.as_str().as_ptr(), cloned.as_str().as_ptr());

    drop(s);
    assert_eq!(cloned.as_str(), "abcdefghijklmnopqrstuvwxyz");
}

#[test]
fn repeat_around_inline() {
    let s = lean_str("a");
    assert!(!s.is_heap_allocated());

    assert_eq!(s.try_repeat(1).unwrap().as_str(), "a");

    let inline = s.try_repeat(INLINE_LIMIT).unwrap();
    assert_eq!(inline.as_str(), "a".repeat(INLINE_LIMIT));
    assert!(!inline.is_heap_allocated());

    let heap = s.try_repeat(INLINE_LIMIT + 1).unwrap();
    assert_eq!(heap.as_str(), "a".repeat(INLINE_LIMIT + 1));
    assert!(heap.is_heap_allocated());
}

#[test]
fn repeat_zero_or_empty() {
    let inline = lean_str("ab");
    assert!(!inline.is_heap_allocated());
    assert_eq!(inline.try_repeat(0).unwrap().as_str(), "");
    assert!(!inline.try_repeat(0).unwrap().is_heap_allocated());

    let heap = lean_str("a".repeat(INLINE_LIMIT + 1).as_str());
    assert!(heap.is_heap_allocated());
    assert_eq!(heap.try_repeat(0).unwrap().as_str(), "");
    assert!(!heap.try_repeat(0).unwrap().is_heap_allocated());

    let empty = LeanStr::new();
    assert_eq!(empty.try_repeat(0).unwrap().as_str(), "");
    assert_eq!(empty.try_repeat(1).unwrap().as_str(), "");
    assert_eq!(empty.try_repeat(100).unwrap().as_str(), "");
}

#[test]
fn repeat_heap() {
    let s = lean_str("a".repeat(INLINE_LIMIT + 1).as_str());
    assert!(s.is_heap_allocated());

    let r1 = s.try_repeat(1).unwrap();
    assert_eq!(r1.as_str(), s.as_str());
    assert_eq!(r1.as_str().as_ptr(), s.as_str().as_ptr()); // n == 1 returns clone

    let r2 = s.try_repeat(2).unwrap();
    assert_eq!(r2.len(), s.len() * 2);
    assert!(r2.is_heap_allocated());

    let r5 = s.try_repeat(5).unwrap();
    assert_eq!(r5.len(), s.len() * 5);
    assert!(r5.is_heap_allocated());
}

#[test]
fn repeat_static() {
    let s = LeanStr::try_from_static_str("0123456789abcdefghijklmnopqrstuvwxyz").unwrap();
    assert!(!s.is_heap_allocated());
    assert!(s.as_static_str().is_some());

    let r1 = s.try_repeat(1).unwrap();
    assert!(!r1.is_heap_allocated());
    assert_eq!(r1.as_static_str(), s.as_static_str());

    let r2 = s.try_repeat(2).unwrap();
    assert!(r2.is_heap_allocated());
    assert_eq!(r2.as_str(), s.as_str().repeat(2))
}

#[test]
fn try_repeat_overflow_is_err() {
    let s = lean_str("ab");
    assert!(s.try_repeat(usize::MAX).is_err());
}

#[test]
fn repeat_multibyte_text() {
    let s = lean_str("é日");
    let r = s.try_repeat(3).unwrap();
    assert_eq!(r.as_str(), "é日é日é日");
    assert!(!r.is_heap_allocated());
    let h = s.try_repeat(4).unwrap();
    assert_eq!(h.as_str(), "é日".repeat(4));
    assert!(h.is_heap_allocated());
}

#[test]
fn lean_str_ascii_case_copies() {
    let s = lean_str("Hello, Wörld! 123");
    assert_eq!(s.try_to_ascii_lowercase().unwrap().as_str(), "hello, wörld! 123");
    assert_eq!(s.try_to_ascii_uppercase().unwrap().as_str(), "HELLO, WöRLD! 123");

    let long = lean_str("nothing to change in this long text");
    let same = long.try_to_ascii_lowercase().unwrap();
    assert_eq!(same.as_str().as_ptr(), long.as_str().as_ptr());
}

#[test]
fn inline_limit_is_two_words() {
    assert_eq!(lean_string::MAX_INLINE_SIZE, 2 * size_of::<usize>());
}
