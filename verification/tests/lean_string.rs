use lean_string::{LeanString, ReserveError, MAX_INLINE_SIZE};

const TEXT: &str = "a string longer than the inline limit";

fn lean_string(text: &str) -> LeanString {
    LeanString::try_from_str(text).unwrap()
}

#[test]
fn create_from_str_inline_or_heap() {
    for text in ["", "a", "0123456789abcdef", "0123456789abcdefg", "é日本語のテキスト", TEXT] {
        let s = lean_string(text);
        assert_eq!(s.as_str(), text);
        assert_eq!(s.len(), text.len());
        assert_eq!(s.is_heap_allocated(), text.len() > MAX_INLINE_SIZE);
    }
}

#[test]
fn pop_gives_back_pushed_char() {
    for start in ["", "abc", TEXT, "0123456789abcde"] {
        for c in ['x', 'é', 'あ', '🦀'] {
            let mut s = lean_string(start);
            s.try_push(c).unwrap();
            assert_eq!(s.as_str(), format!("{start}{c}"));
            assert_eq!(s.try_pop().unwrap(), Some(c));
            assert_eq!(s.as_str(), start);
        }
    }
    let mut empty = LeanString::new();
    assert_eq!(empty.try_pop().unwrap(), None);
}

#[test]
fn truncate_undoes_push_str() {
    let mut s = lean_string("héllo");
    let old_len = s.len();
    s.try_push_str(", wörld and more text").unwrap();
    assert_eq!(s.as_str(), "héllo, wörld and more text");
    s.try_truncate(old_len).unwrap();
    assert_eq!(s.as_str(), "héllo");
    s.try_truncate(100).unwrap();
    assert_eq!(s.as_str(), "héllo");
}

#[test]
fn remove_undoes_insert() {
    let mut s = lean_string(TEXT);
    s.try_insert(2, 'é').unwrap();
    assert_eq!(s.as_str(), "a éstring longer than the inline limit");
    assert_eq!(s.try_remove(2).unwrap(), 'é');
    assert_eq!(s.as_str(), TEXT);
}

#[test]
fn insert_str_in_the_middle() {
    let mut s = lean_string("hello world");
    s.try_insert_str(5, ",").unwrap();
    assert_eq!(s.as_str(), "hello, world");
    s.try_insert_str(0, ">> ").unwrap();
    assert_eq!(s.as_str(), ">> hello, world");
    s.try_insert_str(s.len(), " <<").unwrap();
    assert_eq!(s.as_str(), ">> hello, world <<");
    assert!(s.is_heap_allocated());
}

#[test]
fn insert_empty_str_keeps_static_text() {
    let mut s = LeanString::try_from_static_str(TEXT).unwrap();
    s.try_insert_str(2, "").unwrap();
    assert_eq!(s.as_str(), TEXT);
    assert_eq!(s.as_str().as_ptr(), TEXT.as_ptr());
    assert!(!s.is_heap_allocated());
}

#[test]
fn reserve_zero_keeps_shared_buffer() {
    let mut s = lean_string(TEXT);
    let shared = s.clone();
    assert_eq!(s.try_reserve(0), Ok(()));
    assert_eq!(s.as_str().as_ptr(), shared.as_str().as_ptr());

    s.try_reserve(1).unwrap();
    assert_ne!(s.as_str().as_ptr(), shared.as_str().as_ptr());
    s.try_push('!').unwrap();
    assert_eq!(s.as_str(), "a string longer than the inline limit!");
    assert_eq!(shared.as_str(), TEXT);
}

#[test]
fn reserve_zero_keeps_static_text() {
    let mut s = LeanString::try_from_static_str(TEXT).unwrap();
    assert_eq!(s.try_reserve(0), Ok(()));
    assert_eq!(s.as_static_str(), Some(TEXT));

    s.try_reserve(1).unwrap();
    assert!(s.is_heap_allocated());
    assert!(s.capacity() >= TEXT.len() + 1);
    s.try_push('!').unwrap();
    assert_eq!(s.as_str(), "a string longer than the inline limit!");
}

#[test]
fn reserve_beyond_usize_is_refused() {
    let mut s = lean_string("abc");
    assert_eq!(s.try_reserve(usize::MAX), Err(ReserveError));
    assert_eq!(s.as_str(), "abc");
    assert!(!s.is_heap_allocated());
    assert_eq!(LeanString::try_with_capacity(usize::MAX).err(), Some(ReserveError));
}

#[test]
fn reserve_grows_by_half() {
    let mut s = lean_string("0123456789abcdef");
    s.try_reserve(1).unwrap();
    assert!(s.is_heap_allocated());
    assert_eq!(s.capacity(), 24);
}

#[test]
fn with_capacity_inline_or_heap() {
    let s = LeanString::try_with_capacity(10).unwrap();
    assert!(!s.is_heap_allocated());
    assert_eq!(s.capacity(), MAX_INLINE_SIZE);
    let s = LeanString::try_with_capacity(100).unwrap();
    assert!(s.is_heap_allocated());
    assert_eq!(s.capacity(), 100);
    assert!(s.is_empty());
}

#[test]
fn clone_is_independent_after_change() {
    let mut s = lean_string(TEXT);
    let c = s.clone();
    s.try_push_str(" and more").unwrap();
    assert_eq!(c.as_str(), TEXT);
    assert_eq!(s.as_str(), "a string longer than the inline limit and more");
}

#[test]
fn retain_keeps_matching_chars() {
    let mut s = lean_string("a1b2c3 é4 日5 and a long tail");
    s.try_retain(|c: char| !c.is_ascii_digit()).unwrap();
    assert_eq!(s.as_str(), "abc é 日 and a long tail");
    let mut t = lean_string("xyz");
    t.try_retain(|_c: char| false).unwrap();
    assert_eq!(t.as_str(), "");
}

#[test]
fn shrink_moves_short_text_inline() {
    let mut s = LeanString::try_with_capacity(100).unwrap();
    s.try_push_str("short").unwrap();
    assert!(s.is_heap_allocated());
    s.try_shrink_to_fit().unwrap();
    assert!(!s.is_heap_allocated());
    assert_eq!(s.as_str(), "short");

    let mut t = LeanString::try_with_capacity(100).unwrap();
    t.try_push_str(TEXT).unwrap();
    t.try_shrink_to(50).unwrap();
    assert_eq!(t.capacity(), 50);
    t.try_shrink_to_fit().unwrap();
    assert_eq!(t.capacity(), TEXT.len());
    assert_eq!(t.as_str(), TEXT);
}

#[test]
fn clear_empties_text() {
    let mut s = lean_string(TEXT);
    s.try_clear().unwrap();
    assert!(s.is_empty());
    assert_eq!(s.as_str(), "");
}

#[test]
fn from_bool_and_char() {
    assert_eq!(LeanString::from_bool(true).as_str(), "true");
    assert_eq!(LeanString::from_bool(false).as_str(), "false");
    assert_eq!(LeanString::from_char('🦀').as_str(), "🦀");
    assert_eq!(LeanString::default().as_str(), "");
}

#[test]
fn ascii_case_in_place_keeps_clone() {
    let input = "Mixed Case ÉÀ text with ß and İ";
    let mut s = lean_string(input);
    let cloned = s.clone();
    s.try_make_ascii_lowercase().unwrap();
    assert_eq!(s.as_str(), input.to_ascii_lowercase());
    assert_eq!(cloned.as_str(), input);

    let mut u = lean_string(input);
    u.try_make_ascii_uppercase().unwrap();
    assert_eq!(u.as_str(), input.to_ascii_uppercase());

    let lower = lean_string(input).try_to_ascii_lowercase().unwrap();
    assert_eq!(lower.as_str(), input.to_ascii_lowercase());
    let upper = lean_string(input).try_to_ascii_uppercase().unwrap();
    assert_eq!(upper.as_str(), input.to_ascii_uppercase());
}

#[test]
fn ascii_case_without_change_keeps_static_text() {
    let mut s = LeanString::try_from_static_str("already lowercase, long enough to borrow").unwrap();
    s.try_make_ascii_lowercase().unwrap();
    assert!(s.as_static_str().is_some());
}
