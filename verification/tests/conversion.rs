use lean_string::{LeanStr, LeanString};

const INLINE_LIMIT: usize = 2 * size_of::<usize>();

fn lean_string(text: &str) -> LeanString {
    LeanString::try_from_str(text).unwrap()
}

#[test]
fn inline_string_to_str() {
    let lean_string = lean_string("short");
    assert!(!lean_string.is_heap_allocated());

    let lean_str = lean_string.try_into_lean_str().unwrap();
    assert_eq!(lean_str.as_str(), "short");
    assert!(!lean_str.is_heap_allocated());
}

#[test]
fn inline_str_to_string() {
    let lean_str = lean_string("short").try_into_lean_str().unwrap();
    assert_eq!(lean_str.as_str(), "short");
    assert!(!lean_str.is_heap_allocated());

    let lean_string = lean_str.try_into_lean_string().unwrap();
    assert_eq!(lean_string.as_str(), "short");
    assert!(!lean_string.is_heap_allocated());
    assert_eq!(lean_string.capacity(), INLINE_LIMIT);
}

#[test]
fn static_string_to_str() {
    let text: &'static str = "A static str that is longer than inline limit";
    let ptr = text.as_ptr();

    let lean_string = LeanString::try_from_static_str(text).unwrap();
    assert!(!lean_string.is_heap_allocated());
    assert_eq!(lean_string.as_str().as_ptr(), ptr);

    let lean_str = lean_string.try_into_lean_str().unwrap();
    assert_eq!(lean_str.as_str(), text);
    assert!(!lean_str.is_heap_allocated());
    assert_eq!(lean_str.as_str().as_ptr(), ptr);
}

#[test]
fn static_str_to_string() {
    let text: &'static str = "A static str that is longer than inline limit";
    let ptr = text.as_ptr();

    let lean_str = LeanString::try_from_static_str(text).unwrap().try_into_lean_str().unwrap();
    assert_eq!(lean_str.as_str(), text);
    assert!(!lean_str.is_heap_allocated());
    assert_eq!(lean_str.as_str().as_ptr(), ptr);

    let lean_string = lean_str.try_into_lean_string().unwrap();
    assert_eq!(lean_string.as_str(), text);
    assert!(!lean_string.is_heap_allocated());
    assert_eq!(lean_string.as_str().as_ptr(), ptr);
}

#[test]
fn unique_heap_string_to_str() {
    let text = "a heap-allocated string, longer than the inline limit";

    let lean_string = lean_string(text);
    assert!(lean_string.is_heap_allocated());

    let lean_str = lean_string.try_into_lean_str().unwrap();
    assert_eq!(lean_str.as_str(), text);
    assert!(lean_str.is_heap_allocated());
}

#[test]
fn unique_heap_str_to_string() {
    let text = "a heap-allocated string, longer than the inline limit";

    let lean_str = lean_string(text).try_into_lean_str().unwrap();
    assert_eq!(lean_str.as_str(), text);
    assert!(lean_str.is_heap_allocated());

    let mut lean_string = lean_str.try_into_lean_string().unwrap();
    assert_eq!(lean_string.as_str(), text);
    assert!(lean_string.is_heap_allocated());
    assert_eq!(lean_string.capacity(), text.len());

    lean_string.try_push_str(" ...and it is still growable").unwrap();
    assert_eq!(lean_string.as_str(), text.to_owned() + " ...and it is still growable");
}

#[test]
fn unique_heap_drops_extra_capacity() {
    let text = "content that is longer than the inline limit";
    let mut lean_string = LeanString::try_with_capacity(100).unwrap();
    lean_string.try_push_str(text).unwrap();
    assert_eq!(lean_string.capacity(), 100);

    let round_tripped =
        lean_string.try_into_lean_str().unwrap().try_into_lean_string().unwrap();
    assert_eq!(round_tripped.as_str(), text);
    assert_eq!(round_tripped.capacity(), text.len());
}

#[test]
fn unique_small_heap_into_inline() {
    let text = "a heap-allocated string, longer than the inline limit";
    let mut lean_string = lean_string(text);
    for _ in 0..(text.len() - INLINE_LIMIT) {
        lean_string.try_pop().unwrap();
    }
    assert_eq!(lean_string.len(), INLINE_LIMIT);
    assert!(lean_string.is_heap_allocated());

    let lean_str = lean_string.try_into_lean_str().unwrap();
    assert_eq!(lean_str.as_str(), &text[..INLINE_LIMIT]);
    assert!(!lean_str.is_heap_allocated());
}

#[test]
fn shared_heap_string_to_str() {
    let text = "a shared heap-allocated string, longer than inline";
    let lean_string = lean_string(text);
    let shared = lean_string.clone();

    let lean_str = lean_string.try_into_lean_str().unwrap();
    assert_eq!(lean_str.as_str(), text);
    assert!(lean_str.is_heap_allocated());
    assert_ne!(lean_str.as_str().as_ptr(), shared.as_str().as_ptr());

    assert_eq!(shared.as_str(), text);
    assert!(shared.is_heap_allocated());
}

#[test]
fn shared_heap_str_to_string() {
    let text = "a shared heap-allocated string, longer than inline";
    let lean_str = LeanStr::try_from_str(text).unwrap();
    let shared = lean_str.clone();

    let mut lean_string = lean_str.try_into_lean_string().unwrap();
    assert_ne!(lean_string.as_str().as_ptr(), shared.as_str().as_ptr());

    lean_string.try_push('!').unwrap();
    assert_eq!(lean_string.as_str(), text.to_owned() + "!");

    assert_eq!(shared.as_str(), text);
    assert!(shared.is_heap_allocated());
}
